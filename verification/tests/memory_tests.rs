use fun_kv::error::DbError;
use fun_kv::kv::store::FunKV;
use fun_kv::DbBuilder;

#[test]
fn test_memory_limit_enforcement() {
    let mut db = DbBuilder::new().max_memory(1024).build().unwrap();

    db.insert(b"k1", b"v1").unwrap();

    let large_value = vec![0u8; 2048];
    let result = db.insert(b"k2", &large_value);
    assert!(result.is_err());
    assert!(matches!(result.unwrap_err(), DbError::OutOfMemory));
}

#[test]
fn memory_charge_per_record() {
    let mut db = FunKV::new(None).unwrap();
    let initial_usage = db.memory_usage();
    for i in 0..10 {
        let key = format!("key_{}", i);
        let value = format!("value_{}", i);
        db.insert(key.as_bytes(), value.as_bytes()).unwrap();
    }
    // 120 bytes of overhead, 5 key bytes and 7 value bytes per record
    assert_eq!(db.memory_usage() - initial_usage, 1320);
}

#[test]
fn update_moves_memory_charge() {
    let mut db = FunKV::new(None).unwrap();
    db.insert(b"key", b"12345").unwrap();
    let before = db.memory_usage();
    assert_eq!(db.insert(b"key", b"1234567890").unwrap(), false);
    assert!(db.memory_usage() >= before + 5);
    assert_eq!(db.len(), 1);
}
