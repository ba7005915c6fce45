use fun_kv::constants::MAX_KEY_SIZE;
use fun_kv::error::DbError;
use fun_kv::kv::store::FunKV;

#[test]
fn test_empty_key_rejected() {
    let mut db = FunKV::new(None).unwrap();
    let result = db.insert(b"", b"value");
    assert!(result.is_err());
    assert!(matches!(result.unwrap_err(), DbError::InvalidKeySize));
}

#[test]
fn test_empty_value_rejected() {
    let mut db = FunKV::new(None).unwrap();
    let result = db.insert(b"key", b"");
    assert!(result.is_err());
    assert!(matches!(result.unwrap_err(), DbError::InvalidValueSize));
}

#[test]
fn test_max_key_size() {
    let mut db = FunKV::new(None).unwrap();

    let large_key = vec![b'k'; 100000];
    db.insert(&large_key, b"value").unwrap();
    assert_eq!(db.get(&large_key).unwrap(), b"value");

    let oversized_key = vec![b'k'; MAX_KEY_SIZE + 10];
    let result = db.insert(&oversized_key, b"value");
    assert!(result.is_err());
    assert!(matches!(result.unwrap_err(), DbError::InvalidKeySize));
}

#[test]
fn test_stats_snapshot() {
    let mut db = FunKV::new(None).unwrap();

    for i in 0..10 {
        let key = format!("key_{}", i);
        db.insert(key.as_bytes(), b"value").unwrap();
    }

    let stats = db.stats();
    assert_eq!(stats.record_count, 10);
    assert!(stats.memory_usage > 0);
    assert_eq!(stats.total_inserts, 10);
}

#[test]
fn oversized_value_rejected_and_get_of_bad_key() {
    let mut db = FunKV::new(None).unwrap();
    let big = vec![1u8; fun_kv::constants::MAX_VALUE_SIZE + 1];
    assert!(matches!(db.insert(b"k", &big).unwrap_err(), DbError::InvalidValueSize));
    assert!(matches!(db.get(b"").unwrap_err(), DbError::InvalidKeySize));
    assert!(matches!(db.get(b"missing").unwrap_err(), DbError::KeyNotFound));
    assert!(db.is_empty());
}
