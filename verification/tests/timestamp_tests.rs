use fun_kv::error::DbError;
use fun_kv::kv::store::FunKV;

#[test]
fn test_timestamp_conflict_resolution() {
    let mut db = FunKV::new(None).unwrap();

    let key = b"key";

    db.insert_with_timestamp(key, b"value1", Some(100)).unwrap();
    db.insert_with_timestamp(key, b"value2", Some(200)).unwrap();

    assert_eq!(db.get(key).unwrap(), b"value2");

    let result = db.insert_with_timestamp(key, b"value3", Some(150));
    assert!(result.is_err());
    assert!(matches!(result.unwrap_err(), DbError::OlderTimestamp));

    assert_eq!(db.get(key).unwrap(), b"value2");
}

#[test]
fn equal_timestamp_replaces() {
    let mut db = FunKV::new(None).unwrap();
    db.insert_with_timestamp(b"k", b"first", Some(7)).unwrap();
    assert_eq!(db.insert_with_timestamp(b"k", b"second", Some(7)).unwrap(), false);
    assert_eq!(db.get(b"k").unwrap(), b"second");
}
