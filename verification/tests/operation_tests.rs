use fun_kv::kv::store::FunKV;

#[test]
fn test_update_existing_key() {
    let mut db = FunKV::new(None).unwrap();

    let key = b"key";
    let value = b"value";
    let updated_value = b"new_value";

    db.insert(key, value).unwrap();
    assert_eq!(db.get(key).unwrap(), value);

    db.insert(key, updated_value).unwrap();
    assert_eq!(db.get(key).unwrap(), updated_value);
}

#[test]
fn test_empty_db() {
    let db = FunKV::new(None).unwrap();

    assert!(db.is_empty());
    assert_eq!(db.len(), 0);
}

#[test]
fn insert_reports_new_key_and_contains() {
    let mut db = FunKV::new(None).unwrap();
    assert!(!db.contains_key(b"exists"));
    assert_eq!(db.insert(b"exists", b"value").unwrap(), true);
    assert!(db.contains_key(b"exists"));
    assert_eq!(db.insert(b"exists", b"other").unwrap(), false);
    assert_eq!(db.len(), 1);
    let s = db.stats();
    assert_eq!(s.total_inserts, 1);
    // replacing a record is not counted as an operation
    assert_eq!(s.total_updates, 0);
}

#[test]
fn reads_are_counted_as_hits() {
    let mut db = FunKV::new(None).unwrap();
    db.insert(b"a", b"1").unwrap();
    assert_eq!(db.get(b"a").unwrap(), b"1");
    assert_eq!(db.get(b"a").unwrap(), b"1");
    let s = db.stats();
    assert_eq!(s.total_gets, 2);
    assert_eq!(s.cache_hits, 2);
    assert_eq!(s.cache_misses, 0);
    assert_eq!(s.total_operations, 3);
}
