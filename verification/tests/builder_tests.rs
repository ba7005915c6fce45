use fun_kv::kv::store::FunKV;
use fun_kv::DbBuilder;

#[test]
fn test_builder_configuration() {
    let mut db = DbBuilder::new()
        .max_memory(1_000_000_000)
        .hash_bit(20)
        .enable_caching(false)
        .build()
        .unwrap();

    db.insert(b"testkey", b"testvalue").unwrap();
    assert_eq!(db.get(b"testkey").unwrap(), b"testvalue");
}

#[test]
fn test_builder_default() {
    let mut db = DbBuilder::new().build().unwrap();

    db.insert(b"testkey", b"testvalue").unwrap();
    assert_eq!(db.get(b"testkey").unwrap(), b"testvalue");
}

#[test]
fn builder_through_store_and_default() {
    let mut db = FunKV::builder().no_memory_limit().enable_ttl(true).build().unwrap();
    db.insert(b"k", b"v").unwrap();
    assert_eq!(db.get(b"k").unwrap(), b"v");

    let mut db = DbBuilder::default().file_size(1 << 20).build().unwrap();
    assert!(db.is_empty());
    db.insert(b"a", b"b").unwrap();
    assert_eq!(db.len(), 1);
}
