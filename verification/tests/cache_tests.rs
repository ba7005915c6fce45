use bytes::Bytes;
use fun_kv::constants::{CACHE_HIGH_WATERMARK_MB, KB, MB};
use fun_kv::kv::cache::Cache;

#[test]
fn test_basic_cache_operations() {
    let mut cache = Cache::new();

    let key = b"test_key".to_vec();
    let value = b"test_value".to_vec();

    cache.insert(key.clone(), Bytes::from(value.clone()));
    let retrieved = cache.get(&key).unwrap();
    assert_eq!(retrieved, value);

    cache.remove(&key);
    assert!(cache.get(&key).is_none());
}

#[test]
fn test_cache_eviction() {
    let mut cache = Cache::new();

    cache.adjust_watermarks(1, 0);

    for i in 0..10000 {
        let key = format!("key_{}", i).into_bytes();
        let value = vec![0u8; KB];
        cache.insert(key, Bytes::from(value));
    }

    let cache_stats = cache.stats();
    assert!(cache_stats.memory_usage <= cache_stats.high_watermark);
}

#[test]
fn test_reference_bit_behavior() {
    let mut cache = Cache::new();

    for i in 0..100 {
        let key = format!("key_{}", i).into_bytes();
        let value = format!("value_{}", i).into_bytes();
        cache.insert(key, Bytes::from(value));
    }

    for i in 0..50 {
        let key = format!("key_{}", i).into_bytes();
        cache.get(&key);
    }
}

#[test]
fn test_cache_clear() {
    let mut cache = Cache::new();

    for i in 0..10 {
        let key = format!("key_{}", i).into_bytes();
        let value = format!("value_{}", i).into_bytes();
        cache.insert(key, Bytes::from(value));
    }

    cache.clear();

    for i in 0..10 {
        let key = format!("key_{}", i).into_bytes();
        assert!(cache.get(&key).is_none());
    }

    assert_eq!(cache.stats().memory_usage, 0);
}

#[test]
fn test_cache_update_existing() {
    let mut cache = Cache::new();

    let key = b"test_key".to_vec();
    let value1 = b"value1".to_vec();
    let value2 = b"much_longer_value2".to_vec();

    cache.insert(key.clone(), Bytes::from(value1.clone()));
    assert_eq!(cache.get(&key).unwrap(), value1);

    cache.insert(key.clone(), Bytes::from(value2.clone()));
    assert_eq!(cache.get(&key).unwrap(), value2);
}

#[test]
fn test_cache_large_value_rejection() {
    let mut cache = Cache::new();

    let key = b"huge_key".to_vec();
    let huge_value = vec![0u8; CACHE_HIGH_WATERMARK_MB * MB / 3];

    cache.insert(key.clone(), Bytes::from(huge_value));

    assert!(cache.get(&key).is_none());
}

#[test]
fn test_cache_watermark_adjustment() {
    let mut cache = Cache::new();

    cache.adjust_watermarks(10, 5);

    let cache_stats = cache.stats();
    assert_eq!(cache_stats.high_watermark, 10 * MB);
    assert_eq!(cache_stats.low_watermark, 5 * MB);

    cache.adjust_watermarks(5, 10);
    let cache_stats = cache.stats();
    assert_eq!(cache_stats.high_watermark, 10 * MB);
}

#[test]
fn cache_default_watermarks_and_entry_charge() {
    let mut cache = Cache::new();
    let stats = cache.stats();
    assert_eq!(stats.high_watermark, 100 * MB);
    assert_eq!(stats.low_watermark, 50 * MB);
    assert_eq!(stats.memory_usage, 0);

    // an entry is charged its key, its value and a fixed overhead
    cache.insert(b"k".to_vec(), Bytes::from(b"vv".to_vec()));
    assert_eq!(cache.stats().memory_usage, 1 + 2 + 80);
    cache.remove(b"k");
    assert_eq!(cache.stats().memory_usage, 0);
    assert_eq!(cache.evictions(), 0);
}

#[test]
fn cache_eviction_counts_and_keeps_recent_key() {
    let mut cache = Cache::new();
    cache.adjust_watermarks(1, 0);
    for i in 0..2000 {
        let key = format!("key_{}", i).into_bytes();
        cache.insert(key, Bytes::from(vec![7u8; KB]));
    }
    assert!(cache.evictions() > 0);
    // the entry inserted last is still there
    assert_eq!(cache.get(b"key_1999").unwrap(), vec![7u8; KB]);
}

#[test]
fn eviction_reaches_low_watermark_even_when_every_entry_was_read() {
    let mut cache = Cache::new();
    cache.adjust_watermarks(2, 1);
    for i in 0..1500 {
        let key = format!("key_{}", i).into_bytes();
        cache.insert(key, Bytes::from(vec![3u8; KB]));
    }
    assert!(cache.stats().memory_usage > MB);
    for i in 0..1500 {
        let key = format!("key_{}", i).into_bytes();
        cache.get(&key);
    }
    cache.evict_entries();
    let stats = cache.stats();
    assert!(stats.memory_usage <= stats.low_watermark);
    assert_eq!(stats.low_watermark, MB);
}
