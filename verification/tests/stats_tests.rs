use fun_kv::error::DbError;
use fun_kv::stats::{StatsSnapshot, Statistics};

fn hit_rate(s: &StatsSnapshot) -> f64 {
    let (hits, lookups) = s.cache_hit_ratio();
    if lookups > 0 {
        (hits as f64 / lookups as f64) * 100.0
    } else {
        0.0
    }
}

#[test]
fn test_statistics_creation() {
    let stats = Statistics::new();

    assert_eq!(stats.record_count, 0);
    assert_eq!(stats.memory_usage, 0);
    assert_eq!(stats.disk_usage, 0);
    assert_eq!(stats.total_gets, 0);
    assert_eq!(stats.total_inserts, 0);
}

#[test]
fn test_record_operation() {
    let mut stats = Statistics::new();

    stats.record_get(100, true);
    stats.record_get(200, false);
    stats.record_insert(150, false);
    stats.record_insert(250, true);
    stats.record_delete(50);

    assert_eq!(stats.total_gets, 2);
    assert_eq!(stats.total_inserts, 1);
    assert_eq!(stats.total_updates, 1);
    assert_eq!(stats.total_deletes, 1);
    assert_eq!(stats.cache_hits, 1);
    assert_eq!(stats.cache_misses, 1);
}

#[test]
fn test_latency_recording() {
    let mut stats = Statistics::new();

    stats.record_get(1000, true);
    stats.record_get(2000, false);
    stats.record_range_query(3000);
    stats.record_insert(4000, false);
    stats.record_delete(5000);

    assert_eq!(stats.get_latency_ns, 3000);
    assert_eq!(stats.range_query_latency_ns, 3000);
    assert_eq!(stats.insert_latency_ns, 4000);
    assert_eq!(stats.delete_latency_ns, 5000);
}

#[test]
fn test_write_buffer_stats() {
    let mut stats = Statistics::new();

    stats.record_write_buffered();
    stats.record_write_buffered();
    stats.record_write_flushed(10);
    stats.record_write_failed();

    assert_eq!(stats.writes_buffered, 2);
    assert_eq!(stats.writes_flushed, 10);
    assert_eq!(stats.write_failures, 1);
}

#[test]
fn test_eviction_stats() {
    let mut stats = Statistics::new();

    stats.record_eviction(5);
    stats.record_eviction(3);

    assert_eq!(stats.cache_evictions, 8);
}

#[test]
fn test_statistics_snapshot() {
    let mut stats = Statistics::new();

    stats.record_count = 100;
    stats.memory_usage = 10000;
    stats.disk_bytes_written = 50000;
    stats.total_gets = 500;
    stats.total_inserts = 100;
    stats.cache_hits = 400;
    stats.cache_misses = 100;

    let snapshot = stats.snapshot();

    assert_eq!(snapshot.record_count, 100);
    assert_eq!(snapshot.memory_usage, 10000);
    assert_eq!(snapshot.disk_bytes_written, 50000);
    assert_eq!(snapshot.total_gets, 500);
    assert_eq!(snapshot.total_inserts, 100);
    assert_eq!(hit_rate(&snapshot), 80.0);
}

#[test]
fn test_cache_hit_rate_calculation() {
    let mut stats = Statistics::new();

    let snapshot = stats.snapshot();
    assert_eq!(hit_rate(&snapshot), 0.0);

    stats.cache_hits = 100;
    stats.cache_misses = 0;
    let snapshot = stats.snapshot();
    assert_eq!(hit_rate(&snapshot), 100.0);

    stats.cache_hits = 50;
    stats.cache_misses = 50;
    let snapshot = stats.snapshot();
    assert_eq!(hit_rate(&snapshot), 50.0);
}

#[test]
fn test_average_latencies() {
    let mut stats = Statistics::new();

    stats.total_gets = 100;
    stats.get_latency_ns = 10000;

    stats.total_range_queries = 10;
    stats.range_query_latency_ns = 100000;

    stats.total_inserts = 50;
    stats.insert_latency_ns = 15000;

    stats.total_deletes = 25;
    stats.delete_latency_ns = 5000;

    let snapshot = stats.snapshot();

    assert_eq!(snapshot.avg_get_latency_ns, 100);
    assert_eq!(snapshot.avg_range_query_latency_ns, 10000);
    assert_eq!(snapshot.avg_insert_latency_ns, 300);
    assert_eq!(snapshot.avg_delete_latency_ns, 200);
}

#[test]
fn test_memory_tracking() {
    let mut stats = Statistics::new();

    stats.memory_usage = 1000;
    assert_eq!(stats.memory_usage, 1000);

    stats.memory_usage += 500;
    assert_eq!(stats.memory_usage, 1500);

    stats.memory_usage -= 200;
    assert_eq!(stats.memory_usage, 1300);
}

#[test]
fn test_flush_count() {
    let mut stats = Statistics::new();

    stats.flush_count += 1;
    stats.flush_count += 1;

    assert_eq!(stats.flush_count, 2);
}

#[test]
fn snapshot_totals_and_updates_in_insert_average() {
    let mut stats = Statistics::new();
    stats.record_insert(90, false);
    stats.record_insert(30, true);
    stats.record_get(10, true);
    let s = stats.snapshot();
    assert_eq!(s.total_operations, 3);
    assert_eq!(s.avg_insert_latency_ns, 60);
    assert_eq!(s.avg_get_latency_ns, 10);
    assert_eq!(s.avg_delete_latency_ns, 0);
}

#[test]
fn error_counters_and_disk_counters() {
    let mut stats = Statistics::default();
    stats.record_error(&DbError::KeyNotFound);
    stats.record_error(&DbError::OutOfMemory);
    stats.record_error(&DbError::OutOfMemory);
    stats.record_error(&DbError::InvalidKeySize);
    assert_eq!(stats.key_not_found_errors, 1);
    assert_eq!(stats.out_of_memory_errors, 2);
    assert_eq!(stats.io_errors, 0);
    stats.record_disk_read(4096);
    stats.record_disk_write(8192);
    stats.record_disk_write(8192);
    assert_eq!((stats.disk_reads, stats.disk_bytes_read), (1, 4096));
    assert_eq!((stats.disk_writes, stats.disk_bytes_written), (2, 16384));
    let copy = stats.clone_counters();
    assert_eq!(copy.disk_bytes_written, 16384);
}

#[test]
fn counters_wrap_around() {
    let mut stats = Statistics::new();
    stats.writes_flushed = u64::MAX;
    stats.record_write_flushed(2);
    assert_eq!(stats.writes_flushed, 1);
}
