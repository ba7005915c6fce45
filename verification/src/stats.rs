use vstd::prelude::*;

use crate::error::DbError;

verus! {

pub open spec fn wadd64(a: u64, b: u64) -> u64 {
    vstd::wrapping::u64_specs::wrapping_add(a, b)
}

/// Counters of what the store has done. Every counter wraps around on overflow.
#[derive(Debug, Clone)]
pub struct Statistics {
    pub record_count: u32,
    pub memory_usage: usize,
    pub disk_usage: u64,
    pub total_gets: u64,
    pub total_inserts: u64,
    pub total_updates: u64,
    pub total_deletes: u64,
    pub total_range_queries: u64,
    pub get_latency_ns: u64,
    pub insert_latency_ns: u64,
    pub delete_latency_ns: u64,
    pub range_query_latency_ns: u64,
    pub cache_hits: u64,
    pub cache_misses: u64,
    pub cache_evictions: u64,
    pub cache_memory: usize,
    pub writes_buffered: u64,
    pub writes_flushed: u64,
    pub write_failures: u64,
    pub flush_count: u64,
    pub disk_reads: u64,
    pub disk_writes: u64,
    pub disk_bytes_read: u64,
    pub disk_bytes_written: u64,
    pub key_not_found_errors: u64,
    pub out_of_memory_errors: u64,
    pub io_errors: u64,
    pub ttl_expired_lazy: u64,
    pub ttl_expired_active: u64,
    pub ttl_cleaner_runs: u64,
    pub keys_with_ttl: u64,
}

impl Statistics {
    /// All counters at zero.
    pub open spec fn zeroed() -> Statistics {
        Statistics {
            record_count: 0,
            memory_usage: 0,
            disk_usage: 0,
            total_gets: 0,
            total_inserts: 0,
            total_updates: 0,
            total_deletes: 0,
            total_range_queries: 0,
            get_latency_ns: 0,
            insert_latency_ns: 0,
            delete_latency_ns: 0,
            range_query_latency_ns: 0,
            cache_hits: 0,
            cache_misses: 0,
            cache_evictions: 0,
            cache_memory: 0,
            writes_buffered: 0,
            writes_flushed: 0,
            write_failures: 0,
            flush_count: 0,
            disk_reads: 0,
            disk_writes: 0,
            disk_bytes_read: 0,
            disk_bytes_written: 0,
            key_not_found_errors: 0,
            out_of_memory_errors: 0,
            io_errors: 0,
            ttl_expired_lazy: 0,
            ttl_expired_active: 0,
            ttl_cleaner_runs: 0,
            keys_with_ttl: 0,
        }
    }

    pub fn new() -> (r: Self)
        ensures
            r == Statistics::zeroed(),
    {
        Self {
            record_count: 0,
            memory_usage: 0,
            disk_usage: 0,
            total_gets: 0,
            total_inserts: 0,
            total_updates: 0,
            total_deletes: 0,
            total_range_queries: 0,
            get_latency_ns: 0,
            insert_latency_ns: 0,
            delete_latency_ns: 0,
            range_query_latency_ns: 0,
            cache_hits: 0,
            cache_misses: 0,
            cache_evictions: 0,
            cache_memory: 0,
            writes_buffered: 0,
            writes_flushed: 0,
            write_failures: 0,
            flush_count: 0,
            disk_reads: 0,
            disk_writes: 0,
            disk_bytes_read: 0,
            disk_bytes_written: 0,
            key_not_found_errors: 0,
            out_of_memory_errors: 0,
            io_errors: 0,
            ttl_expired_lazy: 0,
            ttl_expired_active: 0,
            ttl_cleaner_runs: 0,
            keys_with_ttl: 0,
        }
    }

    /// A copy of every counter.
    pub fn clone_counters(&self) -> (r: Self)
        ensures
            r == *self,
    {
        Statistics { ..*self }
    }

    /// Counts one read, its latency and whether it was served from memory.
    pub fn record_get(&mut self, latency_ns: u64, hit: bool)
        ensures
            *final(self) == (Statistics {
                total_gets: wadd64(old(self).total_gets, 1),
                get_latency_ns: wadd64(old(self).get_latency_ns, latency_ns),
                cache_hits: if hit { wadd64(old(self).cache_hits, 1) } else { old(self).cache_hits },
                cache_misses: if hit { old(self).cache_misses } else { wadd64(old(self).cache_misses, 1) },
                ..*old(self)
            }),
    {
        self.total_gets = self.total_gets.wrapping_add(1);
        self.get_latency_ns = self.get_latency_ns.wrapping_add(latency_ns);

        if hit {
            self.cache_hits = self.cache_hits.wrapping_add(1);
        } else {
            self.cache_misses = self.cache_misses.wrapping_add(1);
        }
    }

    /// Counts one write of a new key, or of an existing key when `is_update`, and its latency.
    pub fn record_insert(&mut self, latency_ns: u64, is_update: bool)
        ensures
            *final(self) == (Statistics {
                total_updates: if is_update { wadd64(old(self).total_updates, 1) } else { old(self).total_updates },
                total_inserts: if is_update { old(self).total_inserts } else { wadd64(old(self).total_inserts, 1) },
                insert_latency_ns: wadd64(old(self).insert_latency_ns, latency_ns),
                ..*old(self)
            }),
    {
        if is_update {
            self.total_updates = self.total_updates.wrapping_add(1);
        } else {
            self.total_inserts = self.total_inserts.wrapping_add(1);
        }
        self.insert_latency_ns = self.insert_latency_ns.wrapping_add(latency_ns);
    }

    /// Counts one delete and its latency.
    pub fn record_delete(&mut self, latency_ns: u64)
        ensures
            *final(self) == (Statistics {
                total_deletes: wadd64(old(self).total_deletes, 1),
                delete_latency_ns: wadd64(old(self).delete_latency_ns, latency_ns),
                ..*old(self)
            }),
    {
        self.total_deletes = self.total_deletes.wrapping_add(1);
        self.delete_latency_ns = self.delete_latency_ns.wrapping_add(latency_ns);
    }

    /// Counts one range query and its latency.
    pub fn record_range_query(&mut self, latency_ns: u64)
        ensures
            *final(self) == (Statistics {
                total_range_queries: wadd64(old(self).total_range_queries, 1),
                range_query_latency_ns: wadd64(old(self).range_query_latency_ns, latency_ns),
                ..*old(self)
            }),
    {
        self.total_range_queries = self.total_range_queries.wrapping_add(1);
        self.range_query_latency_ns = self.range_query_latency_ns.wrapping_add(latency_ns);
    }

    /// Counts `count` entries evicted from the cache.
    pub fn record_eviction(&mut self, count: u64)
        ensures
            *final(self) == (Statistics {
                cache_evictions: wadd64(old(self).cache_evictions, count),
                ..*old(self)
            }),
    {
        self.cache_evictions = self.cache_evictions.wrapping_add(count);
    }

    /// Counts one write placed in the write buffer.
    pub fn record_write_buffered(&mut self)
        ensures
            *final(self) == (Statistics {
                writes_buffered: wadd64(old(self).writes_buffered, 1),
                ..*old(self)
            }),
    {
        self.writes_buffered = self.writes_buffered.wrapping_add(1);
    }

    /// Counts `count` buffered writes that reached the disk.
    pub fn record_write_flushed(&mut self, count: u64)
        ensures
            *final(self) == (Statistics {
                writes_flushed: wadd64(old(self).writes_flushed, count),
                ..*old(self)
            }),
    {
        self.writes_flushed = self.writes_flushed.wrapping_add(count);
    }

    /// Counts one batch of writes that failed.
    pub fn record_write_failed(&mut self)
        ensures
            *final(self) == (Statistics {
                write_failures: wadd64(old(self).write_failures, 1),
                ..*old(self)
            }),
    {
        self.write_failures = self.write_failures.wrapping_add(1);
    }

    /// Counts one disk read of `bytes` bytes.
    pub fn record_disk_read(&mut self, bytes: u64)
        ensures
            *final(self) == (Statistics {
                disk_reads: wadd64(old(self).disk_reads, 1),
                disk_bytes_read: wadd64(old(self).disk_bytes_read, bytes),
                ..*old(self)
            }),
    {
        self.disk_reads = self.disk_reads.wrapping_add(1);
        self.disk_bytes_read = self.disk_bytes_read.wrapping_add(bytes);
    }

    /// Counts one disk write of `bytes` bytes.
    pub fn record_disk_write(&mut self, bytes: u64)
        ensures
            *final(self) == (Statistics {
                disk_writes: wadd64(old(self).disk_writes, 1),
                disk_bytes_written: wadd64(old(self).disk_bytes_written, bytes),
                ..*old(self)
            }),
    {
        self.disk_writes = self.disk_writes.wrapping_add(1);
        self.disk_bytes_written = self.disk_bytes_written.wrapping_add(bytes);
    }

    /// Counts an error by kind: missing keys, exhausted memory and I/O failures
    /// each have a counter; other errors are not counted.
    pub fn record_error(&mut self, error: &DbError)
        ensures
            *final(self) == match *error {
                DbError::KeyNotFound => Statistics {
                    key_not_found_errors: wadd64(old(self).key_not_found_errors, 1),
                    ..*old(self)
                },
                DbError::OutOfMemory => Statistics {
                    out_of_memory_errors: wadd64(old(self).out_of_memory_errors, 1),
                    ..*old(self)
                },
                DbError::IoError(_) => Statistics {
                    io_errors: wadd64(old(self).io_errors, 1),
                    ..*old(self)
                },
                _ => *old(self),
            },
    {
        match error {
            DbError::KeyNotFound => {
                self.key_not_found_errors = self.key_not_found_errors.wrapping_add(1);
            },
            DbError::OutOfMemory => {
                self.out_of_memory_errors = self.out_of_memory_errors.wrapping_add(1);
            },
            DbError::IoError(_) => {
                self.io_errors = self.io_errors.wrapping_add(1);
            },
            _ => {},
        }
    }

    /// The summary of these counters.
    pub fn snapshot(&self) -> (r: StatsSnapshot)
        requires
            self.total_gets + self.total_inserts + self.total_updates + self.total_deletes
                <= u64::MAX,
        ensures
            r == snapshot_of(*self),
            r.total_operations == self.total_gets + self.total_inserts + self.total_updates
                + self.total_deletes,
    {
        let total_ops = self.total_gets + self.total_inserts + self.total_updates
            + self.total_deletes;

        let avg_get_latency = {
            let gets = self.total_gets;
            if gets > 0 {
                self.get_latency_ns / gets
            } else {
                0
            }
        };

        let avg_insert_latency = {
            let inserts = self.total_inserts + self.total_updates;
            if inserts > 0 {
                self.insert_latency_ns / inserts
            } else {
                0
            }
        };

        let avg_delete_latency = {
            let deletes = self.total_deletes;
            if deletes > 0 {
                self.delete_latency_ns / deletes
            } else {
                0
            }
        };

        let avg_range_query_latency = {
            let queries = self.total_range_queries;
            if queries > 0 {
                self.range_query_latency_ns / queries
            } else {
                0
            }
        };

        StatsSnapshot {
            record_count: self.record_count,
            memory_usage: self.memory_usage,
            total_operations: total_ops,
            total_gets: self.total_gets,
            total_inserts: self.total_inserts,
            total_updates: self.total_updates,
            total_deletes: self.total_deletes,
            total_range_queries: self.total_range_queries,
            avg_get_latency_ns: avg_get_latency,
            avg_insert_latency_ns: avg_insert_latency,
            avg_delete_latency_ns: avg_delete_latency,
            avg_range_query_latency_ns: avg_range_query_latency,
            cache_hits: self.cache_hits,
            cache_misses: self.cache_misses,
            cache_evictions: self.cache_evictions,
            cache_memory: self.cache_memory,
            writes_buffered: self.writes_buffered,
            writes_flushed: self.writes_flushed,
            write_failures: self.write_failures,
            flush_count: self.flush_count,
            disk_reads: self.disk_reads,
            disk_writes: self.disk_writes,
            disk_bytes_read: self.disk_bytes_read,
            disk_bytes_written: self.disk_bytes_written,
            key_not_found_errors: self.key_not_found_errors,
            out_of_memory_errors: self.out_of_memory_errors,
            io_errors: self.io_errors,
        }
    }
}

impl Default for Statistics {
    fn default() -> (r: Self)
        ensures
            r == Statistics::zeroed(),
    {
        Self::new()
    }
}

/// `total / count`, or 0 when nothing was counted.
pub open spec fn average(total: u64, count: int) -> u64 {
    if count > 0 {
        (total as int / count) as u64
    } else {
        0
    }
}

/// A summary of the counters: totals as they stand and average latencies.
#[derive(Debug, Clone)]
pub struct StatsSnapshot {
    pub record_count: u32,
    pub memory_usage: usize,
    pub total_operations: u64,
    pub total_gets: u64,
    pub total_inserts: u64,
    pub total_updates: u64,
    pub total_deletes: u64,
    pub total_range_queries: u64,
    pub avg_get_latency_ns: u64,
    pub avg_insert_latency_ns: u64,
    pub avg_delete_latency_ns: u64,
    pub avg_range_query_latency_ns: u64,
    pub cache_hits: u64,
    pub cache_misses: u64,
    pub cache_evictions: u64,
    pub cache_memory: usize,
    pub writes_buffered: u64,
    pub writes_flushed: u64,
    pub write_failures: u64,
    pub flush_count: u64,
    pub disk_reads: u64,
    pub disk_writes: u64,
    pub disk_bytes_read: u64,
    pub disk_bytes_written: u64,
    pub key_not_found_errors: u64,
    pub out_of_memory_errors: u64,
    pub io_errors: u64,
}

/// The summary that `snapshot` gives of `s`.
pub open spec fn snapshot_of(s: Statistics) -> StatsSnapshot {
    StatsSnapshot {
        record_count: s.record_count,
        memory_usage: s.memory_usage,
        total_operations: (s.total_gets + s.total_inserts + s.total_updates + s.total_deletes) as u64,
        total_gets: s.total_gets,
        total_inserts: s.total_inserts,
        total_updates: s.total_updates,
        total_deletes: s.total_deletes,
        total_range_queries: s.total_range_queries,
        avg_get_latency_ns: average(s.get_latency_ns, s.total_gets as int),
        avg_insert_latency_ns: average(s.insert_latency_ns, s.total_inserts + s.total_updates),
        avg_delete_latency_ns: average(s.delete_latency_ns, s.total_deletes as int),
        avg_range_query_latency_ns: average(s.range_query_latency_ns, s.total_range_queries as int),
        cache_hits: s.cache_hits,
        cache_misses: s.cache_misses,
        cache_evictions: s.cache_evictions,
        cache_memory: s.cache_memory,
        writes_buffered: s.writes_buffered,
        writes_flushed: s.writes_flushed,
        write_failures: s.write_failures,
        flush_count: s.flush_count,
        disk_reads: s.disk_reads,
        disk_writes: s.disk_writes,
        disk_bytes_read: s.disk_bytes_read,
        disk_bytes_written: s.disk_bytes_written,
        key_not_found_errors: s.key_not_found_errors,
        out_of_memory_errors: s.out_of_memory_errors,
        io_errors: s.io_errors,
    }
}

/// A snapshot counts every operation once: its total is the sum of the gets,
/// inserts, updates and deletes counted.
pub proof fn lemma_snapshot_total(s: Statistics)
    requires
        s.total_gets + s.total_inserts + s.total_updates + s.total_deletes <= u64::MAX,
    ensures
        snapshot_of(s).total_operations == s.total_gets + s.total_inserts + s.total_updates
            + s.total_deletes,
        snapshot_of(s).total_gets == s.total_gets,
        snapshot_of(s).total_inserts == s.total_inserts,
        snapshot_of(s).total_updates == s.total_updates,
        snapshot_of(s).total_deletes == s.total_deletes,
{
}

/// Each counted get, insert, update or delete adds one to a snapshot's total:
/// `s2` is `s` after one more operation of one of the four kinds (and any
/// latency), with no counter wrapping.
pub proof fn lemma_snapshot_counts_each_operation(s: Statistics, s2: Statistics)
    requires
        s2.total_gets + s2.total_inserts + s2.total_updates + s2.total_deletes <= u64::MAX,
        ({
            ||| s2.total_gets == s.total_gets + 1 && s2.total_inserts == s.total_inserts
                && s2.total_updates == s.total_updates && s2.total_deletes == s.total_deletes
            ||| s2.total_gets == s.total_gets && s2.total_inserts == s.total_inserts + 1
                && s2.total_updates == s.total_updates && s2.total_deletes == s.total_deletes
            ||| s2.total_gets == s.total_gets && s2.total_inserts == s.total_inserts
                && s2.total_updates == s.total_updates + 1 && s2.total_deletes == s.total_deletes
            ||| s2.total_gets == s.total_gets && s2.total_inserts == s.total_inserts
                && s2.total_updates == s.total_updates && s2.total_deletes == s.total_deletes + 1
        }),
    ensures
        snapshot_of(s2).total_operations == snapshot_of(s).total_operations + 1,
{
}

impl StatsSnapshot {
    /// The hit and lookup counts from which the cache hit rate is computed:
    /// the rate is `hits / lookups`, as a percentage, and 0 when there was no lookup.
    pub fn cache_hit_ratio(&self) -> (r: (u64, u64))
        requires
            self.cache_hits + self.cache_misses <= u64::MAX,
        ensures
            r == (self.cache_hits, (self.cache_hits + self.cache_misses) as u64),
    {
        (self.cache_hits, self.cache_hits + self.cache_misses)
    }
}

} // verus!
