pub mod persistence;
pub mod recovery;
pub mod ttl;

use std::sync::Arc;

use ahash::RandomState;
use crossbeam_skiplist::SkipMap;
use vstd::prelude::*;

use crate::constants::{
    BLOCK_SIZE, CACHE_HIGH_WATERMARK_MB, CACHE_LOW_WATERMARK_MB, CACHE_MAX_SIZE, MB, Operation,
    DEFAULT_HASH_BITS, DEFAULT_MAX_MEMORY, MAX_KEY_SIZE, MAX_VALUE_SIZE,
};
use crate::error::DbError;
use crate::kv::cache::{
    bytes_from_vec, bytes_to_vec, cache_after_remove, cache_insert_effect, Cache, CacheView,
};
use crate::kv::record::{blocks_for, calculate_record_size, record_size_spec, Record};
use crate::kv::store::recovery::record_sectors;
use crate::stats::{wadd64, Statistics, StatsSnapshot, snapshot_of};
use crate::utils::bytes_eq::bytes_eq;
use crate::storage::free_space_manager::{
    allocate_fits, allocate_spec, free_set, lemma_allocate_takes, release_fits, release_spec,
    runs_apart, runs_valid, sector_range, FreeSpaceManager, FreeSpaceView,
};
use crate::storage::format::{get_format, stored_value, value_in_sectors, DefaultFormat, RecordFormat};
use crate::storage::metadata::{initial_metadata, Metadata};
use crate::storage::write_buffer::{
    disk_image, elapsed_nanos, entry_view, image_blocks, instant_now, perpare_record_data, WriteEntry,
};

verus! {

// ---------------------------------------------------------------------------
// The outside collections that index the records
// ---------------------------------------------------------------------------

/// `ahash::RandomState`, the hasher the key index is built with.
#[verifier::external_type_specification]
#[verifier::external_body]
pub struct ExRandomState(ahash::RandomState);

/// `scc::HashMap`, the concurrent hash index from keys to records.
#[verifier::external_type_specification]
#[verifier::external_body]
#[verifier::reject_recursive_types(K)]
#[verifier::reject_recursive_types(V)]
#[verifier::reject_recursive_types(H)]
pub struct ExSccHashMap<K, V, H: std::hash::BuildHasher>(scc::HashMap<K, V, H>);

/// `crossbeam_skiplist::SkipMap`, the ordered index from keys to records.
#[verifier::external_type_specification]
#[verifier::external_body]
#[verifier::reject_recursive_types(K)]
#[verifier::reject_recursive_types(V)]
pub struct ExSkipMap<K, V>(crossbeam_skiplist::SkipMap<K, V>);

/// The hash index from key bytes to records.
pub type RecordIndex = scc::HashMap<Vec<u8>, Arc<Record>, RandomState>;

/// The ordered index from key bytes to records.
pub type RecordTree = SkipMap<Vec<u8>, Arc<Record>>;

/// The records the hash index holds, by key bytes.
pub uninterp spec fn index_contents(m: RecordIndex) -> Map<
    Seq<u8>,
    Record,
>;

/// The records the ordered index holds, by key bytes.
pub uninterp spec fn tree_contents(t: RecordTree) -> Map<Seq<u8>, Record>;

/// `scc::HashMap::with_capacity_and_hasher` with a fresh `ahash::RandomState`:
/// an empty map; the capacity is a sizing hint only.
#[verifier::external_body]
fn index_new(capacity: usize) -> (index: RecordIndex)
    ensures
        (index_contents(index) == Map::<Seq<u8>, Record>::empty()),
{
    scc::HashMap::with_capacity_and_hasher(capacity, RandomState::new())
}

/// `scc::HashMap::read_sync` with a reader that hands out the record: the record
/// stored under `key`, if any.
#[verifier::external_body]
fn index_read(m: &RecordIndex, key: &[u8]) -> (r: Option<Arc<Record>>)
    ensures
        match r {
            Some(rec) => index_contents(*m).contains_key(key@) && *rec == index_contents(*m)[key@],
            None => !index_contents(*m).contains_key(key@),
        },
{
    m.read_sync(key, |_, v| v.clone())
}

/// `scc::HashMap::contains_sync`: whether `key` is stored.
#[verifier::external_body]
fn index_contains(m: &RecordIndex, key: &[u8]) -> (r: bool)
    ensures
        r == index_contents(*m).contains_key(key@),
{
    m.contains_sync(key)
}

/// `scc::HashMap::upsert_sync`: stores `value` under `key`, replacing what was there.
#[verifier::external_body]
fn index_upsert(
    m: &mut RecordIndex,
    key: Vec<u8>,
    value: Arc<Record>,
)
    ensures
        index_contents(*final(m)) == index_contents(*old(m)).insert(key@, *value),
{
    m.upsert_sync(key, value);
}

/// `SkipMap::new`: an empty map.
#[verifier::external_body]
fn tree_new() -> (tree: RecordTree)
    ensures
        (tree_contents(tree) == Map::<Seq<u8>, Record>::empty()),
{
    SkipMap::new()
}

/// `SkipMap::insert`: stores `value` under `key`, replacing what was there.
#[verifier::external_body]
fn tree_insert(t: &mut RecordTree, key: Vec<u8>, value: Arc<Record>)
    ensures
        tree_contents(*final(t)) == tree_contents(*old(t)).insert(key@, *value),
{
    t.insert(key, value);
}

/// `Arc::clone`: another pointer to the same record.
#[verifier::external_body]
fn arc_clone(a: &Arc<Record>) -> (r: Arc<Record>)
    ensures
        *r == **a,
{
    a.clone()
}

/// Nanoseconds since the Unix epoch by the system clock, cut to 64 bits, or 0
/// when the clock is set before the epoch. Nothing is stated of the value.
#[verifier::external_body]
fn wall_clock_nanos() -> u64 {
    std::time::SystemTime::now().duration_since(std::time::UNIX_EPOCH).unwrap_or_default().as_nanos() as u64
}

// ---------------------------------------------------------------------------
// Configuration
// ---------------------------------------------------------------------------

/// How a store is set up.
pub struct DbConfig {
    pub persistency: bool,
    pub max_memory: Option<usize>,
    pub enable_caching: bool,
    pub hash_bit: u32,
    pub enable_ttl: bool,
    pub file_path: Option<String>,
    pub file_size: Option<u64>,
}

/// Reads whole sectors of the backing file.
pub trait SectorReader {
    fn read_sectors(&self, sector: u64, count: u64) -> Result<Vec<u8>, DbError>;
}

/// A reader for stores without a backing file: every read fails.
pub struct NoDevice;

impl SectorReader for NoDevice {
    fn read_sectors(&self, sector: u64, count: u64) -> (r: Result<Vec<u8>, DbError>)
        ensures
            r == Err::<Vec<u8>, DbError>(DbError::NoDevice),
    {
        Err(DbError::NoDevice)
    }
}

// ---------------------------------------------------------------------------
// The store
// ---------------------------------------------------------------------------

/// The key-value store: records indexed by key twice (hashed and ordered), the
/// statistics, an optional read cache, the free space of the backing file and
/// the writes waiting for the write buffer.
pub struct FunKV {
    hash_table: RecordIndex,
    tree: RecordTree,
    stats: Statistics,
    pending_writes: Vec<WriteEntry>,
    has_write_buffer: bool,
    free_space: FreeSpaceManager,
    metadata: Metadata,
    persistency: bool,
    enable_caching: bool,
    max_memory: Option<usize>,
    cache: Option<Cache>,
    persistence_size: u64,
    enable_ttl: bool,
}

/// The abstract state of a store.
pub struct FunKVView {
    /// The records by key.
    pub records: Map<Seq<u8>, Record>,
    pub stats: Statistics,
    /// Writes handed to the write buffer, oldest first: operation, record and
    /// old value length.
    pub pending: Seq<(Operation, Record, usize)>,
    pub has_write_buffer: bool,
    pub cache: Option<CacheView>,
    pub free_space: FreeSpaceView,
    pub persistency: bool,
    pub enable_caching: bool,
    pub max_memory: Option<usize>,
    pub enable_ttl: bool,
    pub persistence_size: u64,
}


impl View for FunKV {
    type V = FunKVView;

    closed spec fn view(&self) -> FunKVView {
        FunKVView {
            records: index_contents(self.hash_table),
            stats: self.stats,
            pending: self.pending_writes@.map_values(|e: WriteEntry| entry_view(e)),
            has_write_buffer: self.has_write_buffer,
            cache: match self.cache {
                Some(c) => Some(c@),
                None => None,
            },
            free_space: self.free_space@,
            persistency: self.persistency,
            enable_caching: self.enable_caching,
            max_memory: self.max_memory,
            enable_ttl: self.enable_ttl,
            persistence_size: self.persistence_size,
        }
    }
}

/// A key is accepted when it has between 1 and `MAX_KEY_SIZE` bytes.
pub open spec fn key_valid(key: Seq<u8>) -> bool {
    0 < key.len() <= MAX_KEY_SIZE
}

/// A value is accepted when it has between 1 and `MAX_VALUE_SIZE` bytes.
pub open spec fn value_valid(value: Seq<u8>) -> bool {
    0 < value.len() <= MAX_VALUE_SIZE
}

/// Whether a new record of `size` bytes fits under the memory limit.
pub open spec fn fits_memory(max_memory: Option<usize>, usage: usize, size: int) -> bool {
    match max_memory {
        Some(limit) => usage + size <= limit,
        None => true,
    }
}

/// The expiry a write with time-to-live `ttl` gives its record: none unless the
/// store keeps expiry times and `ttl` is non-zero.
pub open spec fn expiry_of(enable_ttl: bool, ttl: u64) -> u64 {
    if ttl > 0 && enable_ttl {
        ttl
    } else {
        0
    }
}

/// A record is fresh when it holds its value in memory, has not been written,
/// has one reference and no cache bookkeeping.
pub open spec fn fresh_record(
    r: Record,
    key: Seq<u8>,
    value: Seq<u8>,
    timestamp: u64,
    ttl_expiry: u64,
) -> bool {
    &&& r.key@ == key
    &&& r.value == Some(r.value.unwrap())
    &&& r.value.unwrap()@ == value
    &&& r.ttl_expiry == ttl_expiry
    &&& r.timestamp == timestamp
    &&& r.value_len == value.len()
    &&& r.sector == 0
    &&& r.refcount == 1
    &&& r.key_len == key.len() as u16
    &&& r.cache_ref_bit == 0
    &&& r.cache_access_time == 0
}

/// A stored record sits under its own key, which is valid, its value length
/// leaves room for its memory charge, and a value held in memory has that length.
pub open spec fn record_ok(k: Seq<u8>, r: Record) -> bool {
    &&& r.key@ == k
    &&& key_valid(k)
    &&& r.value_len <= charge_limit()
    &&& r.value is Some ==> r.value.unwrap()@.len() == r.value_len
}

impl FunKV {
    /// Every stored record is well formed.
    pub proof fn lemma_records_ok(&self)
        requires
            self.wf(),
        ensures
            forall|k: Seq<u8>| #[trigger]
                self@.records.contains_key(k) ==> record_ok(k, self@.records[k]),
    {
    }

    /// The two indexes hold the same records, each under its own key; the cache
    /// and the free-space map are well formed.
    pub closed spec fn wf(&self) -> bool {
        &&& tree_contents(self.tree) == index_contents(self.hash_table)
        &&& forall|k: Seq<u8>| #[trigger]
            index_contents(self.hash_table).contains_key(k) ==> record_ok(
                k,
                index_contents(self.hash_table)[k],
            )
        &&& match self.cache {
            Some(c) => c.wf(),
            None => true,
        }
        &&& self.free_space.wf()
    }

    /// A store set up by `config`: empty, with a cache when caching is on.
    pub fn build_with_config(config: DbConfig) -> (r: Result<Self, DbError>)
        requires
            config.hash_bit < 64,
        ensures
            r is Ok,
            r.unwrap().wf(),
            r.unwrap()@.records == Map::<Seq<u8>, Record>::empty(),
            r.unwrap()@.stats == Statistics::zeroed(),
            r.unwrap()@.pending == Seq::<(Operation, Record, usize)>::empty(),
            !r.unwrap()@.has_write_buffer,
            r.unwrap()@.persistency == config.persistency,
            r.unwrap()@.enable_caching == config.enable_caching,
            r.unwrap()@.cache is Some <==> config.enable_caching,
            config.enable_caching ==> r.unwrap()@.cache.unwrap().entries == Map::<
                Seq<u8>,
                Seq<u8>,
            >::empty(),
            r.unwrap()@.max_memory == config.max_memory,
            r.unwrap()@.enable_ttl == config.enable_ttl,
            r.unwrap()@.free_space == empty_free_space(),
            r.unwrap()@.persistence_size == 0,
            initial_metadata(r.unwrap().metadata_spec()),
            config.enable_caching ==> r.unwrap()@.cache == Some(empty_cache()),
    {
        let capacity: usize = if config.hash_bit < usize::BITS {
            1usize << config.hash_bit
        } else {
            0
        };
        let hash_table = index_new(capacity);

        let free_space = FreeSpaceManager::new();

        let metadata = Metadata::new();

        let stats = Statistics::new();

        let cache = if config.enable_caching {
            Some(Cache::new())
        } else {
            None
        };

        let store = Self {
            hash_table,
            tree: tree_new(),
            stats,
            pending_writes: Vec::new(),
            has_write_buffer: false,
            free_space,
            metadata,
            persistency: config.persistency,
            enable_caching: config.enable_caching,
            max_memory: config.max_memory,
            cache,
            persistence_size: 0,
            enable_ttl: config.enable_ttl,
        };
        proof {
            assert(store@.pending =~= Seq::<(Operation, Record, usize)>::empty());
        }
        Ok(store)
    }

    /// A store with the default settings; caching is on when a backing file is named.
    pub fn new(file_path: Option<String>) -> (r: Result<Self, DbError>)
        ensures
            r is Ok,
            r.unwrap().wf(),
            r.unwrap()@.records == Map::<Seq<u8>, Record>::empty(),
            r.unwrap()@.stats == Statistics::zeroed(),
            r.unwrap()@.pending == Seq::<(Operation, Record, usize)>::empty(),
            !r.unwrap()@.has_write_buffer,
            r.unwrap()@.persistency == file_path.is_some(),
            r.unwrap()@.enable_caching == file_path.is_some(),
            r.unwrap()@.cache is Some <==> file_path.is_some(),
            r.unwrap()@.max_memory == Some(DEFAULT_MAX_MEMORY as usize),
            !r.unwrap()@.enable_ttl,
            r.unwrap()@.free_space == empty_free_space(),
            r.unwrap()@.persistence_size == 0,
            initial_metadata(r.unwrap().metadata_spec()),
            file_path.is_some() ==> r.unwrap()@.cache == Some(empty_cache()),
    {
        let persistency = file_path.is_some();
        let config = DbConfig {
            hash_bit: DEFAULT_HASH_BITS,
            persistency,
            enable_caching: persistency,
            enable_ttl: false,
            max_memory: Some(DEFAULT_MAX_MEMORY as usize),
            file_path,
            file_size: None,
        };

        Self::build_with_config(config)
    }
}


/// The free space of a store before any file is opened: no runs, nothing
/// free, no file size, no fragmentation.
pub open spec fn empty_free_space() -> FreeSpaceView {
    FreeSpaceView {
        extents: Map::<u64, u64>::empty(),
        total_free: 0,
        persistence_size: 0,
        fragmentation_percent: 0,
    }
}

/// A fresh cache: empty, with the default watermarks.
pub open spec fn empty_cache() -> CacheView {
    CacheView {
        entries: Map::<Seq<u8>, Seq<u8>>::empty(),
        memory_usage: 0,
        high_watermark: (CACHE_HIGH_WATERMARK_MB * MB) as usize,
        low_watermark: (CACHE_LOW_WATERMARK_MB * MB) as usize,
        evictions: 0,
        entry_count: 0,
    }
}

/// A memory counter after a charge of `old_size` bytes is replaced by one of
/// `new_size` bytes, wrapping around.
pub open spec fn charge_moved(usage: usize, new_size: usize, old_size: usize) -> usize {
    if new_size > old_size {
        vstd::wrapping::usize_specs::wrapping_add(usage, (new_size - old_size) as usize)
    } else {
        vstd::wrapping::usize_specs::wrapping_sub(usage, (old_size - new_size) as usize)
    }
}

/// The largest value length for which a record's memory charge is computed
/// without overflow.
pub open spec fn charge_limit() -> int {
    usize::MAX - isize::MAX - crate::kv::record::RECORD_OVERHEAD
}

/// The statistics after a new record of `size` bytes is stored; the latency
/// figure is the clock's and is left to the caller.
pub open spec fn stats_after_new_record(
    s: Statistics,
    size: int,
    with_ttl: bool,
    latency: u64,
) -> Statistics {
    Statistics {
        record_count: vstd::wrapping::u32_specs::wrapping_add(s.record_count, 1),
        memory_usage: vstd::wrapping::usize_specs::wrapping_add(s.memory_usage, size as usize),
        total_inserts: wadd64(s.total_inserts, 1),
        insert_latency_ns: latency,
        keys_with_ttl: if with_ttl {
            wadd64(s.keys_with_ttl, 1)
        } else {
            s.keys_with_ttl
        },
        ..s
    }
}

/// What storing a record under a new key does to the store: the record is
/// added, counted and, with a write buffer, queued for the disk.
pub open spec fn new_record_effect(
    o: FunKVView,
    f: FunKVView,
    key: Seq<u8>,
    value: Seq<u8>,
    ts: u64,
    ttl: u64,
) -> bool {
    let size = record_size_spec(key.len() as int, value.len() as int);
    &&& f.records.contains_key(key)
    &&& fresh_record(f.records[key], key, value, ts, expiry_of(o.enable_ttl, ttl))
    &&& f.records == o.records.insert(key, f.records[key])
    &&& f.stats == stats_after_new_record(
        o.stats,
        size,
        ttl > 0 && o.enable_ttl,
        f.stats.insert_latency_ns,
    )
    &&& f.pending == if o.persistency && o.has_write_buffer {
        o.pending.push((Operation::Insert, f.records[key], 0usize))
    } else {
        o.pending
    }
    &&& f.cache == o.cache
    &&& f.free_space == o.free_space
    &&& f.has_write_buffer == o.has_write_buffer
    &&& f.persistency == o.persistency
    &&& f.enable_caching == o.enable_caching
    &&& f.max_memory == o.max_memory
    &&& f.enable_ttl == o.enable_ttl
    &&& f.persistence_size == o.persistence_size
}

/// What replacing the record under `key` does: a fresh record takes its place,
/// the memory charge moves from the old record's (charged by the space held for
/// its key, at least the key's length) to the new one's, and on a
/// store with a backing file the key leaves the cache and an update of the new
/// record and a delete of the old one are queued.
pub open spec fn update_effect(
    o: FunKVView,
    f: FunKVView,
    key: Seq<u8>,
    value: Seq<u8>,
    ts: u64,
    ttl: u64,
) -> bool {
    let old_rec = o.records[key];
    let new_size = record_size_spec(key.len() as int, value.len() as int);
    &&& f.records.contains_key(key)
    &&& fresh_record(f.records[key], key, value, ts, expiry_of(o.enable_ttl, ttl))
    &&& f.records == o.records.insert(key, f.records[key])
    &&& f.stats == (Statistics { memory_usage: f.stats.memory_usage, ..o.stats })
    &&& exists|cap: int|
        key.len() <= cap <= isize::MAX && f.stats.memory_usage == #[trigger] charge_moved(
            o.stats.memory_usage,
            new_size as usize,
            record_size_spec(cap, old_rec.value_len as int) as usize,
        )
    &&& f.pending == if o.persistency && o.has_write_buffer {
        o.pending.push((Operation::Update, f.records[key], old_rec.value_len)).push(
            (Operation::Delete, old_rec, old_rec.value_len),
        )
    } else {
        o.pending
    }
    &&& f.cache == if o.persistency && o.enable_caching && o.cache is Some {
        Some(cache_after_remove(o.cache.unwrap(), key))
    } else {
        o.cache
    }
    &&& f.free_space == o.free_space
    &&& f.has_write_buffer == o.has_write_buffer
    &&& f.persistency == o.persistency
    &&& f.enable_caching == o.enable_caching
    &&& f.max_memory == o.max_memory
    &&& f.enable_ttl == o.enable_ttl
    &&& f.persistence_size == o.persistence_size
}

/// What a write of `value` under `key` at time `ts` with time-to-live `ttl`
/// returns and does.
pub open spec fn insert_effect(
    o: FunKVView,
    f: FunKVView,
    key: Seq<u8>,
    value: Seq<u8>,
    ts: u64,
    ttl: u64,
    r: Result<bool, DbError>,
) -> bool {
    if !key_valid(key) {
        r == Err::<bool, DbError>(DbError::InvalidKeySize) && f == o
    } else if !value_valid(value) {
        r == Err::<bool, DbError>(DbError::InvalidValueSize) && f == o
    } else if o.records.contains_key(key) {
        if ts < o.records[key].timestamp {
            r == Err::<bool, DbError>(DbError::OlderTimestamp) && f == o
        } else {
            r == Ok::<bool, DbError>(false) && update_effect(o, f, key, value, ts, ttl)
        }
    } else if !fits_memory(
        o.max_memory,
        o.stats.memory_usage,
        record_size_spec(key.len() as int, value.len() as int),
    ) {
        r == Err::<bool, DbError>(DbError::OutOfMemory) && f == o
    } else {
        r == Ok::<bool, DbError>(true) && new_record_effect(o, f, key, value, ts, ttl)
    }
}

impl FunKV {
    /// Rejects keys that are empty or longer than `MAX_KEY_SIZE`.
    pub(crate) fn validate_key(&self, key: &[u8]) -> (r: Result<(), DbError>)
        ensures
            r == if key_valid(key@) {
                Ok::<(), DbError>(())
            } else {
                Err(DbError::InvalidKeySize)
            },
    {
        if key.len() == 0 || key.len() > MAX_KEY_SIZE {
            return Err(DbError::InvalidKeySize);
        }
        Ok(())
    }

    /// Rejects bad keys, then values that are empty or longer than `MAX_VALUE_SIZE`.
    pub(crate) fn validate_key_value(&self, key: &[u8], value: &[u8]) -> (r: Result<(), DbError>)
        ensures
            r == if !key_valid(key@) {
                Err(DbError::InvalidKeySize)
            } else if !value_valid(value@) {
                Err(DbError::InvalidValueSize)
            } else {
                Ok::<(), DbError>(())
            },
    {
        match self.validate_key(key) {
            Ok(()) => {},
            Err(e) => {
                return Err(e);
            },
        }

        if value.len() == 0 || value.len() > MAX_VALUE_SIZE {
            return Err(DbError::InvalidValueSize);
        }

        Ok(())
    }

    /// Whether `size` more bytes stay within the memory limit.
    pub(crate) fn check_memory_limit(&self, size: usize) -> (r: bool)
        ensures
            r == fits_memory(self@.max_memory, self@.stats.memory_usage, size as int),
    {
        match self.max_memory {
            Some(limit) => {
                let current = self.stats.memory_usage;
                // the sum is compared without forming it, so it cannot overflow
                size <= limit && current <= limit - size
            },
            None => true,
        }
    }

    /// The write-time stamp: nanoseconds since the epoch by the system clock.
    pub(crate) fn get_timestamp(&self) -> u64 {
        wall_clock_nanos()
    }

    proof fn lemma_clone_key(a: Vec<u8>, b: Vec<u8>)
        requires
            b.len() == a.len(),
            forall|i| #![all_triggers] 0 <= i < a.len() ==> cloned::<u8>(a[i], b[i]),
        ensures
            b@ == a@,
    {
        assert(b@ =~= a@);
    }

    fn clone_key(key: &Vec<u8>) -> (r: Vec<u8>)
        ensures
            r@ == key@,
    {
        let r = key.clone();
        proof {
            Self::lemma_clone_key(*key, r);
        }
        r
    }

    /// Stores `value` under `key` at time `timestamp`; a write older than the
    /// stored record is refused, an existing key is replaced, a new key must fit
    /// under the memory limit. Returns whether the key was new.
    fn insert_at(&mut self, key: &[u8], value: &[u8], timestamp: u64, ttl: u64) -> (r: Result<
        bool,
        DbError,
    >)
        requires
            old(self).wf(),
        ensures
            final(self).wf(),
            final(self).metadata_spec() == old(self).metadata_spec(),
            insert_effect(old(self)@, final(self)@, key@, value@, timestamp, ttl, r),
    {
        let start = instant_now();
        match self.validate_key_value(key, value) {
            Ok(()) => {},
            Err(e) => {
                return Err(e);
            },
        }

        let is_update = index_contains(&self.hash_table, key);
        let existing_record = index_read(&self.hash_table, key);

        if let Some(existing_record) = existing_record {
            let existing_ts = existing_record.timestamp;

            if timestamp < existing_ts {
                return Err(DbError::OlderTimestamp);
            }

            return self.update_record_with_ttl(&existing_record, value, timestamp, ttl);
        }

        let record_size = calculate_record_size(key.len(), value.len());
        if !self.check_memory_limit(record_size) {
            return Err(DbError::OutOfMemory);
        }

        let with_ttl = ttl > 0 && self.enable_ttl;
        let record = if with_ttl {
            self.stats.keys_with_ttl = self.stats.keys_with_ttl.wrapping_add(1);
            Arc::new(
                Record::new_with_ttl(
                    vstd::slice::slice_to_vec(key),
                    vstd::slice::slice_to_vec(value),
                    timestamp,
                    ttl,
                ),
            )
        } else {
            Arc::new(
                Record::new(
                    vstd::slice::slice_to_vec(key),
                    vstd::slice::slice_to_vec(value),
                    timestamp,
                ),
            )
        };

        let key_vec = Self::clone_key(&record.key);

        index_upsert(&mut self.hash_table, Self::clone_key(&key_vec), arc_clone(&record));

        tree_insert(&mut self.tree, key_vec, arc_clone(&record));

        self.stats.record_count = self.stats.record_count.wrapping_add(1);
        self.stats.memory_usage = self.stats.memory_usage.wrapping_add(record_size);
        let latency = elapsed_nanos(&start);
        self.stats.record_insert(latency, is_update);

        if self.persistency {
            if self.has_write_buffer {
                let ghost before = self.pending_writes@;
                self.pending_writes.push(WriteEntry::new(Operation::Insert, record, 0));
                proof {
                    assert(self@.pending =~= before.map_values(|e: WriteEntry| entry_view(e)).push(
                        (Operation::Insert, index_contents(self.hash_table)[key@], 0usize),
                    ));
                }
            }
        }

        Ok(!is_update)
    }

    /// Replaces the record `old_record` with a fresh one holding `value`.
    fn update_record_with_ttl(
        &mut self,
        old_record: &Record,
        value: &[u8],
        timestamp: u64,
        ttl: u64,
    ) -> (r: Result<bool, DbError>)
        requires
            old(self).wf(),
            old(self)@.records.contains_key(old_record.key@),
            *old_record == old(self)@.records[old_record.key@],
            value_valid(value@),
            key_valid(old_record.key@),
            old_record.value_len <= charge_limit(),
        ensures
            final(self).wf(),
            final(self).metadata_spec() == old(self).metadata_spec(),
            r == Ok::<bool, DbError>(false),
            update_effect(old(self)@, final(self)@, old_record.key@, value@, timestamp, ttl),
    {
        let new_record = if ttl > 0 && self.enable_ttl {
            Arc::new(
                Record::new_with_ttl(
                    Self::clone_key(&old_record.key),
                    vstd::slice::slice_to_vec(value),
                    timestamp,
                    ttl,
                ),
            )
        } else {
            Arc::new(
                Record::new(
                    Self::clone_key(&old_record.key),
                    vstd::slice::slice_to_vec(value),
                    timestamp,
                ),
            )
        };

        let old_value_len = old_record.value_len;
        let old_size = old_record.calculate_size();
        let ghost cap = choose|c: int|
            old_record.key.len() <= c <= isize::MAX && old_size == #[trigger] record_size_spec(
                c,
                old_record.value_len as int,
            );
        let new_size = calculate_record_size(old_record.key.len(), value.len());

        let old_record_arc = match index_read(&self.hash_table, old_record.key.as_slice()) {
            Some(entry) => entry,
            None => {
                return Err(DbError::KeyNotFound);
            },
        };

        let key_vec = Self::clone_key(&new_record.key);

        index_upsert(&mut self.hash_table, Self::clone_key(&key_vec), arc_clone(&new_record));
        tree_insert(&mut self.tree, Self::clone_key(&key_vec), arc_clone(&new_record));

        if new_size > old_size {
            self.stats.memory_usage = self.stats.memory_usage.wrapping_add(new_size - old_size);
        } else {
            self.stats.memory_usage = self.stats.memory_usage.wrapping_sub(old_size - new_size);
        }
        proof {
            assert(self.stats.memory_usage == charge_moved(
                old(self).stats.memory_usage,
                new_size,
                old_size,
            ));
        }

        if self.persistency {
            if self.enable_caching {
                let mut taken: Option<Cache> = None;
                std::mem::swap(&mut taken, &mut self.cache);
                if let Some(mut cache) = taken {
                    cache.remove(key_vec.as_slice());
                    self.cache = Some(cache);
                }
            }

            if self.has_write_buffer {
                let ghost before = self.pending_writes@;
                self.pending_writes.push(WriteEntry::new(Operation::Update, new_record, old_value_len));
                self.pending_writes.push(WriteEntry::new(Operation::Delete, old_record_arc, old_value_len));
                proof {
                    assert(self@.pending =~= before.map_values(|e: WriteEntry| entry_view(e)).push(
                        (Operation::Update, index_contents(self.hash_table)[old_record.key@], old_value_len),
                    ).push((Operation::Delete, *old_record, old_value_len)));
                }
            }
        }
        proof {
            let o = old(self)@;
            let key = old_record.key@;
            let new_sz = record_size_spec(key.len() as int, value@.len() as int);
            assert(self@.stats.memory_usage == charge_moved(o.stats.memory_usage, new_sz as usize, old_size));
            assert(old_size == record_size_spec(cap, old_record.value_len as int) as usize);
            assert(self@.stats.memory_usage == charge_moved(
                o.stats.memory_usage,
                new_sz as usize,
                record_size_spec(cap, o.records[key].value_len as int) as usize,
            ));
        }

        Ok(false)
    }
}


/// The statistics after a read served from memory (`hit`) or from disk; the
/// latency figure is the clock's.
pub open spec fn stats_after_get(s: Statistics, hit: bool, latency: u64) -> Statistics {
    Statistics {
        total_gets: wadd64(s.total_gets, 1),
        get_latency_ns: latency,
        cache_hits: if hit {
            wadd64(s.cache_hits, 1)
        } else {
            s.cache_hits
        },
        cache_misses: if hit {
            s.cache_misses
        } else {
            wadd64(s.cache_misses, 1)
        },
        ..s
    }
}

/// The cache after a read of `value` under `key` offers the value to it.
pub open spec fn cache_after_read(o: FunKVView, f: FunKVView, key: Seq<u8>, value: Seq<u8>) -> bool {
    if o.enable_caching && o.cache is Some {
        f.cache is Some && cache_insert_effect(o.cache.unwrap(), f.cache.unwrap(), key, value)
    } else {
        f.cache == o.cache
    }
}

/// Everything but the statistics and the cache is as it was.
pub open spec fn same_but_stats_cache(o: FunKVView, f: FunKVView) -> bool {
    &&& f.records == o.records
    &&& f.pending == o.pending
    &&& f.has_write_buffer == o.has_write_buffer
    &&& f.free_space == o.free_space
    &&& f.persistency == o.persistency
    &&& f.enable_caching == o.enable_caching
    &&& f.max_memory == o.max_memory
    &&& f.enable_ttl == o.enable_ttl
    &&& f.persistence_size == o.persistence_size
}

/// A read of `key` that went on to the record, found it live and returned
/// `value`, served from memory when `hit`.
pub open spec fn read_effect(
    o: FunKVView,
    f: FunKVView,
    key: Seq<u8>,
    value: Seq<u8>,
    hit: bool,
) -> bool {
    &&& same_but_stats_cache(o, f)
    &&& f.stats == stats_after_get(o.stats, hit, f.stats.get_latency_ns)
    &&& cache_after_read(o, f, key, value)
}

/// A read result of the sectors of the backing file: the bytes, or the
/// reader's error.
pub type SectorRead = Result<Seq<u8>, DbError>;

/// The value a record with `key_len` key bytes and `value_len` value bytes takes
/// out of the read `read` of its sectors: the reader's error, `InvalidRecord`
/// when the bytes are too short, else the value bytes.
pub open spec fn disk_value(key_len: int, value_len: int, read: SectorRead) -> SectorRead {
    match read {
        Err(e) => Err(e),
        Ok(d) => match stored_value(key_len, value_len, d) {
            Some(v) => Ok(v),
            None => Err(DbError::InvalidRecord),
        },
    }
}

/// `r` is the outcome `s`, its bytes taken by their view.
pub open spec fn same_outcome(r: Result<Vec<u8>, DbError>, s: SectorRead) -> bool {
    match (r, s) {
        (Ok(v), Ok(w)) => v@ == w,
        (Err(e1), Err(e2)) => e1 == e2,
        _ => false,
    }
}

/// What a read of `key` returns and does with the clock reading `now` and, when
/// the value is read from disk, the read `read` (first sector, number of
/// sectors, what the reader gave). The cache answers first; then the record,
/// unless the store keeps expiry times and the record's lies before `now`; then
/// its value, from memory or, on a store with a backing file, out of the
/// record's sectors, which are the ones read.
pub open spec fn get_effect_at(
    o: FunKVView,
    f: FunKVView,
    key: Seq<u8>,
    now: u64,
    read: (u64, u64, SectorRead),
    r: Result<Vec<u8>, DbError>,
) -> bool {
    if !key_valid(key) {
        r == Err::<Vec<u8>, DbError>(DbError::InvalidKeySize) && f == o
    } else if o.enable_caching && o.cache is Some && o.cache.unwrap().entries.contains_key(key) {
        &&& r is Ok
        &&& r.unwrap()@ == o.cache.unwrap().entries[key]
        &&& same_but_stats_cache(o, f)
        &&& f.cache == o.cache
        &&& f.stats == stats_after_get(o.stats, true, f.stats.get_latency_ns)
    } else if !o.records.contains_key(key) {
        r == Err::<Vec<u8>, DbError>(DbError::KeyNotFound) && f == o
    } else {
        let rec = o.records[key];
        if o.enable_ttl && rec.ttl_expiry > 0 && now > rec.ttl_expiry {
            r == Err::<Vec<u8>, DbError>(DbError::KeyNotFound) && f == (FunKVView {
                stats: Statistics { ttl_expired_lazy: wadd64(o.stats.ttl_expired_lazy, 1), ..o.stats },
                ..o
            })
        } else if rec.value is Some {
            r is Ok && r.unwrap()@ == rec.value.unwrap()@ && read_effect(
                o,
                f,
                key,
                rec.value.unwrap()@,
                true,
            )
        } else if !o.persistency || rec.sector == 0 {
            r == Err::<Vec<u8>, DbError>(DbError::InvalidRecord) && f == o
        } else {
            &&& read.0 == rec.sector
            &&& read.1 == record_sectors(key.len() as int, rec.value_len as int)
            &&& match disk_value(key.len() as int, rec.value_len as int, read.2) {
                Ok(v) => r is Ok && r.unwrap()@ == v && read_effect(o, f, key, v, false),
                Err(e) => r == Err::<Vec<u8>, DbError>(e) && f == o,
            }
        }
    }
}

/// What a read of `key` returns and does, for some clock reading and some
/// result of the disk read (see `get_effect_at`).
pub open spec fn get_effect(o: FunKVView, f: FunKVView, key: Seq<u8>, r: Result<Vec<u8>, DbError>) -> bool {
    exists|now: u64, read: (u64, u64, SectorRead)| #[trigger] get_effect_at(o, f, key, now, read, r)
}


impl FunKV {
    /// Writes with the given time stamp, or the clock's when it is `None` or 0,
    /// and time-to-live `ttl`.
    pub(crate) fn insert_with_timestamp_and_ttl_internal(
        &mut self,
        key: &[u8],
        value: &[u8],
        timestamp: Option<u64>,
        ttl: u64,
    ) -> (r: Result<bool, DbError>)
        requires
            old(self).wf(),
        ensures
            final(self).wf(),
            final(self).metadata_spec() == old(self).metadata_spec(),
            match timestamp {
                Some(t) => t != 0 ==> insert_effect(old(self)@, final(self)@, key@, value@, t, ttl, r),
                None => true,
            },
            exists|t: u64| #[trigger] insert_effect(old(self)@, final(self)@, key@, value@, t, ttl, r),
    {
        let timestamp = match timestamp {
            Some(ts) => {
                if ts == 0 {
                    self.get_timestamp()
                } else {
                    ts
                }
            },
            None => self.get_timestamp(),
        };
        self.insert_at(key, value, timestamp, ttl)
    }

    /// Writes `value` under `key` stamped with `timestamp`, or with the clock
    /// when it is `None` or 0. Returns whether the key was new.
    pub fn insert_with_timestamp(&mut self, key: &[u8], value: &[u8], timestamp: Option<u64>) -> (r:
        Result<bool, DbError>)
        requires
            old(self).wf(),
        ensures
            final(self).wf(),
            final(self).metadata_spec() == old(self).metadata_spec(),
            match timestamp {
                Some(t) => t != 0 ==> insert_effect(old(self)@, final(self)@, key@, value@, t, 0, r),
                None => true,
            },
            exists|t: u64| #[trigger] insert_effect(old(self)@, final(self)@, key@, value@, t, 0, r),
    {
        self.insert_with_timestamp_and_ttl_internal(key, value, timestamp, 0)
    }

    /// Writes `value` under `key` stamped with the clock. Returns whether the key was new.
    pub fn insert(&mut self, key: &[u8], value: &[u8]) -> (r: Result<bool, DbError>)
        requires
            old(self).wf(),
        ensures
            final(self).wf(),
            final(self).metadata_spec() == old(self).metadata_spec(),
            exists|t: u64| #[trigger] insert_effect(old(self)@, final(self)@, key@, value@, t, 0, r),
    {
        self.insert_with_timestamp(key, value, None)
    }

    /// Reads the value of `key` without a backing file to read from: a value that
    /// lives only on disk is refused with the error of a store without a device.
    pub fn get(&mut self, key: &[u8]) -> (r: Result<Vec<u8>, DbError>)
        requires
            old(self).wf(),
        ensures
            final(self).wf(),
            final(self).metadata_spec() == old(self).metadata_spec(),
            exists|now: u64, read: (u64, u64, SectorRead)|
                read.2 == Err::<Seq<u8>, DbError>(DbError::NoDevice) && #[trigger] get_effect_at(
                    old(self)@,
                    final(self)@,
                    key@,
                    now,
                    read,
                    r,
                ),
    {
        let now = wall_clock_nanos();
        self.get_core::<NoDevice>(key, None, now)
    }

    /// Reads the value of `key`, taking values that live only on disk from the
    /// sectors `reader` returns, with the clock read for the expiry check.
    pub fn get_with_reader<R: SectorReader>(&mut self, key: &[u8], reader: &R) -> (r: Result<
        Vec<u8>,
        DbError,
    >)
        requires
            old(self).wf(),
        ensures
            final(self).wf(),
            final(self).metadata_spec() == old(self).metadata_spec(),
            get_effect(old(self)@, final(self)@, key@, r),
    {
        let now = wall_clock_nanos();
        self.get_with_reader_at(key, reader, now)
    }

    /// Reads the value of `key` with the clock reading `now`, taking values that
    /// live only on disk from the sectors `reader` returns: the outcome is
    /// `get_effect_at` for what the reader gave.
    pub fn get_with_reader_at<R: SectorReader>(&mut self, key: &[u8], reader: &R, now: u64) -> (r:
        Result<Vec<u8>, DbError>)
        requires
            old(self).wf(),
        ensures
            final(self).wf(),
            final(self).metadata_spec() == old(self).metadata_spec(),
            exists|read: (u64, u64, SectorRead)|
                #[trigger] get_effect_at(old(self)@, final(self)@, key@, now, read, r),
    {
        self.get_core(key, Some(reader), now)
    }

    /// A read of `key` with the clock reading `now`, from `reader` when there is
    /// one; without one, the disk read fails with `NoDevice`.
    fn get_core<R: SectorReader>(&mut self, key: &[u8], reader: Option<&R>, now: u64) -> (r: Result<
        Vec<u8>,
        DbError,
    >)
        requires
            old(self).wf(),
        ensures
            final(self).wf(),
            final(self).metadata_spec() == old(self).metadata_spec(),
            exists|read: (u64, u64, SectorRead)|
                #[trigger] get_effect_at(old(self)@, final(self)@, key@, now, read, r) && (
                reader is None ==> read.2 == Err::<Seq<u8>, DbError>(DbError::NoDevice)),
    {
        let ghost o = self@;
        let ghost none: (u64, u64, SectorRead) = (0u64, 0u64, Err(DbError::NoDevice));
        let start = instant_now();
        match self.validate_key(key) {
            Ok(()) => {},
            Err(e) => {
                assert(get_effect_at(o, self@, key@, now, none, Err(e)));
                return Err(e);
            },
        }

        if self.enable_caching {
            let mut taken: Option<Cache> = None;
            std::mem::swap(&mut taken, &mut self.cache);
            match taken {
                Some(mut cache) => {
                    let hit = cache.get(key);
                    self.cache = Some(cache);
                    if let Some(value) = hit {
                        let latency = elapsed_nanos(&start);
                        self.stats.record_get(latency, true);
                        let r = Ok(bytes_to_vec(&value));
                        assert(get_effect_at(o, self@, key@, now, none, r));
                        return r;
                    }
                },
                None => {
                    self.cache = None;
                },
            }
        }

        let record = match index_read(&self.hash_table, key) {
            Some(rec) => rec,
            None => {
                assert(get_effect_at(o, self@, key@, now, none, Err(DbError::KeyNotFound)));
                return Err(DbError::KeyNotFound);
            },
        };

        if self.enable_ttl {
            let ttl = record.ttl_expiry;

            if ttl > 0 {
                if now > ttl {
                    self.stats.ttl_expired_lazy = self.stats.ttl_expired_lazy.wrapping_add(1);
                    assert(get_effect_at(o, self@, key@, now, none, Err(DbError::KeyNotFound)));
                    return Err(DbError::KeyNotFound);
                }
            }
        }

        let ghost mut rd = none;
        let (value, cache_hit) = match record.get_value() {
            Some(val) => (val, true),
            None => {
                if !self.persistency || record.sector == 0 {
                    assert(get_effect_at(o, self@, key@, now, none, Err(DbError::InvalidRecord)));
                    return Err(DbError::InvalidRecord);
                }
                let (loaded, Ghost(got)) = self.load_value_from_disk(&record, reader);
                proof {
                    rd = got;
                }
                match loaded {
                    Ok(val) => (val, false),
                    Err(e) => {
                        assert(get_effect_at(o, self@, key@, now, rd, Err(e)));
                        return Err(e);
                    },
                }
            },
        };
        if self.enable_caching {
            let mut taken: Option<Cache> = None;
            std::mem::swap(&mut taken, &mut self.cache);
            match taken {
                Some(mut cache) => {
                    proof {
                        cache.lemma_watermark_bound();
                    }
                    cache.insert(vstd::slice::slice_to_vec(key), bytes_from_vec(Self::clone_key(&value)));
                    self.cache = Some(cache);
                },
                None => {
                    self.cache = None;
                },
            }
        }

        let latency = elapsed_nanos(&start);
        self.stats.record_get(latency, cache_hit);

        assert(get_effect_at(o, self@, key@, now, rd, Ok(value)));
        Ok(value)
    }

    /// Reads the value of `record` from the sectors that hold it: the sectors of
    /// the record from its first one are read, and the value is taken out of
    /// what the reader gave. The read made is returned alongside.
    fn load_value_from_disk<R: SectorReader>(&self, record: &Record, reader: Option<&R>) -> (r: (
        Result<Vec<u8>, DbError>,
        Ghost<(u64, u64, SectorRead)>,
    ))
        requires
            record.key.len() <= MAX_KEY_SIZE,
            record.value_len <= charge_limit(),
            self@.persistency,
            record.sector != 0,
        ensures
            r.1@.0 == record.sector,
            r.1@.1 == record_sectors(record.key@.len() as int, record.value_len as int),
            same_outcome(r.0, disk_value(record.key@.len() as int, record.value_len as int, r.1@.2)),
            reader is None ==> r.1@.2 == Err::<Seq<u8>, DbError>(DbError::NoDevice),
    {
        let sector = record.sector;

        let format = DefaultFormat;

        let total_size = format.total_size(record.key.len(), record.value_len);
        let sectors_needed = total_size / BLOCK_SIZE + if total_size % BLOCK_SIZE != 0 {
            1usize
        } else {
            0usize
        };
        proof {
            assert(sectors_needed == blocks_for(total_size as int));
        }

        let read = match reader {
            Some(rd) => rd.read_sectors(sector, sectors_needed as u64),
            None => Err(DbError::NoDevice),
        };
        match read {
            Ok(data) => {
                let v = value_in_sectors(record.key.len(), record.value_len, data.as_slice());
                (v, Ghost((sector, sectors_needed as u64, Ok(data@))))
            },
            Err(e) => {
                (Err(e), Ghost((sector, sectors_needed as u64, Err(e))))
            },
        }
    }
}


/// The statistics with the cache's own counters filled in.
pub open spec fn stats_with_cache(v: FunKVView) -> Statistics {
    match v.cache {
        Some(c) => Statistics {
            cache_memory: c.memory_usage as usize,
            cache_evictions: c.evictions,
            ..v.stats
        },
        None => v.stats,
    }
}

impl FunKV {
    /// Whether a record is stored under `key`.
    pub fn contains_key(&self, key: &[u8]) -> (r: bool)
        ensures
            r == self@.records.contains_key(key@),
    {
        index_contains(&self.hash_table, key)
    }

    /// The number of records stored, as counted.
    pub fn len(&self) -> (r: usize)
        ensures
            r == self@.stats.record_count,
    {
        self.stats.record_count as usize
    }

    /// Whether no record is counted.
    pub fn is_empty(&self) -> (r: bool)
        ensures
            r == (self@.stats.record_count == 0),
    {
        self.len() == 0
    }

    /// The memory charged for the stored records.
    pub fn memory_usage(&self) -> (r: usize)
        ensures
            r == self@.stats.memory_usage,
    {
        self.stats.memory_usage
    }

    /// A summary of the statistics, with the cache's counters.
    pub fn stats(&self) -> (r: StatsSnapshot)
        requires
            self.wf(),
            self@.stats.total_gets + self@.stats.total_inserts + self@.stats.total_updates
                + self@.stats.total_deletes <= u64::MAX,
        ensures
            r == snapshot_of(stats_with_cache(self@)),
    {
        let mut s = self.stats.clone_counters();
        match &self.cache {
            Some(c) => {
                let cs = c.stats();
                s.cache_memory = cs.memory_usage;
                s.cache_evictions = c.evictions();
            },
            None => {},
        }
        s.snapshot()
    }

    /// Lets writes be queued for a write buffer from now on.
    pub fn attach_write_buffer(&mut self)
        ensures
            final(self)@ == (FunKVView { has_write_buffer: true, ..old(self)@ }),
            final(self).wf() == old(self).wf(),
    {
        self.has_write_buffer = true;
    }

    /// Hands over the queued writes, oldest first, and empties the queue.
    pub fn take_pending_writes(&mut self) -> (r: Vec<WriteEntry>)
        ensures
            r@.map_values(|e: WriteEntry| entry_view(e)) == old(self)@.pending,
            final(self)@ == (FunKVView { pending: Seq::empty(), ..old(self)@ }),
            final(self).wf() == old(self).wf(),
    {
        let mut taken: Vec<WriteEntry> = Vec::new();
        std::mem::swap(&mut taken, &mut self.pending_writes);
        proof {
            assert(self@.pending =~= Seq::<(Operation, Record, usize)>::empty());
        }
        taken
    }

    /// Brings the metadata block up to date for a store with a backing file and
    /// returns it for writing: record count, bytes on disk, fragmentation, and the
    /// update time. A store without a backing file has nothing to flush.
    pub fn flush_all(&mut self) -> (r: Option<Metadata>)
        requires
            old(self).wf(),
        ensures
            final(self).wf(),
            final(self)@ == old(self)@,
            old(self)@.persistency <==> r is Some,
            r matches Some(m) ==> {
                &&& m == flushed_metadata(old(self).metadata_spec(), old(self)@, m.last_update_time)
                &&& final(self).metadata_spec() == m
            },
            r is None ==> final(self).metadata_spec() == old(self).metadata_spec(),
    {
        if self.persistency {
            self.metadata.total_records = self.stats.record_count as u64;
            self.metadata.total_size = self.stats.disk_usage;
            self.metadata.fragmentation = self.free_space.get_fragmentation_percent();
            self.metadata.update();
            Some(self.metadata)
        } else {
            None
        }
    }

    /// Whether the operation counters can be summed in 64 bits, as `stats` asks.
    pub fn can_summarize(&self) -> (r: bool)
        ensures
            r == (self@.stats.total_gets + self@.stats.total_inserts + self@.stats.total_updates
                + self@.stats.total_deletes <= u64::MAX),
    {
        self.stats.total_gets as u128 + self.stats.total_inserts as u128
            + self.stats.total_updates as u128 + self.stats.total_deletes as u128
            <= u64::MAX as u128
    }

    /// The same as `flush_all`.
    pub fn flush(&mut self) -> (r: Option<Metadata>)
        requires
            old(self).wf(),
        ensures
            final(self).wf(),
            final(self)@ == old(self)@,
            old(self)@.persistency <==> r is Some,
            r matches Some(m) ==> {
                &&& m == flushed_metadata(old(self).metadata_spec(), old(self)@, m.last_update_time)
                &&& final(self).metadata_spec() == m
            },
            r is None ==> final(self).metadata_spec() == old(self).metadata_spec(),
    {
        self.flush_all()
    }

    /// The metadata block held in memory.
    pub fn metadata(&self) -> (r: Metadata)
        ensures
            r == self.metadata_spec(),
    {
        self.metadata
    }

    pub closed spec fn metadata_spec(&self) -> Metadata {
        self.metadata
    }
}

/// The metadata block `m` of the store `s` brought up to date at time `t`: the
/// record count, the bytes on disk and the fragmentation figure of the store, the
/// update time `t`, and every other field as it was.
pub open spec fn flushed_metadata(m: Metadata, s: FunKVView, t: u64) -> Metadata {
    Metadata {
        total_records: s.stats.record_count as u64,
        total_size: s.stats.disk_usage,
        fragmentation: s.free_space.fragmentation_percent,
        last_update_time: t,
        ..m
    }
}

/// The writes of one flush of the write buffer: the sectors to write, the
/// sectors to stamp as deleted, and the records whose value reaches the disk.
pub struct WriteBatch {
    /// First sector and bytes of each record to write.
    pub writes: Vec<(u64, Vec<u8>)>,
    /// First sector of each deleted record.
    pub delete_markers: Vec<u64>,
    /// First sector of each record written, with the record.
    pub records_to_clear: Vec<(u64, Arc<Record>)>,
}

/// A queued write that puts its record on disk: an insert or update of a live
/// record that has no sector yet.
pub open spec fn needs_write(e: (Operation, Record, usize)) -> bool {
    (e.0 == Operation::Insert || e.0 == Operation::Update) && e.1.refcount > 0 && e.1.sector == 0
}

/// A queued delete of a record that has a sector.
pub open spec fn needs_delete(e: (Operation, Record, usize)) -> bool {
    e.0 == Operation::Delete && e.1.sector != 0
}

/// The sectors a deleted record is taken to occupy: sector header, key length,
/// key, value length, timestamp and value, rounded up to whole blocks.
pub open spec fn deleted_sectors(key_len: int, value_len: int) -> int {
    crate::kv::record::blocks_for(4 + 2 + key_len + 8 + 8 + value_len)
}

/// What a batch may ask of its writes: keys of valid length and value lengths
/// that leave room for sizes and charges.
pub open spec fn batch_entry_ok(e: (Operation, Record, usize)) -> bool {
    &&& e.1.key@.len() <= MAX_KEY_SIZE
    &&& e.1.value_len <= charge_limit()
    &&& e.2 <= charge_limit()
}

/// The bytes of `n` whole blocks, wrapping around.
pub open spec fn block_bytes(n: u64) -> u64 {
    vstd::wrapping::u64_specs::wrapping_mul(n, BLOCK_SIZE as u64)
}

/// `r` with `s` put in front of the sectors it lists.
pub open spec fn prepend_sectors(s: Seq<u64>, r: Result<Seq<u64>, DbError>) -> Result<Seq<u64>, DbError> {
    match r {
        Ok(t) => Ok(s + t),
        Err(e) => Err(e),
    }
}

/// Taking sectors for the image of each record written `w` in turn from the free
/// space `v`, with the bytes on disk `du` counted up by each: the first sectors
/// taken, or the first failure (`NumericOverflow` where the arithmetic would
/// pass 64 bits), with the free space and the byte count after.
pub open spec fn allocate_writes(v: FreeSpaceView, du: u64, w: Seq<(Operation, Record, usize)>) -> (
    Result<Seq<u64>, DbError>,
    FreeSpaceView,
    u64,
)
    decreases w.len(),
{
    if w.len() == 0 {
        (Ok(Seq::empty()), v, du)
    } else {
        let n = image_blocks(w[0].1) as u64;
        if !allocate_fits(v, n) {
            (Err(DbError::NumericOverflow), v, du)
        } else {
            let (r, v1) = allocate_spec(v, n);
            match r {
                Err(e) => (Err(e), v1, du),
                Ok(s) => {
                    let (r2, v2, du2) = allocate_writes(
                        v1,
                        wadd64(du, block_bytes(n)),
                        w.drop_first(),
                    );
                    (prepend_sectors(seq![s], r2), v2, du2)
                },
            }
        }
    }
}

/// A batch's images never overlap and land on free sectors: when sectors are
/// taken for every record of `w` from separated runs, the image of each record
/// gets a run of as many sectors as it spans, from its first sector on, every
/// such run was free before the batch, no two of them share a sector, and they
/// are exactly what leaves the free space.
pub proof fn lemma_allocated_images_disjoint(v: FreeSpaceView, du: u64, w: Seq<(Operation, Record, usize)>)
    requires
        runs_valid(v),
        runs_apart(v.extents),
        forall|i: int| 0 <= i < w.len() ==> image_blocks((#[trigger] w[i]).1) <= u64::MAX,
        allocate_writes(v, du, w).0 is Ok,
    ensures
        ({
            let (r, f, _du) = allocate_writes(v, du, w);
            let ss = r->Ok_0;
            &&& ss.len() == w.len()
            &&& forall|i: int|
                0 <= i < w.len() ==> sector_range(
                    ss[i] as int,
                    image_blocks((#[trigger] w[i]).1),
                ) <= free_set(v.extents)
            &&& forall|i: int, j: int|
                0 <= i < j < w.len() ==> sector_range(
                    ss[i] as int,
                    image_blocks((#[trigger] w[i]).1),
                ).disjoint(sector_range(ss[j] as int, image_blocks((#[trigger] w[j]).1)))
            &&& forall|x: int|
                free_set(v.extents).contains(x) ==> (free_set(f.extents).contains(x) <==> !exists|
                    i: int,
                | 0 <= i < w.len() && #[trigger] sector_range(
                    ss[i] as int,
                    image_blocks(w[i].1),
                ).contains(x))
            &&& free_set(f.extents) <= free_set(v.extents)
            &&& runs_valid(f)
            &&& runs_apart(f.extents)
        }),
    decreases w.len(),
{
    if w.len() > 0 {
        let n = image_blocks(w[0].1) as u64;
        let (r1, v1) = allocate_spec(v, n);
        lemma_allocate_takes(v, n);
        let s0 = r1->Ok_0;
        let du1 = wadd64(du, block_bytes(n));
        let rest = w.drop_first();
        assert forall|i: int| 0 <= i < rest.len() implies image_blocks((#[trigger] rest[i]).1) <= u64::MAX by {
            assert(rest[i] == w[i + 1]);
        }
        lemma_allocated_images_disjoint(v1, du1, rest);
        let (r2, f, _d) = allocate_writes(v1, du1, rest);
        let t = r2->Ok_0;
        let ss = seq![s0] + t;
        assert(allocate_writes(v, du, w).0 == Ok::<Seq<u64>, DbError>(ss));
        assert forall|i: int| 0 <= i < w.len() implies sector_range(
            ss[i] as int,
            image_blocks((#[trigger] w[i]).1),
        ) <= free_set(v.extents) by {
            if i > 0 {
                assert(ss[i] == t[i - 1]);
                assert(w[i] == rest[i - 1]);
                assert(sector_range(t[i - 1] as int, image_blocks(rest[i - 1].1)) <= free_set(v1.extents));
            }
        }
        assert forall|i: int, j: int|
            0 <= i < j < w.len() implies sector_range(
            ss[i] as int,
            image_blocks((#[trigger] w[i]).1),
        ).disjoint(sector_range(ss[j] as int, image_blocks((#[trigger] w[j]).1))) by {
            assert(ss[j] == t[j - 1]);
            assert(w[j] == rest[j - 1]);
            assert(sector_range(t[j - 1] as int, image_blocks(rest[j - 1].1)) <= free_set(v1.extents));
            if i > 0 {
                assert(ss[i] == t[i - 1]);
                assert(w[i] == rest[i - 1]);
                assert(sector_range(t[i - 1] as int, image_blocks(rest[i - 1].1)).disjoint(
                    sector_range(t[j - 1] as int, image_blocks(rest[j - 1].1)),
                ));
            } else {
                assert(ss[0] == s0);
                assert forall|x: int| !(sector_range(ss[0] as int, image_blocks(w[0].1)).contains(x)
                    && sector_range(ss[j] as int, image_blocks(w[j].1)).contains(x)) by {
                    if sector_range(ss[j] as int, image_blocks(w[j].1)).contains(x) {
                        assert(free_set(v1.extents).contains(x));
                    }
                }
            }
        }
        assert forall|x: int|
            free_set(v.extents).contains(x) implies (free_set(f.extents).contains(x) <==> !exists|
                i: int,
            | 0 <= i < w.len() && #[trigger] sector_range(ss[i] as int, image_blocks(w[i].1)).contains(
                x,
            )) by {
            if sector_range(ss[0] as int, image_blocks(w[0].1)).contains(x) {
                assert(!free_set(v1.extents).contains(x));
                assert(!free_set(f.extents).contains(x));
            } else {
                assert(free_set(v1.extents).contains(x));
                if exists|i: int| 0 <= i < w.len() && #[trigger] sector_range(ss[i] as int, image_blocks(w[i].1)).contains(x) {
                    let i = choose|i: int| 0 <= i < w.len() && #[trigger] sector_range(ss[i] as int, image_blocks(w[i].1)).contains(x);
                    assert(i > 0);
                    assert(ss[i] == t[i - 1]);
                    assert(w[i] == rest[i - 1]);
                    assert(sector_range(t[i - 1] as int, image_blocks(rest[i - 1].1)).contains(x));
                } else {
                    assert forall|i: int| 0 <= i < rest.len() implies !#[trigger] sector_range(t[i] as int, image_blocks(rest[i].1)).contains(x) by {
                        assert(ss[i + 1] == t[i]);
                        assert(w[i + 1] == rest[i]);
                    }
                }
            }
        }
    } else {
        assert(free_set(v.extents) =~= free_set(v.extents));
    }
}

/// Giving back the sectors of each deleted record `d` in turn, releases that
/// fail or would carry the arithmetic past 64 bits being skipped, with the bytes
/// on disk `du` counted down by each: the free space and the byte count after.
pub open spec fn release_deletes(v: FreeSpaceView, du: u64, d: Seq<(Operation, Record, usize)>) -> (
    FreeSpaceView,
    u64,
)
    decreases d.len(),
{
    if d.len() == 0 {
        (v, du)
    } else {
        let s = d[0].1.sector;
        let n = deleted_sectors(d[0].1.key@.len() as int, d[0].2 as int) as u64;
        let v1 = if release_fits(v, s, n) {
            release_spec(v, s, n).1
        } else {
            v
        };
        release_deletes(
            v1,
            vstd::wrapping::u64_specs::wrapping_sub(du, block_bytes(n)),
            d.drop_first(),
        )
    }
}

/// The first sectors of `writes`.
pub open spec fn write_starts(writes: Seq<(u64, Vec<u8>)>) -> Seq<u64> {
    writes.map_values(|p: (u64, Vec<u8>)| p.0)
}

impl FunKV {
    /// Counts one flush of the write buffer.
    pub fn record_flush(&mut self)
        requires
            old(self).wf(),
        ensures
            final(self).wf(),
            final(self).metadata_spec() == old(self).metadata_spec(),
            final(self)@ == (FunKVView {
                stats: Statistics {
                    flush_count: wadd64(old(self)@.stats.flush_count, 1),
                    ..old(self)@.stats
                },
                ..old(self)@
            }),
    {
        self.stats.flush_count = self.stats.flush_count.wrapping_add(1);
    }

    /// Counts one write placed in the write buffer.
    pub fn record_write_buffered(&mut self)
        requires
            old(self).wf(),
        ensures
            final(self).wf(),
            final(self).metadata_spec() == old(self).metadata_spec(),
            final(self)@ == (FunKVView {
                stats: Statistics {
                    writes_buffered: wadd64(old(self)@.stats.writes_buffered, 1),
                    ..old(self)@.stats
                },
                ..old(self)@
            }),
    {
        self.stats.record_write_buffered();
    }

    /// Prepares the flush of `entries`: every insert or update of a live record
    /// without a sector gets its image and sectors taken from the free space (see
    /// `allocate_writes`), stopping at the first allocation that fails; then every
    /// delete of a record with a sector gives back the sectors it is taken to
    /// occupy (see `release_deletes`). The bytes on disk are counted along.
    #[verifier::spinoff_prover]
    #[verifier::rlimit(40)]
    pub fn begin_write_batch(&mut self, entries: Vec<WriteEntry>) -> (r: Result<WriteBatch, DbError>)
        requires
            old(self).wf(),
            forall|i: int|
                0 <= i < entries@.len() ==> batch_entry_ok(entry_view(#[trigger] entries@[i])),
        ensures
            final(self).wf(),
            final(self).metadata_spec() == old(self).metadata_spec(),
            final(self)@ == (FunKVView {
                free_space: final(self)@.free_space,
                stats: Statistics {
                    disk_usage: final(self)@.stats.disk_usage,
                    ..old(self)@.stats
                },
                ..old(self)@
            }),
            ({
                let ev = entries@.map_values(|e: WriteEntry| entry_view(e));
                let w = ev.filter(|e: (Operation, Record, usize)| needs_write(e));
                let d = ev.filter(|e: (Operation, Record, usize)| needs_delete(e));
                let a = allocate_writes(old(self)@.free_space, old(self)@.stats.disk_usage, w);
                &&& r is Ok <==> a.0 is Ok
                &&& a.0 is Err ==> {
                    &&& r == Err::<WriteBatch, DbError>(a.0->Err_0)
                    &&& final(self)@.free_space == a.1
                    &&& final(self)@.stats.disk_usage == a.2
                }
                &&& r matches Ok(b) ==> {
                    &&& write_starts(b.writes@) == a.0->Ok_0
                    &&& (final(self)@.free_space, final(self)@.stats.disk_usage) == release_deletes(
                        a.1,
                        a.2,
                        d,
                    )
                    &&& b.writes@.len() == w.len()
                    &&& b.records_to_clear@.len() == w.len()
                    &&& forall|j: int|
                        0 <= j < w.len() ==> {
                            &&& (#[trigger] b.writes@[j]).1@ == disk_image(w[j].1)
                            &&& b.records_to_clear@[j].0 == b.writes@[j].0
                            &&& *b.records_to_clear@[j].1 == w[j].1
                        }
                    &&& b.delete_markers@ == d.map_values(|e: (Operation, Record, usize)| e.1.sector)
                }
            }),
    {
        let ghost stats1 = self.stats;
        let format = get_format(self.metadata.version);
        let mut writes: Vec<(u64, Vec<u8>)> = Vec::new();
        let mut records_to_clear: Vec<(u64, Arc<Record>)> = Vec::new();
        let mut delete_operations: Vec<(u64, usize, usize)> = Vec::new();
        let ghost ev = entries@.map_values(|e: WriteEntry| entry_view(e));
        let ghost w_all = ev.filter(|e: (Operation, Record, usize)| needs_write(e));
        let ghost a = allocate_writes(old(self)@.free_space, old(self)@.stats.disk_usage, w_all);
        proof {
            assert(ev.subrange(0, ev.len() as int) =~= ev);
            assert(write_starts(writes@) =~= Seq::<u64>::empty());
            assert(prepend_sectors(Seq::<u64>::empty(), a.0) == a.0);
        }

        let mut i: usize = 0;
        while i < entries.len()
            invariant
                self.wf(),
                self.metadata_spec() == old(self).metadata_spec(),
                self@ == (FunKVView {
                    free_space: self@.free_space,
                    stats: Statistics { disk_usage: self@.stats.disk_usage, ..stats1 },
                    ..old(self)@
                }),
                stats1 == (Statistics {
                    ..old(self)@.stats
                }),
                ev == entries@.map_values(|e: WriteEntry| entry_view(e)),
                w_all == ev.filter(|e: (Operation, Record, usize)| needs_write(e)),
                a == allocate_writes(old(self)@.free_space, old(self)@.stats.disk_usage, w_all),
                forall|k: int| 0 <= k < entries@.len() ==> batch_entry_ok(entry_view(#[trigger] entries@[k])),
                i <= entries@.len(),
                ({
                    let rest = ev.subrange(i as int, ev.len() as int).filter(
                        |e: (Operation, Record, usize)| needs_write(e),
                    );
                    let t = allocate_writes(self@.free_space, self@.stats.disk_usage, rest);
                    a == (prepend_sectors(write_starts(writes@), t.0), t.1, t.2)
                }),
                ({
                    let w = ev.subrange(0, i as int).filter(|e: (Operation, Record, usize)| needs_write(e));
                    &&& writes@.len() == w.len()
                    &&& records_to_clear@.len() == w.len()
                    &&& forall|j: int|
                        0 <= j < w.len() ==> {
                            &&& (#[trigger] writes@[j]).1@ == disk_image(w[j].1)
                            &&& records_to_clear@[j].0 == writes@[j].0
                            &&& *records_to_clear@[j].1 == w[j].1
                        }
                }),
                ({
                    let d = ev.subrange(0, i as int).filter(|e: (Operation, Record, usize)| needs_delete(e));
                    &&& delete_operations@.len() == d.len()
                    &&& forall|j: int|
                        0 <= j < d.len() ==> {
                            &&& (#[trigger] delete_operations@[j]).0 == d[j].1.sector
                            &&& delete_operations@[j].1 == d[j].1.key@.len()
                            &&& delete_operations@[j].2 == d[j].2
                        }
                }),
                forall|k: int|
                    0 <= k < delete_operations@.len() ==> (#[trigger] delete_operations@[k]).1
                        <= MAX_KEY_SIZE && delete_operations@[k].2 <= charge_limit(),
            decreases entries@.len() - i,
        {
            let entry = &entries[i];
            let ghost writes0 = writes@;
            let ghost fs0 = self@.free_space;
            let ghost du0 = self@.stats.disk_usage;
            let ghost rest = ev.subrange(i as int, ev.len() as int).filter(
                |e: (Operation, Record, usize)| needs_write(e),
            );
            let ghost rest1 = ev.subrange(i as int + 1, ev.len() as int).filter(
                |e: (Operation, Record, usize)| needs_write(e),
            );
            proof {
                assert(ev.subrange(0, i as int + 1) =~= ev.subrange(0, i as int).push(ev[i as int]));
                ev.subrange(0, i as int).lemma_filter_push(ev[i as int], |e: (Operation, Record, usize)| needs_write(e));
                ev.subrange(0, i as int).lemma_filter_push(ev[i as int], |e: (Operation, Record, usize)| needs_delete(e));
                assert(ev.subrange(i as int, ev.len() as int) =~= seq![ev[i as int]] + ev.subrange(
                    i as int + 1,
                    ev.len() as int,
                ));
                ev.subrange(i as int + 1, ev.len() as int).lemma_filter_prepend(
                    ev[i as int],
                    |e: (Operation, Record, usize)| needs_write(e),
                );
                assert(batch_entry_ok(entry_view(entries@[i as int])));
            }
            match entry.operation {
                Operation::Insert | Operation::Update => {
                    if entry.record.refcount > 0 && entry.record.sector == 0 {
                        let data = match perpare_record_data(&entry.record, &format) {
                            Ok(d) => d,
                            Err(e) => {
                                return Err(e);
                            },
                        };
                        let sectors_needed = data.len() / BLOCK_SIZE + if data.len() % BLOCK_SIZE
                            != 0 {
                            1usize
                        } else {
                            0usize
                        };
                        proof {
                            let n = image_blocks(ev[i as int].1);
                            assert(sectors_needed == n) by (nonlinear_arith)
                                requires
                                    data.len() == n * BLOCK_SIZE,
                                    n >= 0,
                                    sectors_needed == data.len() / BLOCK_SIZE + if data.len()
                                        % BLOCK_SIZE != 0 {
                                        1int
                                    } else {
                                        0int
                                    },
                            ;
                            assert(rest == seq![ev[i as int]] + rest1);
                            assert(rest[0] == ev[i as int]);
                            assert(rest.drop_first() =~= rest1);
                        }
                        if !self.free_space.allocation_fits(sectors_needed as u64) {
                            return Err(DbError::NumericOverflow);
                        }
                        let sector = match self.free_space.allocate_sectors(sectors_needed as u64) {
                            Ok(s) => s,
                            Err(e) => {
                                return Err(e);
                            },
                        };

                        self.stats.disk_usage = self.stats.disk_usage.wrapping_add(
                            (sectors_needed as u64).wrapping_mul(BLOCK_SIZE as u64),
                        );

                        let rec = arc_clone(&entry.record);
                        proof {
                            assert(*rec == ev[i as int].1);
                        }
                        writes.push((sector, data));
                        records_to_clear.push((sector, rec));
                        proof {
                            assert(write_starts(writes@) =~= write_starts(writes0) + seq![sector]);
                            let t = allocate_writes(self@.free_space, self@.stats.disk_usage, rest1);
                            assert(prepend_sectors(write_starts(writes0), prepend_sectors(seq![sector], t.0))
                                == prepend_sectors(write_starts(writes@), t.0)) by {
                                assert(write_starts(writes0) + (seq![sector] + t.0->Ok_0)
                                    =~= write_starts(writes@) + t.0->Ok_0);
                            }
                        }
                    }
                },
                Operation::Delete => {
                    let sector = entry.record.sector;
                    if sector != 0 {
                        delete_operations.push((sector, entry.record.key.len(), entry.old_value_len));
                    }
                },
                _ => {},
            }
            proof {
                // the records written before this step are where they were
                let w = ev.subrange(0, i as int + 1).filter(|e: (Operation, Record, usize)| needs_write(e));
                let w0 = ev.subrange(0, i as int).filter(|e: (Operation, Record, usize)| needs_write(e));
                assert(writes@.len() == w.len());
                assert(records_to_clear@.len() == w.len());
                assert forall|j: int| 0 <= j < w.len() implies {
                    &&& (#[trigger] writes@[j]).1@ == disk_image(w[j].1)
                    &&& records_to_clear@[j].0 == writes@[j].0
                    &&& *records_to_clear@[j].1 == w[j].1
                } by {
                    if j < w0.len() {
                        assert(writes0[j] == writes0[j]);
                        assert(w[j] == w0[j]);
                    }
                }
            }
            i = i + 1;
        }
        proof {
            assert(ev.subrange(0, entries@.len() as int) =~= ev);
            assert(ev.subrange(entries@.len() as int, ev.len() as int).filter(
                |e: (Operation, Record, usize)| needs_write(e),
            ) =~= Seq::<(Operation, Record, usize)>::empty());
            assert(write_starts(writes@) + Seq::<u64>::empty() =~= write_starts(writes@));
        }

        let ghost d_all = ev.filter(|e: (Operation, Record, usize)| needs_delete(e));
        let ghost fa = self@.free_space;
        let ghost dua = self@.stats.disk_usage;
        proof {
            assert(d_all.subrange(0, d_all.len() as int) =~= d_all);
        }
        let mut delete_markers: Vec<u64> = Vec::new();
        let mut j: usize = 0;
        while j < delete_operations.len()
            invariant
                self.wf(),
                self.metadata_spec() == old(self).metadata_spec(),
                self@ == (FunKVView {
                    free_space: self@.free_space,
                    stats: Statistics { disk_usage: self@.stats.disk_usage, ..stats1 },
                    ..old(self)@
                }),
                j <= delete_operations@.len(),
                delete_operations@.len() == d_all.len(),
                forall|k: int|
                    0 <= k < d_all.len() ==> {
                        &&& (#[trigger] delete_operations@[k]).0 == d_all[k].1.sector
                        &&& delete_operations@[k].1 == d_all[k].1.key@.len()
                        &&& delete_operations@[k].2 == d_all[k].2
                    },
                release_deletes(fa, dua, d_all) == release_deletes(
                    self@.free_space,
                    self@.stats.disk_usage,
                    d_all.subrange(j as int, d_all.len() as int),
                ),
                delete_markers@.len() == j,
                forall|k: int| 0 <= k < j ==> #[trigger] delete_markers@[k] == delete_operations@[k].0,
                forall|k: int|
                    0 <= k < delete_operations@.len() ==> (#[trigger] delete_operations@[k]).1
                        <= MAX_KEY_SIZE && delete_operations@[k].2 <= charge_limit(),
            decreases delete_operations@.len() - j,
        {
            let (sector, key_len, value_len) = delete_operations[j];
            delete_markers.push(sector);
            let ghost rest = d_all.subrange(j as int, d_all.len() as int);
            proof {
                assert(rest.drop_first() =~= d_all.subrange(j as int + 1, d_all.len() as int));
                assert(rest[0] == d_all[j as int]);
                assert(delete_operations@[j as int].0 == d_all[j as int].1.sector);
            }

            let total_size = 4 + 2 + key_len + 8 + 8 + value_len;
            let sectors_needed = total_size / BLOCK_SIZE + if total_size % BLOCK_SIZE != 0 {
                1usize
            } else {
                0usize
            };
            proof {
                assert(sectors_needed <= total_size);
                assert(sectors_needed == crate::kv::record::blocks_for(total_size as int));
            }

            if self.free_space.release_fits_check(sector, sectors_needed as u64) {
                let _ = self.free_space.release_sectors(sector, sectors_needed as u64);
            }

            self.stats.disk_usage = self.stats.disk_usage.wrapping_sub(
                (sectors_needed as u64).wrapping_mul(BLOCK_SIZE as u64),
            );
            j = j + 1;
        }
        proof {
            assert(delete_markers@ =~= d_all.map_values(|e: (Operation, Record, usize)| e.1.sector));
            assert(d_all.subrange(d_all.len() as int, d_all.len() as int) =~= Seq::<(Operation, Record, usize)>::empty());
        }

        Ok(WriteBatch { writes, delete_markers, records_to_clear })
    }
}

/// Two records hold the same content: key, value, times, value length and sector.
pub open spec fn same_content(a: Record, b: Record) -> bool {
    &&& a.key@ == b.key@
    &&& a.value.is_some() == b.value.is_some()
    &&& a.value.is_some() ==> a.value.unwrap()@ == b.value.unwrap()@
    &&& a.timestamp == b.timestamp
    &&& a.ttl_expiry == b.ttl_expiry
    &&& a.value_len == b.value_len
    &&& a.sector == b.sector
}

/// `new` is `old` once its image is on disk from `sector`: the same key,
/// times, length and bookkeeping, that sector, and no value in memory.
pub open spec fn written_form(old: Record, new: Record, sector: u64) -> bool {
    &&& new.key@ == old.key@
    &&& new.value is None
    &&& new.sector == sector
    &&& new.ttl_expiry == old.ttl_expiry
    &&& new.timestamp == old.timestamp
    &&& new.value_len == old.value_len
    &&& new.refcount == old.refcount
    &&& new.key_len == old.key_len
    &&& new.cache_ref_bit == old.cache_ref_bit
    &&& new.cache_access_time == old.cache_access_time
}

/// The records and queued writes `s2` are `s` once the image of `rec` is on
/// disk from `sector`: the record stored under its key, when it still holds what
/// was written, takes its written form; otherwise the image is stale (the record
/// was replaced or removed meanwhile), and with a write buffer a delete of the
/// image is queued; nothing else changes.
pub open spec fn marked_written(
    s: (Map<Seq<u8>, Record>, Seq<(Operation, Record, usize)>),
    s2: (Map<Seq<u8>, Record>, Seq<(Operation, Record, usize)>),
    buffered: bool,
    sector: u64,
    rec: Record,
) -> bool {
    let (m, p) = s;
    let (m2, p2) = s2;
    let k = rec.key@;
    if m.contains_key(k) && same_content(m[k], rec) {
        p2 == p && exists|n: Record| #[trigger] written_form(m[k], n, sector) && m2 == m.insert(k, n)
    } else {
        &&& m2 == m
        &&& !buffered ==> p2 == p
        &&& buffered ==> exists|n: Record|
            #[trigger] written_form(rec, n, sector) && p2 == p.push(
                (Operation::Delete, n, rec.value_len),
            )
    }
}

/// `states` runs from `m` to `m2`, each step marking the next written record.
pub open spec fn marking_chain(
    m: (Map<Seq<u8>, Record>, Seq<(Operation, Record, usize)>),
    m2: (Map<Seq<u8>, Record>, Seq<(Operation, Record, usize)>),
    buffered: bool,
    w: Seq<(u64, Record)>,
    states: Seq<(Map<Seq<u8>, Record>, Seq<(Operation, Record, usize)>)>,
) -> bool {
    &&& states.len() == w.len() + 1
    &&& states[0] == m
    &&& states.last() == m2
    &&& forall|i: int|
        0 <= i < w.len() ==> marked_written(
            states[i],
            #[trigger] states[i + 1],
            buffered,
            w[i].0,
            w[i].1,
        )
}

/// The records and queued writes `m2` are `m` once each written record in turn
/// is marked.
pub open spec fn all_marked_written(
    m: (Map<Seq<u8>, Record>, Seq<(Operation, Record, usize)>),
    m2: (Map<Seq<u8>, Record>, Seq<(Operation, Record, usize)>),
    buffered: bool,
    w: Seq<(u64, Record)>,
) -> bool {
    exists|states: Seq<(Map<Seq<u8>, Record>, Seq<(Operation, Record, usize)>)>| #[trigger]
        marking_chain(m, m2, buffered, w, states)
}

/// Giving back one sector at each of `sectors` in turn, stopping at the first
/// failure; a release that would carry the arithmetic past 64 bits fails with
/// `NumericOverflow`.
pub open spec fn release_each(v: FreeSpaceView, sectors: Seq<u64>) -> (
    Result<(), DbError>,
    FreeSpaceView,
)
    decreases sectors.len(),
{
    if sectors.len() == 0 {
        (Ok(()), v)
    } else if !release_fits(v, sectors[0], 1) {
        (Err(DbError::NumericOverflow), v)
    } else {
        let (r, v1) = release_spec(v, sectors[0], 1);
        if r is Err {
            (r, v1)
        } else {
            release_each(v1, sectors.drop_first())
        }
    }
}

/// The written records with their first sectors.
pub open spec fn written_view(written: Seq<(u64, Arc<Record>)>) -> Seq<(u64, Record)> {
    written.map_values(|p: (u64, Arc<Record>)| (p.0, *p.1))
}

/// The first sectors of the written records.
pub open spec fn written_sectors(w: Seq<(u64, Record)>) -> Seq<u64> {
    w.map_values(|p: (u64, Record)| p.0)
}

/// Whether two records hold the same content.
fn record_matches(a: &Record, b: &Record) -> (r: bool)
    ensures
        r == same_content(*a, *b),
{
    if !bytes_eq(a.key.as_slice(), b.key.as_slice()) {
        return false;
    }
    let values_match = match (&a.value, &b.value) {
        (Some(x), Some(y)) => bytes_eq(x.as_slice(), y.as_slice()),
        (None, None) => true,
        _ => false,
    };
    values_match && a.timestamp == b.timestamp && a.ttl_expiry == b.ttl_expiry && a.value_len
        == b.value_len && a.sector == b.sector
}

impl FunKV {
    /// With a write buffer, queues a delete of the image of `rec` written to
    /// `sector`.
    fn queue_stale_delete(&mut self, sector: u64, rec: &Record)
        requires
            old(self).wf(),
        ensures
            final(self).wf(),
            final(self).metadata_spec() == old(self).metadata_spec(),
            !old(self)@.has_write_buffer ==> final(self)@ == old(self)@,
            old(self)@.has_write_buffer ==> exists|n: Record|
                #[trigger] written_form(*rec, n, sector) && final(self)@ == (FunKVView {
                    pending: old(self)@.pending.push((Operation::Delete, n, rec.value_len)),
                    ..old(self)@
                }),
    {
        if self.has_write_buffer {
            let stale = Record {
                key: Self::clone_key(&rec.key),
                value: None,
                ttl_expiry: rec.ttl_expiry,
                timestamp: rec.timestamp,
                value_len: rec.value_len,
                sector,
                refcount: rec.refcount,
                key_len: rec.key_len,
                cache_ref_bit: rec.cache_ref_bit,
                cache_access_time: rec.cache_access_time,
            };
            let ghost n = stale;
            let ghost before = self.pending_writes@;
            self.pending_writes.push(WriteEntry::new(Operation::Delete, Arc::new(stale), rec.value_len));
            proof {
                assert(written_form(*rec, n, sector));
                assert(self@.pending =~= before.map_values(|e: WriteEntry| entry_view(e)).push(
                    (Operation::Delete, n, rec.value_len),
                ));
            }
        }
    }

    /// Marks the record stored under `rec`'s key as written to `sector`, if it
    /// still holds what was written; otherwise queues a delete of the stale image.
    fn mark_one_written(&mut self, sector: u64, rec: &Record)
        requires
            old(self).wf(),
        ensures
            final(self).wf(),
            final(self).metadata_spec() == old(self).metadata_spec(),
            marked_written(
                (old(self)@.records, old(self)@.pending),
                (final(self)@.records, final(self)@.pending),
                old(self)@.has_write_buffer,
                sector,
                *rec,
            ),
            final(self)@ == (FunKVView {
                records: final(self)@.records,
                pending: final(self)@.pending,
                ..old(self)@
            }),
    {
        let current = match index_read(&self.hash_table, rec.key.as_slice()) {
            Some(c) => c,
            None => {
                self.queue_stale_delete(sector, rec);
                return ;
            },
        };
        if !record_matches(&current, rec) {
            self.queue_stale_delete(sector, rec);
            return ;
        }
        let updated = Record {
            key: Self::clone_key(&current.key),
            value: None,
            ttl_expiry: current.ttl_expiry,
            timestamp: current.timestamp,
            value_len: current.value_len,
            sector,
            refcount: current.refcount,
            key_len: current.key_len,
            cache_ref_bit: current.cache_ref_bit,
            cache_access_time: current.cache_access_time,
        };
        let updated = Arc::new(updated);
        let key = Self::clone_key(&current.key);
        index_upsert(&mut self.hash_table, Self::clone_key(&key), arc_clone(&updated));
        tree_insert(&mut self.tree, key, updated);
        proof {
            let k = rec.key@;
            let o = index_contents(old(self).hash_table);
            assert(written_form(o[k], *updated, sector));
            assert(index_contents(self.hash_table) =~= o.insert(k, *updated));
        }
    }

    /// Finishes the flush of the records in `written` (first sector and record,
    /// as `begin_write_batch` listed them). When their images reached the disk,
    /// each record still stored as written now names its sector and keeps its
    /// value on disk only, and the image of one replaced or removed meanwhile is
    /// queued for deletion (with a write buffer); otherwise the failure is counted and the first sector of
    /// each is given back to the free space, stopping at the first release that
    /// fails, whose error is returned.
    pub fn finish_write_batch(&mut self, written: Vec<(u64, Arc<Record>)>, succeeded: bool) -> (r:
        Result<(), DbError>)
        requires
            old(self).wf(),
        ensures
            final(self).wf(),
            final(self).metadata_spec() == old(self).metadata_spec(),
            ({
                let w = written_view(written@);
                if succeeded {
                    &&& r is Ok
                    &&& all_marked_written(
                        (old(self)@.records, old(self)@.pending),
                        (final(self)@.records, final(self)@.pending),
                        old(self)@.has_write_buffer,
                        w,
                    )
                    &&& final(self)@ == (FunKVView {
                        records: final(self)@.records,
                        pending: final(self)@.pending,
                        stats: Statistics {
                            writes_flushed: wadd64(old(self)@.stats.writes_flushed, written@.len() as u64),
                            ..old(self)@.stats
                        },
                        ..old(self)@
                    })
                } else {
                    &&& (r, final(self)@.free_space) == release_each(
                        old(self)@.free_space,
                        written_sectors(w),
                    )
                    &&& final(self)@ == (FunKVView {
                        free_space: final(self)@.free_space,
                        stats: Statistics {
                            write_failures: wadd64(old(self)@.stats.write_failures, 1),
                            ..old(self)@.stats
                        },
                        ..old(self)@
                    })
                }
            }),
    {
        let ghost w = written_view(written@);
        if succeeded {
            let ghost mut states = seq![(self@.records, self@.pending)];
            let ghost buffered = self@.has_write_buffer;
            proof {
                assert(w.take(0) =~= Seq::<(u64, Record)>::empty());
            }
            let mut i: usize = 0;
            while i < written.len()
                invariant
                    self.wf(),
                    self.metadata_spec() == old(self).metadata_spec(),
                    i <= written@.len(),
                    w == written_view(written@),
                    buffered == old(self)@.has_write_buffer,
                    marking_chain(
                        (old(self)@.records, old(self)@.pending),
                        (self@.records, self@.pending),
                        buffered,
                        w.take(i as int),
                        states,
                    ),
                    self@ == (FunKVView { records: self@.records, pending: self@.pending, ..old(self)@ }),
                decreases written@.len() - i,
            {
                let (sector, rec) = &written[i];
                let ghost before = self@.records;
                self.mark_one_written(*sector, rec);
                proof {
                    let t = w.take(i as int + 1);
                    assert(t.drop_last() =~= w.take(i as int));
                    assert(t.last() == (*sector, **rec));
                    states = states.push((self@.records, self@.pending));
                    assert forall|j: int| 0 <= j < t.len() implies marked_written(
                        states[j],
                        #[trigger] states[j + 1],
                        buffered,
                        t[j].0,
                        t[j].1,
                    ) by {
                        if j < t.len() - 1 {
                            assert(t[j] == w.take(i as int)[j]);
                        }
                    }
                }
                i = i + 1;
            }
            proof {
                assert(w.take(w.len() as int) =~= w);
                assert(marking_chain(
                    (old(self)@.records, old(self)@.pending),
                    (self@.records, self@.pending),
                    buffered,
                    w,
                    states,
                ));
            }
            self.stats.record_write_flushed(written.len() as u64);
            Ok(())
        } else {
            self.stats.record_write_failed();
            let ghost sectors = written_sectors(w);
            let ghost stats1 = self.stats;
            proof {
                assert(sectors.subrange(0, sectors.len() as int) =~= sectors);
            }
            let mut i: usize = 0;
            while i < written.len()
                invariant
                    self.wf(),
                    self.metadata_spec() == old(self).metadata_spec(),
                    i <= written@.len(),
                    sectors.len() == written@.len(),
                    forall|k: int| 0 <= k < written@.len() ==> #[trigger] sectors[k] == written@[k].0,
                    release_each(old(self)@.free_space, sectors) == release_each(
                        self@.free_space,
                        sectors.subrange(i as int, sectors.len() as int),
                    ),
                    self@ == (FunKVView { free_space: self@.free_space, stats: stats1, ..old(self)@ }),
                    stats1 == (Statistics {
                        write_failures: wadd64(old(self)@.stats.write_failures, 1),
                        ..old(self)@.stats
                    }),
                    sectors == written_sectors(written_view(written@)),
                    !succeeded,
                decreases written@.len() - i,
            {
                let sector = written[i].0;
                let ghost rest = sectors.subrange(i as int, sectors.len() as int);
                let ghost fs = self@.free_space;
                proof {
                    assert(rest.drop_first() =~= sectors.subrange(i as int + 1, sectors.len() as int));
                    assert(rest[0] == sector);
                    assert(rest.len() > 0);
                }
                if !self.free_space.release_fits_check(sector, 1) {
                    proof {
                        assert(release_each(fs, rest) == (Err::<(), DbError>(DbError::NumericOverflow), fs));
                    }
                    return Err(DbError::NumericOverflow);
                }
                match self.free_space.release_sectors(sector, 1) {
                    Ok(()) => {},
                    Err(e) => {
                        proof {
                            assert(release_each(fs, rest) == (Err::<(), DbError>(e), self@.free_space));
                        }
                        return Err(e);
                    },
                }
                i = i + 1;
            }
            proof {
                assert(sectors.subrange(sectors.len() as int, sectors.len() as int) =~= Seq::<u64>::empty());
            }
            Ok(())
        }
    }
}

} // verus!
