use std::sync::Arc;

use vstd::prelude::*;

use crate::constants::{
    BLOCK_SIZE, BLOCK_SIZE_U64, DATA_START_BLOCK, DELETED_MARKER, MAX_KEY_SIZE, SECTOR_HEADER_SIZE,
    SECTOR_MARKER,
};
use crate::error::DbError;
use crate::kv::record::{blocks_for, calculate_record_size, record_size_spec, Record, RECORD_OVERHEAD};
use crate::kv::store::{
    arc_clone, charge_limit, index_upsert, tree_insert, wall_clock_nanos, FunKV, FunKVView,
    SectorReader,
};
use crate::stats::{wadd64, Statistics};
use crate::storage::blocks::deleted_marker_seq;
use crate::storage::write_buffer::sector_header_seq;
use crate::storage::format::{get_format, header_size_spec, parse_spec, DefaultFormat, RecordFormat};
use crate::storage::free_space_manager::{
    covers, free_set, lemma_release_coalesces, range_clear, release_fits, release_spec, runs_apart,
    runs_valid, sector_range, FreeSpaceView,
};
use crate::utils::bytes_eq::bytes_eq;

verus! {

/// The record that a sector read during recovery starts, if any: a sector that
/// holds at least a sector header, does not start with the deleted marker,
/// starts with the sector header (marker, sequence number 0), and parses to a key of valid
/// length. A value length too large for any machine to hold marks the sector as
/// corrupt.
pub open spec fn sector_record(d: Seq<u8>) -> Option<(Seq<u8>, usize, u64, u64)> {
    if d.len() < SECTOR_HEADER_SIZE {
        None
    } else if d.len() >= 8 && d.take(8) == deleted_marker_seq() {
        None
    } else if d.take(SECTOR_HEADER_SIZE as int) != sector_header_seq() {
        None
    } else {
        match parse_spec(d) {
            Some((k, vl, ts, ttl)) => if 0 < k.len() <= MAX_KEY_SIZE && vl <= charge_limit() {
                Some((k, vl, ts, ttl))
            } else {
                None
            },
            None => None,
        }
    }
}

/// The sectors a record with `key_len` key bytes and `value_len` value bytes
/// takes on disk.
pub open spec fn record_sectors(key_len: int, value_len: int) -> int {
    blocks_for(header_size_spec(key_len) + value_len)
}

/// `r` is the record recovery builds for a sector at `sector`: its value stays on
/// disk.
pub open spec fn loaded_record(
    r: Record,
    key: Seq<u8>,
    value_len: usize,
    timestamp: u64,
    ttl: u64,
    sector: u64,
) -> bool {
    &&& r.key@ == key
    &&& r.value is None
    &&& r.ttl_expiry == ttl
    &&& r.timestamp == timestamp
    &&& r.value_len == value_len
    &&& r.sector == sector
    &&& r.refcount == 1
    &&& r.key_len == key.len() as u16
    &&& r.cache_ref_bit == 0
    &&& r.cache_access_time == 0
}

/// The statistics after a record found on disk is loaded.
pub open spec fn stats_after_load(s: Statistics, key_len: int, value_len: int, sectors: int) -> Statistics {
    Statistics {
        record_count: vstd::wrapping::u32_specs::wrapping_add(s.record_count, 1),
        memory_usage: vstd::wrapping::usize_specs::wrapping_add(
            s.memory_usage,
            record_size_spec(key_len, value_len) as usize,
        ),
        disk_usage: wadd64(s.disk_usage, (sectors * BLOCK_SIZE) as u64),
        ..s
    }
}

/// Reads the record that the sector `data` starts, if any.
pub fn classify_sector(data: &[u8]) -> (r: Option<(Vec<u8>, usize, u64, u64)>)
    ensures
        match r {
            Some((k, vl, ts, ttl)) => sector_record(data@) == Some((k@, vl, ts, ttl)),
            None => sector_record(data@) is None,
        },
{
    if data.len() < SECTOR_HEADER_SIZE {
        return None;
    }
    if data.len() >= 8 {
        let marker = DELETED_MARKER;
        proof {
            assert(marker@ == deleted_marker_seq());
        }
        if bytes_eq(&data[0..8], marker.as_slice()) {
            proof {
                assert(data@.take(8) =~= data@.subrange(0, 8));
            }
            return None;
        }
        proof {
            assert(data@.take(8) =~= data@.subrange(0, 8));
        }
    }
    let marker_low = (SECTOR_MARKER & 0xff) as u8;
    let marker_high = (SECTOR_MARKER >> 8) as u8;
    if data[0] != marker_low || data[1] != marker_high || data[2] != 0 || data[3] != 0 {
        proof {
            assert(data@.take(SECTOR_HEADER_SIZE as int) != sector_header_seq()) by {
                let t = data@.take(SECTOR_HEADER_SIZE as int);
                assert(t[0] == data@[0] && t[1] == data@[1] && t[2] == data@[2] && t[3] == data@[3]);
            }
        }
        return None;
    }
    proof {
        assert(data@.take(SECTOR_HEADER_SIZE as int) =~= sector_header_seq());
    }
    let format = DefaultFormat;
    match format.parse_record(data) {
        Some((key, value_len, timestamp, ttl)) => {
            if key.len() == 0 || key.len() > MAX_KEY_SIZE || value_len > usize::MAX - (isize::MAX as usize) - RECORD_OVERHEAD {
                None
            } else {
                Some((key, value_len, timestamp, ttl))
            }
        },
        None => None,
    }
}


impl FunKV {
    /// Loads the record that the sector `data`, read at `sector`, starts. Returns
    /// the sector where the scan goes on and, when a record was loaded, the run of
    /// sectors it occupies. A record whose expiry time lies before the clock
    /// reading `now` is skipped on a store that keeps expiry times.
    pub fn scan_sector(&mut self, sector: u64, data: &[u8], now: u64) -> (r: (
        u64,
        Option<(u64, u64)>,
    ))
        requires
            old(self).wf(),
            1 <= sector <= u64::MAX / BLOCK_SIZE_U64,
        ensures
            final(self).wf(),
            final(self).metadata_spec() == old(self).metadata_spec(),
            r.0 > sector,
            match sector_record(data@) {
                None => r.0 == sector + 1 && r.1 is None && final(self)@ == old(self)@,
                Some((k, vl, ts, ttl)) => {
                    let n = record_sectors(k.len() as int, vl as int);
                    &&& r.0 == sector + n
                    &&& r.1 is None <==> old(self)@.enable_ttl && ttl > 0 && now > ttl
                    &&& r.1 is None ==> final(self)@ == old(self)@
                    &&& r.1 is Some ==> {
                        &&& r.1 == Some((sector, n as u64))
                        &&& final(self)@.records.contains_key(k)
                        &&& loaded_record(final(self)@.records[k], k, vl, ts, ttl, sector)
                        &&& final(self)@.records == old(self)@.records.insert(
                            k,
                            final(self)@.records[k],
                        )
                        &&& final(self)@.stats == stats_after_load(
                            old(self)@.stats,
                            k.len() as int,
                            vl as int,
                            n,
                        )
                        &&& final(self)@ == (FunKVView {
                            records: final(self)@.records,
                            stats: final(self)@.stats,
                            ..old(self)@
                        })
                    }
                },
            },
    {
        let (key, value_len, timestamp, ttl) = match classify_sector(data) {
            Some(found) => found,
            None => {
                return (sector + 1, None);
            },
        };
        let format = get_format(self.metadata.version);
        let total_size = format.total_size(key.len(), value_len);
        let sectors_needed = total_size / BLOCK_SIZE + if total_size % BLOCK_SIZE != 0 {
            1usize
        } else {
            0usize
        };
        proof {
            assert(sectors_needed == blocks_for(total_size as int));
            assert(1 <= sectors_needed <= total_size);
        }
        let next = sector + sectors_needed as u64;

        if self.enable_ttl && ttl > 0 && now > ttl {
            return (next, None);
        }

        let key_len = key.len();
        let record = Arc::new(
            Record {
                key: FunKV::clone_key(&key),
                value: None,
                ttl_expiry: ttl,
                timestamp,
                value_len,
                sector,
                refcount: 1,
                key_len: key_len as u16,
                cache_ref_bit: 0,
                cache_access_time: 0,
            },
        );
        index_upsert(&mut self.hash_table, FunKV::clone_key(&key), arc_clone(&record));
        tree_insert(&mut self.tree, key, record);

        self.stats.record_count = self.stats.record_count.wrapping_add(1);
        let record_size = calculate_record_size(key_len, value_len);
        self.stats.memory_usage = self.stats.memory_usage.wrapping_add(record_size);
        self.stats.disk_usage = self.stats.disk_usage.wrapping_add(
            (sectors_needed * BLOCK_SIZE) as u64,
        );

        (next, Some((sector, sectors_needed as u64)))
    }
}

/// Giving back `size` sectors from `start`, or `NumericOverflow` where the
/// arithmetic would pass 64 bits.
pub open spec fn release_checked(v: FreeSpaceView, start: u64, size: u64) -> (
    Result<(), DbError>,
    FreeSpaceView,
) {
    if !release_fits(v, start, size) {
        (Err(DbError::NumericOverflow), v)
    } else {
        release_spec(v, start, size)
    }
}

/// Giving back the gaps between the occupied `runs` (first sector and length,
/// in ascending order) from `last_end` up to `total` sectors, stopping at the
/// first release that fails.
pub open spec fn release_gaps_spec(
    v: FreeSpaceView,
    runs: Seq<(u64, u64)>,
    last_end: u64,
    total: u64,
) -> (Result<(), DbError>, FreeSpaceView)
    decreases runs.len(),
{
    if runs.len() == 0 {
        if last_end < total {
            release_checked(v, last_end, (total - last_end) as u64)
        } else {
            (Ok(()), v)
        }
    } else {
        let s = runs[0].0;
        let n = runs[0].1;
        let (r, v1) = if s > last_end {
            release_checked(v, last_end, (s - last_end) as u64)
        } else {
            (Ok(()), v)
        };
        if r is Err {
            (r, v1)
        } else {
            release_gaps_spec(v1, runs.drop_first(), (s + n) as u64, total)
        }
    }
}

/// Runs of sectors in ascending order, none empty, none past the last sector
/// number.
pub open spec fn runs_ascending(runs: Seq<(u64, u64)>) -> bool {
    &&& forall|i: int| 0 <= i < runs.len() ==> (#[trigger] runs[i]).1 > 0 && runs[i].0 + runs[i].1 <= u64::MAX
    &&& forall|i: int, j: int| 0 <= i < j < runs.len() ==> (#[trigger] runs[i]).0 + runs[i].1 <= (#[trigger] runs[j]).0
}

/// The sectors the runs `runs` occupy.
pub open spec fn covered_by(runs: Seq<(u64, u64)>) -> Set<int> {
    Set::new(
        |x: int| exists|i: int| 0 <= i < runs.len() && (#[trigger] runs[i]).0 <= x < runs[i].0 + runs[i].1,
    )
}

proof fn lemma_covered_split(runs: Seq<(u64, u64)>)
    requires
        runs.len() > 0,
        runs_ascending(runs),
    ensures
        forall|x: int|
            #[trigger] covered_by(runs).contains(x) <==> (runs[0].0 <= x < runs[0].0 + runs[0].1
                || covered_by(runs.drop_first()).contains(x)),
        forall|x: int|
            #[trigger] covered_by(runs.drop_first()).contains(x) ==> runs[0].0 + runs[0].1 <= x,
{
    let rest = runs.drop_first();
    assert forall|x: int|
        #[trigger] covered_by(runs).contains(x) <==> (runs[0].0 <= x < runs[0].0 + runs[0].1
            || covered_by(rest).contains(x)) by {
        if covered_by(runs).contains(x) {
            let i = choose|i: int| 0 <= i < runs.len() && (#[trigger] runs[i]).0 <= x < runs[i].0 + runs[i].1;
            if i > 0 {
                assert(rest[i - 1] == runs[i]);
            }
        }
        if covered_by(rest).contains(x) {
            let i = choose|i: int| 0 <= i < rest.len() && (#[trigger] rest[i]).0 <= x < rest[i].0 + rest[i].1;
            assert(rest[i] == runs[i + 1]);
        }
        if runs[0].0 <= x < runs[0].0 + runs[0].1 {
            assert(runs[0].0 <= x < runs[0].0 + runs[0].1);
        }
    }
    assert forall|x: int| #[trigger] covered_by(rest).contains(x) implies runs[0].0 + runs[0].1 <= x by {
        let i = choose|i: int| 0 <= i < rest.len() && (#[trigger] rest[i]).0 <= x < rest[i].0 + rest[i].1;
        assert(rest[i] == runs[i + 1]);
    }
}

/// A range that starts where every free sector already lies before meets no
/// free run.
proof fn lemma_clear_after(v: FreeSpaceView, start: u64, size: u64)
    requires
        runs_valid(v),
        forall|x: int| #[trigger] free_set(v.extents).contains(x) ==> x < start,
    ensures
        range_clear(v.extents, start, size),
{
    assert forall|k: u64| #[trigger] v.extents.contains_key(k) implies k + v.extents[k] <= start
        || start + size <= k by {
        let last = k + v.extents[k] - 1;
        assert(covers(v.extents, k, last));
        assert(free_set(v.extents).contains(last));
    }
}

/// Giving back the gaps between occupied runs frees exactly the sectors of the
/// file from `last_end` on that no run occupies: from a free space whose free
/// sectors all lie before `last_end`, with runs in ascending order from
/// `last_end` on, a successful release of the gaps adds to the free sectors the
/// sectors from `last_end` up to the last one of the file, less those of the
/// runs, and no others; in particular no sector of a run becomes free.
pub proof fn lemma_gaps_released(v: FreeSpaceView, runs: Seq<(u64, u64)>, last_end: u64, total: u64)
    requires
        runs_valid(v),
        runs_apart(v.extents),
        v.persistence_size > 0,
        total == v.persistence_size / BLOCK_SIZE_U64,
        runs_ascending(runs),
        forall|i: int| 0 <= i < runs.len() ==> (#[trigger] runs[i]).0 >= last_end,
        last_end >= DATA_START_BLOCK,
        forall|x: int| #[trigger] free_set(v.extents).contains(x) ==> x < last_end,
    ensures
        release_gaps_spec(v, runs, last_end, total).0 is Ok ==> free_set(
            release_gaps_spec(v, runs, last_end, total).1.extents,
        ) == free_set(v.extents) + (sector_range(last_end as int, total - last_end)
            - covered_by(runs)),
    decreases runs.len(),
{
    let (r, w) = release_gaps_spec(v, runs, last_end, total);
    if runs.len() == 0 {
        assert(covered_by(runs) =~= Set::<int>::empty());
        if last_end < total {
            let size = (total - last_end) as u64;
            if r is Ok {
                lemma_clear_after(v, last_end, size);
                lemma_release_coalesces(v, last_end, size);
            }
        }
        assert(r is Ok ==> free_set(w.extents) =~= free_set(v.extents) + (sector_range(
            last_end as int,
            total - last_end,
        ) - covered_by(runs)));
    } else {
        let s = runs[0].0;
        let n = runs[0].1;
        let rest = runs.drop_first();
        lemma_covered_split(runs);
        assert(runs_ascending(rest)) by {
            assert forall|i: int| 0 <= i < rest.len() implies (#[trigger] rest[i]).1 > 0 && rest[i].0
                + rest[i].1 <= u64::MAX by {
                assert(rest[i] == runs[i + 1]);
            }
            assert forall|i: int, j: int| 0 <= i < j < rest.len() implies (#[trigger] rest[i]).0
                + rest[i].1 <= (#[trigger] rest[j]).0 by {
                assert(rest[i] == runs[i + 1]);
                assert(rest[j] == runs[j + 1]);
            }
        }
        assert forall|i: int| 0 <= i < rest.len() implies (#[trigger] rest[i]).0 >= (s + n) as u64 by {
            assert(rest[i] == runs[i + 1]);
        }
        let (r1, v1) = if s > last_end {
            release_checked(v, last_end, (s - last_end) as u64)
        } else {
            (Ok(()), v)
        };
        if r1 is Ok {
            if s > last_end {
                let size = (s - last_end) as u64;
                assert(release_fits(v, last_end, size));
                assert(release_spec(v, last_end, size).0 is Ok);
                assert(last_end < total && s <= total);
                lemma_clear_after(v, last_end, size);
                lemma_release_coalesces(v, last_end, size);
            }
            assert forall|x: int| #[trigger] free_set(v1.extents).contains(x) implies x < (s
                + n) as u64 by {
            }
            lemma_gaps_released(v1, rest, (s + n) as u64, total);
            if r is Ok {
                if s > last_end {
                    assert(release_spec(v, last_end, (s - last_end) as u64).0 is Ok);
                    assert(s <= total);
                }
                assert(free_set(w.extents) =~= free_set(v.extents) + (sector_range(
                    last_end as int,
                    total - last_end,
                ) - covered_by(runs)));
            }
        }
    }
}

/// Rebuilding gives back exactly the data sectors that no loaded record
/// occupies: from a free space with no runs, a successful release of the gaps
/// between loaded records (in ascending order, inside the data area) leaves free
/// exactly the sectors from the first data sector up to the last sector of the
/// file that no record's sectors cover; no free run shares a sector with a
/// loaded record.
pub proof fn lemma_rebuild_frees_only_gaps(v: FreeSpaceView, runs: Seq<(u64, u64)>, total: u64)
    requires
        runs_valid(v),
        v.extents.dom() == Set::<u64>::empty(),
        v.persistence_size > 0,
        total == v.persistence_size / BLOCK_SIZE_U64,
        runs_ascending(runs),
        forall|i: int| 0 <= i < runs.len() ==> (#[trigger] runs[i]).0 >= DATA_START_BLOCK,
    ensures
        release_gaps_spec(v, runs, DATA_START_BLOCK, total).0 is Ok ==> free_set(
            release_gaps_spec(v, runs, DATA_START_BLOCK, total).1.extents,
        ) == sector_range(DATA_START_BLOCK as int, total - DATA_START_BLOCK) - covered_by(runs),
{
    assert forall|x: int| #[trigger] free_set(v.extents).contains(x) implies x < DATA_START_BLOCK by {
        let k = choose|k: u64| #[trigger] covers(v.extents, k, x);
        assert(v.extents.dom().contains(k));
    }
    assert(free_set(v.extents) =~= Set::<int>::empty()) by {
        assert forall|x: int| !(#[trigger] free_set(v.extents).contains(x)) by {
            if free_set(v.extents).contains(x) {
                let k = choose|k: u64| #[trigger] covers(v.extents, k, x);
                assert(v.extents.dom().contains(k));
            }
        }
    }
    assert forall|a: u64, b: u64|
        #[trigger] v.extents.contains_key(a) && #[trigger] v.extents.contains_key(b) && a < b implies a
        + v.extents[a] < b by {
        assert(v.extents.dom().contains(a));
    }
    lemma_gaps_released(v, runs, DATA_START_BLOCK, total);
    if release_gaps_spec(v, runs, DATA_START_BLOCK, total).0 is Ok {
        assert(free_set(release_gaps_spec(v, runs, DATA_START_BLOCK, total).1.extents) =~= sector_range(
            DATA_START_BLOCK as int,
            total - DATA_START_BLOCK,
        ) - covered_by(runs));
    }
}

impl FunKV {
    /// Gives back to the free space every sector from the first data sector up to
    /// `total_sectors` that none of the occupied `runs` covers, gap by gap, stopping
    /// at the first release that fails, whose error is returned.
    pub fn release_gaps(&mut self, runs: &[(u64, u64)], total_sectors: u64) -> (r: Result<(), DbError>)
        requires
            old(self).wf(),
            runs_ascending(runs@),
        ensures
            final(self).wf(),
            final(self).metadata_spec() == old(self).metadata_spec(),
            (r, final(self)@.free_space) == release_gaps_spec(
                old(self)@.free_space,
                runs@,
                DATA_START_BLOCK,
                total_sectors,
            ),
            final(self)@ == (FunKVView { free_space: final(self)@.free_space, ..old(self)@ }),
    {
        let mut last_end: u64 = DATA_START_BLOCK;
        let mut i: usize = 0;
        proof {
            assert(runs@.subrange(0, runs@.len() as int) =~= runs@);
        }
        while i < runs.len()
            invariant
                self.wf(),
                self.metadata_spec() == old(self).metadata_spec(),
                i <= runs@.len(),
                runs_ascending(runs@),
                release_gaps_spec(old(self)@.free_space, runs@, DATA_START_BLOCK, total_sectors)
                    == release_gaps_spec(
                    self@.free_space,
                    runs@.subrange(i as int, runs@.len() as int),
                    last_end,
                    total_sectors,
                ),
                self@ == (FunKVView { free_space: self@.free_space, ..old(self)@ }),
            decreases runs@.len() - i,
        {
            let (start, count) = runs[i];
            let ghost rest = runs@.subrange(i as int, runs@.len() as int);
            let ghost fs = self@.free_space;
            proof {
                assert(rest.drop_first() =~= runs@.subrange(i as int + 1, runs@.len() as int));
                assert(rest[0] == runs@[i as int]);
                assert(runs@[i as int].1 > 0);
            }
            if start > last_end {
                if !self.free_space.release_fits_check(last_end, start - last_end) {
                    return Err(DbError::NumericOverflow);
                }
                match self.free_space.release_sectors(last_end, start - last_end) {
                    Ok(()) => {},
                    Err(e) => {
                        return Err(e);
                    },
                }
            }
            last_end = start + count;
            i = i + 1;
        }
        proof {
            assert(runs@.subrange(runs@.len() as int, runs@.len() as int) =~= Seq::<(u64, u64)>::empty());
        }
        if last_end < total_sectors {
            if !self.free_space.release_fits_check(last_end, total_sectors - last_end) {
                return Err(DbError::NumericOverflow);
            }
            return self.free_space.release_sectors(last_end, total_sectors - last_end);
        }
        Ok(())
    }
}

/// Where a scan goes on after reading `read` at `sector` (`None`: the read
/// failed): past the sectors of the record the sector starts, else at the next
/// sector.
pub open spec fn step_next(sector: u64, read: Option<Seq<u8>>) -> int {
    match read {
        Some(d) => match sector_record(d) {
            Some((k, vl, _ts, _ttl)) => sector + record_sectors(k.len() as int, vl as int),
            None => sector + 1,
        },
        None => sector + 1,
    }
}

/// The record a scan loads from the read `read` with the clock reading `now`:
/// the one the sector starts, unless the store keeps expiry times and the
/// record's expiry time lies before `now`.
pub open spec fn step_load(enable_ttl: bool, read: Option<Seq<u8>>, now: u64) -> Option<
    (Seq<u8>, usize, u64, u64),
> {
    match read {
        Some(d) => match sector_record(d) {
            Some((k, vl, ts, ttl)) => if enable_ttl && ttl > 0 && now > ttl {
                None
            } else {
                Some((k, vl, ts, ttl))
            },
            None => None,
        },
        None => None,
    }
}

/// Where a scan that made the reads of `log` goes on: sector 1 before any read.
pub open spec fn scan_end(log: Seq<(u64, Option<Seq<u8>>, u64)>) -> int {
    if log.len() == 0 {
        1
    } else {
        step_next(log.last().0, log.last().1)
    }
}

/// `log` lists the reads of a scan so far, each with what it gave and the clock
/// reading taken with it: the first at sector 1, each next one where the one
/// before sends the scan, all below sector `total`.
pub open spec fn scan_prefix(log: Seq<(u64, Option<Seq<u8>>, u64)>, total: u64) -> bool {
    &&& forall|i: int| 0 <= i < log.len() ==> 1 <= (#[trigger] log[i]).0 < total
    &&& log.len() > 0 ==> log[0].0 == 1
    &&& forall|i: int|
        0 <= i < log.len() - 1 ==> log[i + 1].0 == #[trigger] step_next(log[i].0, log[i].1)
}

/// `log` lists every read of a scan of the sectors below `total`.
pub open spec fn scan_log(log: Seq<(u64, Option<Seq<u8>>, u64)>, total: u64) -> bool {
    scan_prefix(log, total) && scan_end(log) >= total
}

/// The runs of sectors the records loaded by the reads of `log` occupy.
pub open spec fn scan_runs(log: Seq<(u64, Option<Seq<u8>>, u64)>, enable_ttl: bool) -> Seq<
    (u64, u64),
>
    decreases log.len(),
{
    if log.len() == 0 {
        Seq::empty()
    } else {
        let rest = scan_runs(log.drop_last(), enable_ttl);
        match step_load(enable_ttl, log.last().1, log.last().2) {
            Some((k, vl, _ts, _ttl)) => rest.push(
                (log.last().0, record_sectors(k.len() as int, vl as int) as u64),
            ),
            None => rest,
        }
    }
}

/// The statistics `s` after the records of `log` are loaded.
pub open spec fn scan_stats(s: Statistics, log: Seq<(u64, Option<Seq<u8>>, u64)>, enable_ttl: bool) -> Statistics
    decreases log.len(),
{
    if log.len() == 0 {
        s
    } else {
        let rest = scan_stats(s, log.drop_last(), enable_ttl);
        match step_load(enable_ttl, log.last().1, log.last().2) {
            Some((k, vl, _ts, _ttl)) => stats_after_load(
                rest,
                k.len() as int,
                vl as int,
                record_sectors(k.len() as int, vl as int),
            ),
            None => rest,
        }
    }
}

/// The position in `log` of the last read that loaded a record under `key`, or
/// -1 when none did.
pub open spec fn last_load(log: Seq<(u64, Option<Seq<u8>>, u64)>, enable_ttl: bool, key: Seq<u8>) -> int
    decreases log.len(),
{
    if log.len() == 0 {
        -1
    } else {
        match step_load(enable_ttl, log.last().1, log.last().2) {
            Some((k, _vl, _ts, _ttl)) => if k == key {
                log.len() - 1
            } else {
                last_load(log.drop_last(), enable_ttl, key)
            },
            None => last_load(log.drop_last(), enable_ttl, key),
        }
    }
}

proof fn lemma_last_load_bound(log: Seq<(u64, Option<Seq<u8>>, u64)>, enable_ttl: bool, key: Seq<u8>)
    ensures
        -1 <= last_load(log, enable_ttl, key) < log.len(),
    decreases log.len(),
{
    if log.len() > 0 {
        lemma_last_load_bound(log.drop_last(), enable_ttl, key);
    }
}

/// The records after loading those of `log` into `o`: each key loaded holds the
/// record of its last load, with its value on disk; every other key keeps what
/// it held.
pub open spec fn scan_records(
    o: Map<Seq<u8>, Record>,
    f: Map<Seq<u8>, Record>,
    log: Seq<(u64, Option<Seq<u8>>, u64)>,
    enable_ttl: bool,
) -> bool {
    &&& forall|k: Seq<u8>| #[trigger]
        f.contains_key(k) <==> o.contains_key(k) || last_load(log, enable_ttl, k) >= 0
    &&& forall|k: Seq<u8>| #[trigger]
        f.contains_key(k) ==> if last_load(log, enable_ttl, k) >= 0 {
            let i = last_load(log, enable_ttl, k);
            let (kk, vl, ts, ttl) = step_load(enable_ttl, log[i].1, log[i].2)->Some_0;
            loaded_record(f[k], k, vl, ts, ttl, log[i].0)
        } else {
            f[k] == o[k]
        }
}

/// What rebuilding the indexes from the sectors of the backing file gives, from
/// the store `o` to the store `f` with result `r`: nothing to do without a backing
/// file of known size; otherwise there are reads `log` of a scan of the whole
/// file, from sector 1 on (each with what the reader gave and the clock reading
/// taken with it), such that the records are those loaded by the scan over the
/// records stored before, the record counters are advanced for each load, and the
/// free space and the result are those of giving back the gaps between the
/// loaded records.
pub open spec fn rebuild_outcome(o: FunKVView, f: FunKVView, r: Result<(), DbError>) -> bool {
    if !o.persistency || o.persistence_size == 0 {
        r is Ok && f == o
    } else {
        let total = o.persistence_size / BLOCK_SIZE_U64;
        exists|log: Seq<(u64, Option<Seq<u8>>, u64)>|
            {
                &&& scan_log(log, total)
                &&& scan_records(o.records, f.records, log, o.enable_ttl)
                &&& f.stats == scan_stats(o.stats, log, o.enable_ttl)
                &&& (r, f.free_space) == #[trigger] release_gaps_spec(
                    o.free_space,
                    scan_runs(log, o.enable_ttl),
                    DATA_START_BLOCK,
                    total,
                )
                &&& f == (FunKVView {
                    records: f.records,
                    stats: f.stats,
                    free_space: f.free_space,
                    ..o
                })
            }
    }
}

impl FunKV {
    /// Rebuilds the indexes from the backing file: every sector from the first
    /// on is read through `reader`, with the clock read alongside; a sector that
    /// starts a record (see `sector_record`) is loaded with its value left on disk
    /// (unless its expiry time has passed on a store that keeps expiry times) and
    /// the scan goes on after the record's sectors; unreadable and other sectors
    /// are skipped. The gaps between the loaded records are then given back to the
    /// free space. The contract fixes, for whatever the reads return, which
    /// sectors are read and what the store becomes (`rebuild_outcome`).
    pub fn scan_and_rebuild_indexes<R: SectorReader>(&mut self, reader: &R) -> (r: Result<(), DbError>)
        requires
            old(self).wf(),
        ensures
            final(self).wf(),
            rebuild_outcome(old(self)@, final(self)@, r),
            final(self).metadata_spec() == old(self).metadata_spec(),
    {
        if !self.persistency || self.persistence_size == 0 {
            return Ok(());
        }
        let total_sectors = self.persistence_size / BLOCK_SIZE_U64;
        let mut sector: u64 = 1;
        let mut runs: Vec<(u64, u64)> = Vec::new();
        let ghost o = old(self)@;
        let ghost en = o.enable_ttl;
        let ghost mut log: Seq<(u64, Option<Seq<u8>>, u64)> = Seq::empty();
        proof {
            assert forall|k: Seq<u8>| #[trigger] self@.records.contains_key(k) implies last_load(log, en, k) < 0 by {}
        }
        while sector < total_sectors
            invariant
                self.wf(),
                self.metadata_spec() == old(self).metadata_spec(),
                o == old(self)@,
                en == o.enable_ttl,
                1 <= sector,
                total_sectors == o.persistence_size / BLOCK_SIZE_U64,
                scan_prefix(log, total_sectors),
                sector as int == scan_end(log),
                runs@ == scan_runs(log, en),
                runs_ascending(runs@),
                forall|i: int| 0 <= i < runs@.len() ==> 1 <= (#[trigger] runs@[i]).0 < total_sectors,
                forall|i: int| 0 <= i < runs@.len() ==> (#[trigger] runs@[i]).0 + runs@[i].1 <= sector,
                scan_records(o.records, self@.records, log, en),
                self@.stats == scan_stats(o.stats, log, en),
                self@ == (FunKVView { records: self@.records, stats: self@.stats, ..o }),
            decreases (if sector <= total_sectors {
                total_sectors - sector
            } else {
                0
            }),
        {
            let ghost log0 = log;
            let ghost before = self@.records;
            match reader.read_sectors(sector, 1) {
                Ok(data) => {
                    let now = wall_clock_nanos();
                    let ghost runs0 = runs@;
                    let (next, run) = self.scan_sector(sector, data.as_slice(), now);
                    proof {
                        log = log.push((sector, Some(data@), now));
                        assert(log.drop_last() =~= log0);
                        assert(log[log.len() - 1] == (sector, Some(data@), now));
                    }
                    match run {
                        Some(found) => {
                            runs.push(found);
                            proof {
                                assert(runs@[runs0.len() as int] == found);
                                assert forall|j: int| 0 <= j < runs0.len() implies #[trigger] runs@[j] == runs0[j] by {}
                            }
                        },
                        None => {},
                    }
                    proof {
                        let k0 = match step_load(en, Some(data@), now) {
                            Some(t) => t.0,
                            None => Seq::empty(),
                        };
                        assert forall|i: int| 0 <= i < log0.len() implies #[trigger] log[i] == log0[i] by {}
                        assert forall|k: Seq<u8>| #[trigger] self@.records.contains_key(k) <==> o.records.contains_key(k) || last_load(log, en, k) >= 0 by {
                            if step_load(en, Some(data@), now) is Some && k == k0 {
                            } else {
                                assert(last_load(log, en, k) == last_load(log0, en, k));
                            }
                        }
                        assert forall|k: Seq<u8>| #[trigger] self@.records.contains_key(k) implies if last_load(log, en, k) >= 0 {
                            let i = last_load(log, en, k);
                            let (kk, vl, ts, ttl) = step_load(en, log[i].1, log[i].2)->Some_0;
                            loaded_record(self@.records[k], k, vl, ts, ttl, log[i].0)
                        } else {
                            self@.records[k] == o.records[k]
                        } by {
                            if step_load(en, Some(data@), now) is Some && k == k0 {
                            } else {
                                assert(last_load(log, en, k) == last_load(log0, en, k));
                                assert(before.contains_key(k));
                                assert(self@.records[k] == before[k]);
                                if last_load(log0, en, k) >= 0 {
                                    lemma_last_load_bound(log0, en, k);
                                    assert(log[last_load(log0, en, k)] == log0[last_load(log0, en, k)]);
                                }
                            }
                        }
                    }
                    sector = next;
                },
                Err(_) => {
                    proof {
                        log = log.push((sector, None, 0u64));
                        assert(log.drop_last() =~= log0);
                        assert forall|i: int| 0 <= i < log0.len() implies #[trigger] log[i] == log0[i] by {}
                        assert forall|k: Seq<u8>| #[trigger] self@.records.contains_key(k) implies if last_load(log, en, k) >= 0 {
                            let i = last_load(log, en, k);
                            let (kk, vl, ts, ttl) = step_load(en, log[i].1, log[i].2)->Some_0;
                            loaded_record(self@.records[k], k, vl, ts, ttl, log[i].0)
                        } else {
                            self@.records[k] == o.records[k]
                        } by {
                            assert(last_load(log, en, k) == last_load(log0, en, k));
                            if last_load(log0, en, k) >= 0 {
                                lemma_last_load_bound(log0, en, k);
                                assert(log[last_load(log0, en, k)] == log0[last_load(log0, en, k)]);
                            }
                        }
                        assert forall|k: Seq<u8>| #[trigger] self@.records.contains_key(k) <==> o.records.contains_key(k) || last_load(log, en, k) >= 0 by {
                            assert(last_load(log, en, k) == last_load(log0, en, k));
                        }
                    }
                    sector = sector + 1;
                },
            }
        }
        let r = self.release_gaps(runs.as_slice(), total_sectors);
        proof {
            assert(release_gaps_spec(o.free_space, scan_runs(log, en), DATA_START_BLOCK, total_sectors)
                == (r, self@.free_space));
        }
        r
    }
}

} // verus!
