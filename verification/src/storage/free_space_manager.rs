use std::collections::BTreeMap;

use vstd::prelude::*;
use vstd::set::fold::{is_fun_commutative, lemma_fold_empty, lemma_fold_insert};

use crate::constants::{BLOCK_SIZE_U64, METADATA_BLOCK_SIZE};
use crate::error::DbError;

verus! {

/// A run of free sectors: `size` sectors starting at sector `start`.
#[derive(Debug, Clone, Copy, PartialEq, Eq, Structural)]
pub struct SectorStat {
    pub start: u64,
    pub size: u64,
}

/// Free space of the backing file, kept as runs of sectors indexed twice:
/// by `(size, start)` for best-fit search and by `start` for coalescing.
pub struct FreeSpaceManager {
    /// Sorted by (size, start)
    by_size: BTreeMap<(u64, u64), SectorStat>,
    /// Sorted by start address
    by_start: BTreeMap<u64, SectorStat>,
    /// Total free space in bytes
    total_free: u64,
    /// Persistence size in bytes
    persistence_size: u64,
    fragmentation_percent: u32,
}

/// The abstract state of a free-space manager.
pub struct FreeSpaceView {
    /// Free runs: first sector to number of sectors.
    pub extents: Map<u64, u64>,
    /// The free byte count the manager reports.
    pub total_free: nat,
    pub persistence_size: u64,
    pub fragmentation_percent: u32,
}

// ---------------------------------------------------------------------------
// The model
// ---------------------------------------------------------------------------

/// Whether `count` sectors from `start` lie inside a file of `persistence_size`
/// bytes; a size of 0 stands for a file of unknown size, where every range passes.
pub open spec fn valid_sector_range(persistence_size: u64, start: u64, count: u64) -> bool {
    persistence_size > 0 ==> {
        &&& start < persistence_size / BLOCK_SIZE_U64
        &&& start + count <= persistence_size / BLOCK_SIZE_U64
    }
}

/// A run may be free only outside the metadata sectors and inside the file.
pub open spec fn valid_free_space(persistence_size: u64, start: u64, size: u64) -> bool {
    start >= METADATA_BLOCK_SIZE && valid_sector_range(persistence_size, start, size)
}

/// The runs as `(start, size)` pairs.
pub open spec fn extent_pairs(ext: Map<u64, u64>) -> Set<(u64, u64)> {
    ext.dom().map(|k: u64| (k, ext[k]))
}

pub open spec fn add_extent_size() -> spec_fn(nat, (u64, u64)) -> nat {
    |acc: nat, p: (u64, u64)| (acc + p.1) as nat
}

/// The number of free sectors over all runs.
pub open spec fn free_sectors(ext: Map<u64, u64>) -> nat {
    extent_pairs(ext).fold(0nat, add_extent_size())
}

/// Run `a` is a better fit than run `b`: smaller, or as small and earlier.
pub open spec fn fits_before(ext: Map<u64, u64>, a: u64, b: u64) -> bool {
    ext[a] < ext[b] || (ext[a] == ext[b] && a <= b)
}

/// Some run holds at least `sectors` sectors.
pub open spec fn has_fit(ext: Map<u64, u64>, sectors: u64) -> bool {
    exists|k: u64| #[trigger] ext.contains_key(k) && ext[k] >= sectors
}

/// `k` starts the smallest run that holds `sectors` sectors, the earliest of
/// those when several are as small.
pub open spec fn is_best_fit(ext: Map<u64, u64>, sectors: u64, k: u64) -> bool {
    &&& ext.contains_key(k)
    &&& ext[k] >= sectors
    &&& forall|j: u64| #[trigger] ext.contains_key(j) && ext[j] >= sectors ==> fits_before(ext, k, j)
}

pub open spec fn best_fit(ext: Map<u64, u64>, sectors: u64) -> u64 {
    choose|k: u64| is_best_fit(ext, sectors, k)
}

/// `k` is the last run that starts before sector `start`.
pub open spec fn is_pred(ext: Map<u64, u64>, start: u64, k: u64) -> bool {
    &&& ext.contains_key(k)
    &&& k < start
    &&& forall|j: u64| #[trigger] ext.contains_key(j) && j < start ==> j <= k
}

/// The run that ends exactly at `start`, if the last run before `start` does.
pub open spec fn adjacent_prev(ext: Map<u64, u64>, start: u64) -> Option<u64> {
    if exists|k: u64| is_pred(ext, start, k) {
        let k = choose|k: u64| is_pred(ext, start, k);
        if k + ext[k] == start {
            Some(k)
        } else {
            None
        }
    } else {
        None
    }
}

/// The run that starts exactly at `end`, if any.
pub open spec fn adjacent_next(ext: Map<u64, u64>, end: int) -> Option<u64> {
    if 0 <= end <= u64::MAX && ext.contains_key(end as u64) {
        Some(end as u64)
    } else {
        None
    }
}

/// `k` starts a run of the largest size.
pub open spec fn is_largest(ext: Map<u64, u64>, k: u64) -> bool {
    &&& ext.contains_key(k)
    &&& forall|j: u64| #[trigger] ext.contains_key(j) ==> ext[j] <= ext[k]
}

/// The size in sectors of the largest run, or 0 when there is none.
pub open spec fn largest_sectors(ext: Map<u64, u64>) -> nat {
    if exists|k: u64| is_largest(ext, k) {
        ext[choose|k: u64| is_largest(ext, k)] as nat
    } else {
        0
    }
}

/// The share, in percent, of the free bytes that lie outside the largest run.
pub open spec fn fragmentation_of(total: nat, largest_bytes: nat) -> u32 {
    if total == 0 {
        0
    } else {
        (((total - largest_bytes) * 100) / total as int) as u32
    }
}

/// `v` with its fragmentation figure brought up to date.
pub open spec fn refresh_fragmentation(v: FreeSpaceView) -> FreeSpaceView {
    FreeSpaceView {
        fragmentation_percent: fragmentation_of(
            v.total_free,
            (largest_sectors(v.extents) * BLOCK_SIZE_U64) as nat,
        ),
        ..v
    }
}

/// Whether the fragmentation of `v` can be computed in 64 bits.
pub open spec fn fragmentation_fits(v: FreeSpaceView) -> bool {
    (v.total_free - largest_sectors(v.extents) * BLOCK_SIZE_U64) * 100 <= u64::MAX
}

/// Adding one run to the maps: the result and the state after.
pub open spec fn insert_spec(v: FreeSpaceView, start: u64, size: u64) -> (
    Result<(), DbError>,
    FreeSpaceView,
) {
    if size == 0 || !valid_free_space(v.persistence_size, start, size) {
        (Err(DbError::InvalidArgument), v)
    } else if v.extents.contains_key(start) {
        (Err(DbError::DuplicateKey), v)
    } else {
        (
            Ok(()),
            FreeSpaceView {
                extents: v.extents.insert(start, size),
                total_free: (v.total_free + size * BLOCK_SIZE_U64) as nat,
                ..v
            },
        )
    }
}

/// Setting up the free space of a fresh file of `persistence_size` bytes.
pub open spec fn initialize_spec(v: FreeSpaceView, persistence_size: u64) -> (
    Result<(), DbError>,
    FreeSpaceView,
) {
    let v1 = FreeSpaceView { persistence_size, ..v };
    let total_sectors = persistence_size / BLOCK_SIZE_U64;
    if total_sectors <= METADATA_BLOCK_SIZE {
        (Err(DbError::InvalidDevice), v1)
    } else {
        insert_spec(v1, METADATA_BLOCK_SIZE, (total_sectors - METADATA_BLOCK_SIZE) as u64)
    }
}

/// Taking `sectors` sectors from the best-fitting run: the result and the state after.
pub open spec fn allocate_spec(v: FreeSpaceView, sectors: u64) -> (
    Result<u64, DbError>,
    FreeSpaceView,
) {
    let ext = v.extents;
    if sectors == 0 {
        (Err(DbError::InvalidArgument), v)
    } else if !has_fit(ext, sectors) {
        (Err(DbError::OutOfSpace), v)
    } else {
        let k = best_fit(ext, sectors);
        let size = ext[k];
        if !valid_free_space(v.persistence_size, k, size) {
            (Err(DbError::CorruptedData), v)
        } else {
            let rest = ext.remove(k);
            if size > sectors && rest.contains_key((k + sectors) as u64) {
                // the remainder collides with another run: the taken run goes back
                (Err(DbError::DuplicateKey), v)
            } else {
                let ext2 = if size > sectors {
                    rest.insert((k + sectors) as u64, (size - sectors) as u64)
                } else {
                    rest
                };
                let v2 = FreeSpaceView {
                    extents: ext2,
                    total_free: (v.total_free - sectors * BLOCK_SIZE_U64) as nat,
                    ..v
                };
                (Ok(k), refresh_fragmentation(v2))
            }
        }
    }
}

/// Whether allocating `sectors` from `v` stays within 64-bit arithmetic: when
/// the allocation succeeds, the fragmentation figure of the state after it is
/// computed in 64 bits.
pub open spec fn allocate_fits(v: FreeSpaceView, sectors: u64) -> bool {
    allocate_spec(v, sectors).0 is Ok ==> fragmentation_fits(allocate_spec(v, sectors).1)
}

/// The start and size of the run that a release of `size` sectors from `start`
/// builds: a run that ends at `start` lends its start and adds its size, a run
/// that starts right after the released range adds its size.
pub open spec fn merged_extent(ext: Map<u64, u64>, start: u64, size: u64) -> (u64, u64) {
    let p = adjacent_prev(ext, start);
    let n = adjacent_next(ext, start + size);
    let ms = match p {
        Some(k) => k,
        None => start,
    };
    let base = match p {
        Some(k) => ext[k] + size,
        None => size as int,
    };
    let extra = match n {
        Some(k) => ext[k],
        None => 0,
    };
    (ms, (base + extra) as u64)
}

/// The state after the runs next to a released range are taken out for merging.
pub open spec fn merge_removed(v: FreeSpaceView, start: u64, size: u64) -> FreeSpaceView {
    let ext = v.extents;
    let p = adjacent_prev(ext, start);
    let n = adjacent_next(ext, start + size);
    let ext1 = match p {
        Some(k) => ext.remove(k),
        None => ext,
    };
    let ext2 = match n {
        Some(k) => ext1.remove(k),
        None => ext1,
    };
    let psize: nat = match p {
        Some(k) => ext[k] as nat,
        None => 0,
    };
    let nsize: nat = match n {
        Some(k) => ext[k] as nat,
        None => 0,
    };
    FreeSpaceView {
        extents: ext2,
        total_free: (v.total_free - psize * BLOCK_SIZE_U64 - nsize * BLOCK_SIZE_U64) as nat,
        ..v
    }
}

/// Returning `size` sectors from `start`: the result and the state after.
pub open spec fn release_spec(v: FreeSpaceView, start: u64, size: u64) -> (
    Result<(), DbError>,
    FreeSpaceView,
) {
    if start == 0 || size == 0 || !valid_sector_range(v.persistence_size, start, size) {
        (Err(DbError::InvalidArgument), v)
    } else {
        let v1 = merge_removed(v, start, size);
        let (ms, msz) = merged_extent(v.extents, start, size);
        let (r, v2) = insert_spec(v1, ms, msz);
        if r is Ok {
            (r, refresh_fragmentation(v2))
        } else {
            (r, v2)
        }
    }
}

/// Whether releasing stays within 64-bit arithmetic: the end of the range is a
/// 64-bit sector number wherever it is computed, and when the release succeeds
/// the free byte count after it and its fragmentation figure are computed in 64
/// bits.
pub open spec fn release_fits(v: FreeSpaceView, start: u64, size: u64) -> bool {
    &&& (v.persistence_size == 0 || start < v.persistence_size / BLOCK_SIZE_U64) ==> start + size
        <= u64::MAX
    &&& release_spec(v, start, size).0 is Ok ==> {
        &&& v.total_free + size * BLOCK_SIZE_U64 <= u64::MAX
        &&& fragmentation_fits(release_spec(v, start, size).1)
    }
}

// ---------------------------------------------------------------------------
// Lemmas on the model
// ---------------------------------------------------------------------------

proof fn lemma_add_extent_size_commutative()
    ensures
        is_fun_commutative(add_extent_size()),
{
}

proof fn lemma_extent_pairs_finite(ext: Map<u64, u64>)
    requires
        ext.dom().finite(),
    ensures
        extent_pairs(ext).finite(),
{
    ext.dom().lemma_map_finite(|k: u64| (k, ext[k]));
}

pub proof fn lemma_free_sectors_empty()
    ensures
        free_sectors(Map::<u64, u64>::empty()) == 0,
{
    assert(extent_pairs(Map::<u64, u64>::empty()) =~= Set::empty());
    lemma_fold_empty(0nat, add_extent_size());
}

pub proof fn lemma_free_sectors_insert(ext: Map<u64, u64>, k: u64, v: u64)
    requires
        ext.dom().finite(),
        !ext.contains_key(k),
    ensures
        free_sectors(ext.insert(k, v)) == free_sectors(ext) + v,
{
    let f = |j: u64| (j, ext[j]);
    let g = |j: u64| (j, ext.insert(k, v)[j]);
    assert forall|p: (u64, u64)|
        #![trigger extent_pairs(ext.insert(k, v)).contains(p)]
        extent_pairs(ext.insert(k, v)).contains(p) <==> extent_pairs(ext).insert((k, v)).contains(
            p,
        ) by {
        if extent_pairs(ext.insert(k, v)).contains(p) {
            let j = choose|j: u64| ext.insert(k, v).dom().contains(j) && g(j) == p;
            if j != k {
                assert(ext.dom().contains(j) && f(j) == p);
            }
        }
        if extent_pairs(ext).contains(p) {
            let j = choose|j: u64| ext.dom().contains(j) && f(j) == p;
            assert(ext.insert(k, v).dom().contains(j) && g(j) == p);
        }
        if p == (k, v) {
            assert(ext.insert(k, v).dom().contains(k) && g(k) == p);
        }
    }
    assert(extent_pairs(ext.insert(k, v)) =~= extent_pairs(ext).insert((k, v)));
    lemma_extent_pairs_finite(ext);
    lemma_add_extent_size_commutative();
    if extent_pairs(ext).contains((k, v)) {
        let j = choose|j: u64| ext.dom().contains(j) && f(j) == (k, v);
        assert(false);
    }
    lemma_fold_insert(extent_pairs(ext), 0nat, add_extent_size(), (k, v));
}

pub proof fn lemma_free_sectors_remove(ext: Map<u64, u64>, k: u64)
    requires
        ext.dom().finite(),
        ext.contains_key(k),
    ensures
        free_sectors(ext.remove(k)) + ext[k] == free_sectors(ext),
{
    lemma_free_sectors_insert(ext.remove(k), k, ext[k]);
    assert(ext.remove(k).insert(k, ext[k]) =~= ext);
}

pub proof fn lemma_extent_le_free_sectors(ext: Map<u64, u64>, k: u64)
    requires
        ext.dom().finite(),
        ext.contains_key(k),
    ensures
        ext[k] <= free_sectors(ext),
{
    lemma_free_sectors_remove(ext, k);
}

proof fn lemma_largest_le_free_sectors(ext: Map<u64, u64>)
    requires
        ext.dom().finite(),
    ensures
        largest_sectors(ext) <= free_sectors(ext),
{
    if exists|k: u64| is_largest(ext, k) {
        let k = choose|k: u64| is_largest(ext, k);
        lemma_extent_le_free_sectors(ext, k);
    }
}

proof fn lemma_best_fit_unique(ext: Map<u64, u64>, sectors: u64, k: u64)
    requires
        is_best_fit(ext, sectors, k),
    ensures
        best_fit(ext, sectors) == k,
{
    let b = best_fit(ext, sectors);
    assert(is_best_fit(ext, sectors, b));
    assert(fits_before(ext, k, b) && fits_before(ext, b, k));
}

proof fn lemma_pred_unique(ext: Map<u64, u64>, start: u64, k: u64)
    requires
        is_pred(ext, start, k),
    ensures
        (choose|j: u64| is_pred(ext, start, j)) == k,
{
    let b = choose|j: u64| is_pred(ext, start, j);
    assert(is_pred(ext, start, b));
    assert(b <= k && k <= b);
}

proof fn lemma_largest_value(ext: Map<u64, u64>, k: u64)
    requires
        is_largest(ext, k),
    ensures
        largest_sectors(ext) == ext[k],
{
    let b = choose|j: u64| is_largest(ext, j);
    assert(is_largest(ext, b));
    assert(ext[b] <= ext[k] && ext[k] <= ext[b]);
}

proof fn lemma_largest_empty(ext: Map<u64, u64>)
    requires
        ext.dom() =~= Set::empty(),
    ensures
        largest_sectors(ext) == 0,
{
    if exists|k: u64| is_largest(ext, k) {
        let k = choose|k: u64| is_largest(ext, k);
        assert(ext.dom().contains(k));
    }
}

/// `ext` without the run starting at `a`, if one is named.
pub open spec fn drop_key(ext: Map<u64, u64>, a: Option<u64>) -> Map<u64, u64> {
    match a {
        Some(k) => ext.remove(k),
        None => ext,
    }
}

/// `k` is one of the two named starts.
pub open spec fn skipped(a: Option<u64>, b: Option<u64>, k: u64) -> bool {
    a == Some(k) || b == Some(k)
}

proof fn lemma_largest_exists(ext: Map<u64, u64>, a: u64)
    requires
        ext.dom().finite(),
        ext.contains_key(a),
    ensures
        exists|k: u64| is_largest(ext, k),
    decreases ext.dom().len(),
{
    if exists|j: u64| #[trigger] ext.contains_key(j) && ext[j] > ext[a] {
        let j = choose|j: u64| #[trigger] ext.contains_key(j) && ext[j] > ext[a];
        let e = ext.remove(a);
        assert(e.dom() =~= ext.dom().remove(a));
        lemma_largest_exists(e, j);
        let k = choose|k: u64| is_largest(e, k);
        assert(is_largest(ext, k));
    } else {
        assert(is_largest(ext, a));
    }
}

/// The largest run after one more run is added: the larger of the two.
proof fn lemma_largest_insert(ext: Map<u64, u64>, k: u64, v: u64)
    requires
        ext.dom().finite(),
        !ext.contains_key(k),
    ensures
        largest_sectors(ext.insert(k, v)) == if largest_sectors(ext) >= v {
            largest_sectors(ext)
        } else {
            v as nat
        },
{
    let e2 = ext.insert(k, v);
    if exists|j: u64| is_largest(ext, j) {
        let j = choose|j: u64| is_largest(ext, j);
        lemma_largest_value(ext, j);
        if ext[j] >= v {
            assert(is_largest(e2, j));
            lemma_largest_value(e2, j);
        } else {
            assert(is_largest(e2, k));
            lemma_largest_value(e2, k);
        }
    } else {
        assert forall|j: u64| #[trigger] e2.contains_key(j) implies e2[j] <= e2[k] by {
            if j != k {
                lemma_largest_exists(ext, j);
            }
        }
        assert(is_largest(e2, k));
        lemma_largest_value(e2, k);
    }
}

// ---------------------------------------------------------------------------
// Laws of allocation and release
// ---------------------------------------------------------------------------

/// No two runs overlap or touch: each run ends before the next one begins.
pub open spec fn runs_apart(ext: Map<u64, u64>) -> bool {
    forall|a: u64, b: u64|
        #[trigger] ext.contains_key(a) && #[trigger] ext.contains_key(b) && a < b ==> a + ext[a]
            < b
}

/// No run shares a sector with the `size` sectors from `start`.
pub open spec fn range_clear(ext: Map<u64, u64>, start: u64, size: u64) -> bool {
    forall|k: u64| #[trigger] ext.contains_key(k) ==> k + ext[k] <= start || start + size <= k
}

/// Every run is non-empty, ends within 64-bit sector numbers and lies in the
/// data area of the file, and the free byte count is the bytes of the runs.
pub open spec fn runs_valid(v: FreeSpaceView) -> bool {
    &&& v.extents.dom().finite()
    &&& v.total_free == free_sectors(v.extents) * BLOCK_SIZE_U64
    &&& forall|k: u64| #[trigger]
        v.extents.contains_key(k) ==> {
            &&& v.extents[k] > 0
            &&& k + v.extents[k] <= u64::MAX
            &&& valid_free_space(v.persistence_size, k, v.extents[k])
        }
}

/// Sector `x` lies in the run that starts at `k`.
pub open spec fn covers(ext: Map<u64, u64>, k: u64, x: int) -> bool {
    ext.contains_key(k) && k <= x < k + ext[k]
}

/// The free sectors.
pub open spec fn free_set(ext: Map<u64, u64>) -> Set<int> {
    Set::new(|x: int| exists|k: u64| #[trigger] covers(ext, k, x))
}

/// The `size` sectors from `start`.
pub open spec fn sector_range(start: int, size: int) -> Set<int> {
    Set::new(|x: int| start <= x < start + size)
}

proof fn lemma_pred_exists(ext: Map<u64, u64>, start: u64, a: u64)
    requires
        ext.dom().finite(),
        ext.contains_key(a),
        a < start,
    ensures
        exists|k: u64| is_pred(ext, start, k),
    decreases ext.dom().len(),
{
    if exists|j: u64| #[trigger] ext.contains_key(j) && a < j && j < start {
        let j = choose|j: u64| #[trigger] ext.contains_key(j) && a < j && j < start;
        let e = ext.remove(a);
        assert(e.dom() =~= ext.dom().remove(a));
        lemma_pred_exists(e, start, j);
        let k = choose|k: u64| is_pred(e, start, k);
        assert(is_pred(ext, start, k));
    } else {
        assert(is_pred(ext, start, a));
    }
}

/// Under separated runs and a released range that meets none of them, the run
/// that ends at the range's start is the one the release merges with, and every
/// other run before the range ends short of it.
proof fn lemma_prev_facts(ext: Map<u64, u64>, start: u64, size: u64)
    requires
        ext.dom().finite(),
        runs_apart(ext),
        range_clear(ext, start, size),
        forall|k: u64| #[trigger] ext.contains_key(k) ==> ext[k] > 0,
    ensures
        match adjacent_prev(ext, start) {
            Some(p) => {
                &&& ext.contains_key(p)
                &&& p < start
                &&& p + ext[p] == start
                &&& forall|a: u64| #[trigger] ext.contains_key(a) && a < start ==> a <= p
            },
            None => forall|a: u64| #[trigger]
                ext.contains_key(a) && a < start ==> a + ext[a] < start,
        },
{
    if exists|k: u64| is_pred(ext, start, k) {
        let k = choose|k: u64| is_pred(ext, start, k);
        assert(ext.contains_key(k) && k < start);
        if k + ext[k] != start {
            assert forall|a: u64| #[trigger] ext.contains_key(a) && a < start implies a + ext[a]
                < start by {
                if a != k {
                    assert(a < k);
                }
            }
        }
    } else {
        assert forall|a: u64| #[trigger] ext.contains_key(a) && a < start implies a + ext[a]
            < start by {
            lemma_pred_exists(ext, start, a);
        }
    }
}

proof fn lemma_best_fit_exists(ext: Map<u64, u64>, sectors: u64, a: u64)
    requires
        ext.dom().finite(),
        ext.contains_key(a),
        ext[a] >= sectors,
    ensures
        is_best_fit(ext, sectors, best_fit(ext, sectors)),
    decreases ext.dom().len(),
{
    if exists|j: u64| #[trigger] ext.contains_key(j) && ext[j] >= sectors && j != a && fits_before(ext, j, a) {
        let j = choose|j: u64| #[trigger] ext.contains_key(j) && ext[j] >= sectors && j != a && fits_before(ext, j, a);
        let e = ext.remove(a);
        assert(e.dom() =~= ext.dom().remove(a));
        lemma_best_fit_exists(e, sectors, j);
        let k = best_fit(e, sectors);
        assert(is_best_fit(ext, sectors, k));
    } else {
        assert(is_best_fit(ext, sectors, a));
    }
}

/// What a successful allocation took: the best-fitting run, inside the file.
proof fn lemma_allocate_ok_facts(v: FreeSpaceView, sectors: u64)
    requires
        runs_valid(v),
        allocate_spec(v, sectors).0 is Ok,
    ensures
        sectors > 0,
        is_best_fit(v.extents, sectors, best_fit(v.extents, sectors)),
        allocate_spec(v, sectors).0 == Ok::<u64, DbError>(best_fit(v.extents, sectors)),
{
    let a = choose|k: u64| #[trigger] v.extents.contains_key(k) && v.extents[k] >= sectors;
    lemma_best_fit_exists(v.extents, sectors, a);
}

/// The fragmentation figure is a percentage: at most 100 whenever the largest
/// run is part of the free bytes.
pub proof fn lemma_fragmentation_at_most_100(total: nat, largest_bytes: nat)
    requires
        largest_bytes <= total,
    ensures
        fragmentation_of(total, largest_bytes) <= 100,
{
    if total > 0 {
        assert(((total - largest_bytes) * 100) / total as int <= 100) by (nonlinear_arith)
            requires
                largest_bytes <= total,
                total > 0,
        ;
    }
}

/// After a successful allocation from any well-formed state, the fragmentation
/// figure is the share, in percent, of the free bytes outside the largest run,
/// and so at most 100.
pub proof fn lemma_fragmentation_after_allocate(v: FreeSpaceView, sectors: u64)
    requires
        v.extents.dom().finite(),
        v.total_free == free_sectors(v.extents) * BLOCK_SIZE_U64,
        allocate_spec(v, sectors).0 is Ok,
    ensures
        ({
            let w = allocate_spec(v, sectors).1;
            &&& w.fragmentation_percent == fragmentation_of(
                w.total_free,
                (largest_sectors(w.extents) * BLOCK_SIZE_U64) as nat,
            )
            &&& w.fragmentation_percent <= 100
            &&& w.total_free == free_sectors(w.extents) * BLOCK_SIZE_U64
        }),
{
    let ext = v.extents;
    let a = choose|k: u64| #[trigger] ext.contains_key(k) && ext[k] >= sectors;
    lemma_best_fit_exists(ext, sectors, a);
    let k = best_fit(ext, sectors);
    let size = ext[k];
    lemma_free_sectors_remove(ext, k);
    let rest = ext.remove(k);
    assert(rest.dom() =~= ext.dom().remove(k));
    if size > sectors {
        lemma_free_sectors_insert(rest, (k + sectors) as u64, (size - sectors) as u64);
    }
    let w = allocate_spec(v, sectors).1;
    assert(w.extents.dom().finite());
    lemma_largest_le_free_sectors(w.extents);
    lemma_fragmentation_at_most_100(w.total_free, (largest_sectors(w.extents) * BLOCK_SIZE_U64) as nat);
}

/// After a successful release from any well-formed state, the fragmentation
/// figure is the share, in percent, of the free bytes outside the largest run,
/// and so at most 100.
pub proof fn lemma_fragmentation_after_release(v: FreeSpaceView, start: u64, size: u64)
    requires
        v.extents.dom().finite(),
        v.total_free == free_sectors(v.extents) * BLOCK_SIZE_U64,
        release_spec(v, start, size).0 is Ok,
    ensures
        ({
            let w = release_spec(v, start, size).1;
            &&& w.fragmentation_percent == fragmentation_of(
                w.total_free,
                (largest_sectors(w.extents) * BLOCK_SIZE_U64) as nat,
            )
            &&& w.fragmentation_percent <= 100
            &&& w.total_free == free_sectors(w.extents) * BLOCK_SIZE_U64
        }),
{
    let ext = v.extents;
    let p = adjacent_prev(ext, start);
    let n = adjacent_next(ext, start + size);
    let v1 = merge_removed(v, start, size);
    let (ms, msz) = merged_extent(ext, start, size);
    match p {
        Some(pk) => {
            if exists|j: u64| is_pred(ext, start, j) {
            }
            lemma_free_sectors_remove(ext, pk);
            assert(ext.remove(pk).dom() =~= ext.dom().remove(pk));
            match n {
                Some(e) => {
                    lemma_free_sectors_remove(ext.remove(pk), e);
                    assert(ext.remove(pk).remove(e).dom() =~= ext.remove(pk).dom().remove(e));
                },
                None => {},
            }
        },
        None => {
            match n {
                Some(e) => {
                    lemma_free_sectors_remove(ext, e);
                    assert(ext.remove(e).dom() =~= ext.dom().remove(e));
                },
                None => {},
            }
        },
    }
    assert(v1.extents.dom().finite());
    lemma_free_sectors_insert(v1.extents, ms, msz);
    let w = release_spec(v, start, size).1;
    assert(w.extents.dom().finite());
    lemma_largest_le_free_sectors(w.extents);
    lemma_fragmentation_at_most_100(w.total_free, (largest_sectors(w.extents) * BLOCK_SIZE_U64) as nat);
}

/// Releasing sectors that no free run holds, from separated runs, succeeds; it
/// adds exactly those sectors to the free space, keeps the runs separated (a run
/// ending at the range and one starting right after it merge with it into one),
/// and adds their bytes to the free byte count.
pub proof fn lemma_release_coalesces(v: FreeSpaceView, start: u64, size: u64)
    requires
        runs_valid(v),
        runs_apart(v.extents),
        start >= METADATA_BLOCK_SIZE,
        size > 0,
        start + size <= u64::MAX,
        valid_sector_range(v.persistence_size, start, size),
        range_clear(v.extents, start, size),
    ensures
        ({
            let (r, w) = release_spec(v, start, size);
            &&& r is Ok
            &&& runs_apart(w.extents)
            &&& free_set(w.extents) == free_set(v.extents) + sector_range(start as int, size as int)
            &&& w.total_free == v.total_free + size * BLOCK_SIZE_U64
            &&& w.persistence_size == v.persistence_size
            &&& runs_valid(w)
        }),
{
    let ext = v.extents;
    lemma_prev_facts(ext, start, size);
    let p = adjacent_prev(ext, start);
    let n = adjacent_next(ext, start + size);
    let v1 = merge_removed(v, start, size);
    let ext2 = v1.extents;
    let (ms, msz) = merged_extent(ext, start, size);
    let mend: int = match n {
        Some(e) => e + ext[e],
        None => start + size,
    };
    assert(ms + msz == mend);
    assert(ms <= start);
    assert(ms >= METADATA_BLOCK_SIZE);
    assert(msz > 0);
    assert(valid_free_space(v.persistence_size, ms, msz));
    // the merged run starts where no remaining run starts
    assert(!ext2.contains_key(ms)) by {
        if p is None {
            if ext2.contains_key(start) {
                assert(ext.contains_key(start));
            }
        }
    }
    let w0 = insert_spec(v1, ms, msz).1;
    let ext3 = ext2.insert(ms, msz);
    assert(w0.extents == ext3);
    // every remaining run lies before the merged run or after it, apart from it
    assert forall|b: u64| #[trigger] ext2.contains_key(b) implies (b < ms && b + ext[b] < ms) || (
    mend < b) by {
        assert(ext.contains_key(b));
        assert(ext2[b] == ext[b]);
        if b < start {
            match p {
                Some(pk) => {
                    assert(b != pk);
                    assert(b < pk);
                },
                None => {},
            }
        } else {
            assert(b != start) by {
                if b == start {
                    assert(start + size <= b);
                }
            }
            assert(start + size <= b);
            assert(b != start + size);
            match n {
                Some(e) => {
                    assert(e < b);
                },
                None => {},
            }
        }
    }
    assert forall|a: u64, b: u64|
        #[trigger] ext3.contains_key(a) && #[trigger] ext3.contains_key(b) && a < b implies a
        + ext3[a] < b by {
        if a == ms {
            assert(ext2.contains_key(b));
        } else if b == ms {
            assert(ext2.contains_key(a));
        } else {
            assert(ext.contains_key(a) && ext.contains_key(b));
        }
    }
    assert forall|x: int| #[trigger]
        free_set(ext3).contains(x) <==> (free_set(ext).contains(x) || sector_range(
            start as int,
            size as int,
        ).contains(x)) by {
        if free_set(ext3).contains(x) {
            let k = choose|k: u64| #[trigger] covers(ext3, k, x);
            if k == ms {
                if x < start {
                    let pk = p->Some_0;
                    assert(covers(ext, pk, x));
                } else if x >= start + size {
                    let e = n->Some_0;
                    assert(covers(ext, e, x));
                }
            } else {
                assert(covers(ext, k, x));
            }
        }
        if free_set(ext).contains(x) {
            let k = choose|k: u64| #[trigger] covers(ext, k, x);
            if ext2.contains_key(k) {
                assert(k != ms);
                assert(covers(ext3, k, x));
            } else {
                assert(covers(ext3, ms, x));
            }
        }
        if sector_range(start as int, size as int).contains(x) {
            assert(covers(ext3, ms, x));
        }
    }
    assert(free_set(ext3) =~= free_set(ext) + sector_range(start as int, size as int));
    assert(v1.total_free + msz * BLOCK_SIZE_U64 == v.total_free + size * BLOCK_SIZE_U64) by {
        match p {
            Some(pk) => {
                lemma_free_sectors_remove(ext, pk);
                match n {
                    Some(e) => {
                        lemma_extent_le_free_sectors(ext.remove(pk), e);
                    },
                    None => {},
                }
            },
            None => {
                match n {
                    Some(e) => {
                        lemma_extent_le_free_sectors(ext, e);
                    },
                    None => {},
                }
            },
        }
    }
    lemma_fragmentation_after_release(v, start, size);
    let w = release_spec(v, start, size).1;
    assert(w.extents == ext3);
    assert(ext3.dom().finite());
    assert forall|k: u64| #[trigger] ext3.contains_key(k) implies {
        &&& ext3[k] > 0
        &&& k + ext3[k] <= u64::MAX
        &&& valid_free_space(w.persistence_size, k, ext3[k])
    } by {
        if k != ms {
            assert(ext2.contains_key(k));
            assert(ext.contains_key(k));
        } else {
            match n {
                Some(e) => {
                    assert(ext.contains_key(e));
                },
                None => {},
            }
        }
    }
}

/// Allocating from separated runs takes exactly the returned sectors out of the
/// free space, keeps the runs separated and takes their bytes off the free byte
/// count.
pub proof fn lemma_allocate_takes(v: FreeSpaceView, sectors: u64)
    requires
        runs_valid(v),
        runs_apart(v.extents),
        allocate_spec(v, sectors).0 is Ok,
    ensures
        ({
            let (r, w) = allocate_spec(v, sectors);
            let s = r->Ok_0;
            &&& runs_apart(w.extents)
            &&& free_set(w.extents) == free_set(v.extents) - sector_range(s as int, sectors as int)
            &&& sector_range(s as int, sectors as int) <= free_set(v.extents)
            &&& w.total_free == v.total_free - sectors * BLOCK_SIZE_U64
            &&& runs_valid(w)
        }),
{
    let ext = v.extents;
    lemma_allocate_ok_facts(v, sectors);
    let k = best_fit(ext, sectors);
    let size = ext[k];
    let rest = ext.remove(k);
    lemma_extent_le_free_sectors(ext, k);
    let ext2 = allocate_spec(v, sectors).1.extents;
    assert forall|a: u64, b: u64|
        #[trigger] ext2.contains_key(a) && #[trigger] ext2.contains_key(b) && a < b implies a
        + ext2[a] < b by {
        if a == k + sectors {
            assert(ext.contains_key(b) && k < b);
        } else if b == k + sectors {
            assert(ext.contains_key(a));
            assert(a != k);
            if a > k {
                assert(k + ext[k] < a);
            }
        } else {
            assert(ext.contains_key(a) && ext.contains_key(b));
        }
    }
    assert forall|x: int| #[trigger]
        free_set(ext2).contains(x) <==> (free_set(ext).contains(x) && !sector_range(
            k as int,
            sectors as int,
        ).contains(x)) by {
        if free_set(ext2).contains(x) {
            let j = choose|j: u64| #[trigger] covers(ext2, j, x);
            if j == k + sectors && size > sectors {
                assert(covers(ext, k, x));
            } else {
                assert(covers(ext, j, x));
                assert(j != k);
                if j < k {
                    assert(j + ext[j] < k);
                } else {
                    assert(k + ext[k] < j);
                }
            }
        }
        if free_set(ext).contains(x) && !sector_range(k as int, sectors as int).contains(x) {
            let j = choose|j: u64| #[trigger] covers(ext, j, x);
            if j == k {
                assert(covers(ext2, (k + sectors) as u64, x));
            } else {
                assert(covers(ext2, j, x));
            }
        }
    }
    assert(free_set(ext2) =~= free_set(ext) - sector_range(k as int, sectors as int));
    assert forall|x: int| #[trigger] sector_range(k as int, sectors as int).contains(x) implies free_set(
        ext,
    ).contains(x) by {
        assert(covers(ext, k, x));
    }
    lemma_free_sectors_remove(ext, k);
    assert(rest.dom() =~= ext.dom().remove(k));
    if size > sectors {
        lemma_free_sectors_insert(rest, (k + sectors) as u64, (size - sectors) as u64);
    }
    assert(ext2.dom().finite());
}

/// Giving back at once the sectors that an allocation from separated runs has
/// just returned restores the runs and the free byte count; the fragmentation
/// figure is that of the restored runs.
pub proof fn lemma_allocate_release_round_trip(v: FreeSpaceView, sectors: u64)
    requires
        runs_valid(v),
        runs_apart(v.extents),
        allocate_spec(v, sectors).0 is Ok,
    ensures
        ({
            let (r, w) = allocate_spec(v, sectors);
            release_spec(w, r->Ok_0, sectors) == (Ok::<(), DbError>(()), refresh_fragmentation(v))
        }),
{
    let ext = v.extents;
    lemma_allocate_ok_facts(v, sectors);
    let k = best_fit(ext, sectors);
    let size = ext[k];
    lemma_extent_le_free_sectors(ext, k);
    let (r, w) = allocate_spec(v, sectors);
    let e1 = w.extents;
    assert(r == Ok::<u64, DbError>(k));
    assert(valid_sector_range(w.persistence_size, k, sectors));
    // no run of what is left ends at the returned start
    assert(adjacent_prev(e1, k) is None) by {
        if exists|j: u64| is_pred(e1, k, j) {
            let j = choose|j: u64| is_pred(e1, k, j);
            assert(ext.contains_key(j) && j < k);
        }
    }
    let v1 = merge_removed(w, k, sectors);
    if size > sectors {
        assert(adjacent_next(e1, k + sectors) == Some((k + sectors) as u64));
        assert(v1.extents =~= ext.remove(k));
    } else {
        assert(adjacent_next(e1, k + sectors) is None);
        assert(v1.extents =~= ext.remove(k));
    }
    assert(merged_extent(e1, k, sectors) == (k, size));
    assert(ext.remove(k).insert(k, size) =~= ext);
}

// ---------------------------------------------------------------------------
// The manager
// ---------------------------------------------------------------------------

impl View for FreeSpaceManager {
    type V = FreeSpaceView;

    closed spec fn view(&self) -> FreeSpaceView {
        FreeSpaceView {
            extents: self.by_start@.map_values(|s: SectorStat| s.size),
            total_free: self.total_free as nat,
            persistence_size: self.persistence_size,
            fragmentation_percent: self.fragmentation_percent,
        }
    }
}

impl FreeSpaceManager {
    /// The two indexes describe the same runs, every run is non-empty, lies past the
    /// metadata sectors and ends within 64-bit sector numbers, and the reported free
    /// byte count is the bytes of all free sectors.
    pub closed spec fn wf(&self) -> bool {
        &&& forall|k: u64| #[trigger]
            self.by_start@.contains_key(k) ==> {
                let s = self.by_start@[k];
                &&& s.start == k
                &&& s.size > 0
                &&& k >= METADATA_BLOCK_SIZE
                &&& k + s.size <= u64::MAX
                &&& self.by_size@.contains_key((s.size, k))
                &&& self.by_size@[(s.size, k)] == s
            }
        &&& forall|p: (u64, u64)| #[trigger]
            self.by_size@.contains_key(p) ==> self.by_start@.contains_key(p.1)
                && self.by_start@[p.1].size == p.0
        &&& free_sectors(self@.extents) * BLOCK_SIZE_U64 == self.total_free
    }

    /// What the model promises of a well-formed manager: every run is non-empty,
    /// past the metadata sectors, ends within 64-bit sector numbers, and the
    /// reported free bytes are the bytes of the free sectors.
    pub proof fn lemma_wf_view(&self)
        requires
            self.wf(),
        ensures
            self@.extents.dom().finite(),
            forall|k: u64| #[trigger]
                self@.extents.contains_key(k) ==> {
                    &&& self@.extents[k] > 0
                    &&& k >= METADATA_BLOCK_SIZE
                    &&& k + self@.extents[k] <= u64::MAX
                },
            free_sectors(self@.extents) * BLOCK_SIZE_U64 == self@.total_free,
            largest_sectors(self@.extents) * BLOCK_SIZE_U64 <= self@.total_free,
            self@.total_free <= u64::MAX,
    {
        assert(self@.extents.dom() =~= self.by_start@.dom());
        lemma_largest_le_free_sectors(self@.extents);
    }

    proof fn lemma_view_facts(&self)
        requires
            self.wf(),
        ensures
            self@.extents.dom() == self.by_start@.dom(),
            self@.extents.dom().finite(),
            forall|k: u64| #[trigger]
                self.by_start@.contains_key(k) ==> self@.extents[k] == self.by_start@[k].size,
    {
        assert(self@.extents.dom() =~= self.by_start@.dom());
    }

    pub fn new() -> (r: Self)
        ensures
            r.wf(),
            r@.extents == Map::<u64, u64>::empty(),
            r@.total_free == 0,
            r@.persistence_size == 0,
            r@.fragmentation_percent == 0,
    {
        let r = Self {
            by_size: BTreeMap::new(),
            by_start: BTreeMap::new(),
            total_free: 0,
            persistence_size: 0,
            fragmentation_percent: 0,
        };
        proof {
            assert(r@.extents =~= Map::<u64, u64>::empty());
            lemma_free_sectors_empty();
        }
        r
    }

    /// Sets up the free space of a fresh file: everything past the metadata
    /// sectors is one free run.
    pub fn initialize(&mut self, persistence_size: u64) -> (r: Result<(), DbError>)
        requires
            old(self).wf(),
            initialize_spec(old(self)@, persistence_size).1.total_free <= u64::MAX,
        ensures
            final(self).wf(),
            (r, final(self)@) == initialize_spec(old(self)@, persistence_size),
    {
        self.persistence_size = persistence_size;

        let total_sectors = persistence_size / BLOCK_SIZE_U64;

        if total_sectors <= METADATA_BLOCK_SIZE {
            return Err(DbError::InvalidDevice);
        }

        let free_sectors = total_sectors - METADATA_BLOCK_SIZE;
        let r = self.insert_free_space(SectorStat { start: METADATA_BLOCK_SIZE, size: free_sectors });
        match r {
            Ok(()) => Ok(()),
            Err(e) => Err(e),
        }
    }

    pub fn set_persistence_size(&mut self, persistence_size: u64)
        requires
            old(self).wf(),
        ensures
            final(self).wf(),
            final(self)@ == (FreeSpaceView { persistence_size, ..old(self)@ }),
    {
        self.persistence_size = persistence_size;
    }

    /// The best-fitting run for `sectors` sectors, if one is large enough.
    fn find_best_fit(&self, sectors: u64) -> (r: Option<SectorStat>)
        requires
            self.wf(),
        ensures
            match r {
                None => !has_fit(self@.extents, sectors),
                Some(s) => {
                    &&& is_best_fit(self@.extents, sectors, s.start)
                    &&& self.by_start@.contains_key(s.start)
                    &&& self.by_start@[s.start] == s
                },
            },
    {
        proof {
            self.lemma_view_facts();
        }
        let ghost ext = self@.extents;
        let mut best: Option<SectorStat> = None;
        for kv in it: self.by_start.iter()
            invariant
                self.wf(),
                ext == self@.extents,
                ext.dom() == self.by_start@.dom(),
                forall|k: u64| #[trigger]
                    self.by_start@.contains_key(k) ==> ext[k] == self.by_start@[k].size,
                forall|k: u64| #[trigger]
                    self.by_start@.contains_key(k) ==> it.seq().contains(
                        (&k, &self.by_start@[k]),
                    ),
                forall|i: int|
                    0 <= i < it.seq().len() ==> self.by_start@.contains_key(*(#[trigger] it.seq()[i]).0)
                        && self.by_start@[*it.seq()[i].0] == *it.seq()[i].1,
                match best {
                    None => forall|i: int|
                        0 <= i < it.index() ==> (#[trigger] it.seq()[i]).1.size < sectors,
                    Some(b) => {
                        &&& self.by_start@.contains_key(b.start)
                        &&& self.by_start@[b.start] == b
                        &&& b.size >= sectors
                        &&& forall|i: int|
                            0 <= i < it.index() && (#[trigger] it.seq()[i]).1.size >= sectors
                                ==> fits_before(ext, b.start, *it.seq()[i].0)
                    },
                },
                it.index() == it.seq().len() ==> match best {
                    None => !has_fit(ext, sectors),
                    Some(b) => is_best_fit(ext, sectors, b.start),
                },
        {
            let (_k, stat) = kv;
            if stat.size >= sectors {
                match best {
                    None => {
                        best = Some(*stat);
                    },
                    Some(b) => {
                        if stat.size < b.size || (stat.size == b.size && stat.start < b.start) {
                            best = Some(*stat);
                        }
                    },
                }
            }
        }
        best
    }

    /// Takes `sectors` sectors from the smallest free run that holds them and
    /// returns the first sector taken.
    pub fn allocate_sectors(&mut self, sectors: u64) -> (r: Result<u64, DbError>)
        requires
            old(self).wf(),
            allocate_fits(old(self)@, sectors),
        ensures
            final(self).wf(),
            (r, final(self)@) == allocate_spec(old(self)@, sectors),
            r matches Ok(s) ==> {
                &&& old(self)@.extents.contains_key(s)
                &&& old(self)@.extents[s] >= sectors
                &&& free_sectors(final(self)@.extents) + sectors == free_sectors(old(self)@.extents)
            },
    {
        if sectors == 0 {
            return Err(DbError::InvalidArgument);
        }
        proof {
            self.lemma_view_facts();
        }
        let ghost ext = self@.extents;
        let best_fit = self.find_best_fit(sectors);

        match best_fit {
            None => Err(DbError::OutOfSpace),
            Some(stat) => {
                proof {
                    lemma_best_fit_unique(ext, sectors, stat.start);
                }
                if !self.is_valid_free_space(&stat) {
                    return Err(DbError::CorruptedData);
                }
                proof {
                    lemma_extent_le_free_sectors(ext, stat.start);
                    lemma_free_sectors_remove(ext, stat.start);
                }
                self.btree_remover(&stat);

                let allocated_start = stat.start;

                if stat.size > sectors {
                    let remaining = SectorStat {
                        start: stat.start + sectors,
                        size: stat.size - sectors,
                    };

                    let ins = self.insert_free_space(remaining);
                    if let Err(e) = ins {
                        let _ = self.insert_free_space(stat);
                        proof {
                            assert(self@.extents =~= ext);
                        }
                        return Err(e);
                    }
                    proof {
                        lemma_free_sectors_insert(
                            ext.remove(stat.start),
                            remaining.start,
                            remaining.size,
                        );
                    }
                }
                proof {
                    self.lemma_wf_view();
                    lemma_largest_le_free_sectors(self@.extents);
                }
                self.update_fragmentation();

                Ok(allocated_start)
            },
        }
    }

    /// Returns `size` sectors from `start` to the free space, merged with the free
    /// runs around them.
    pub fn release_sectors(&mut self, start: u64, size: u64) -> (r: Result<(), DbError>)
        requires
            old(self).wf(),
            release_fits(old(self)@, start, size),
        ensures
            final(self).wf(),
            (r, final(self)@) == release_spec(old(self)@, start, size),
            r is Ok ==> free_sectors(final(self)@.extents) == free_sectors(old(self)@.extents)
                + size,
    {
        if start == 0 || size == 0 {
            return Err(DbError::InvalidArgument);
        }

        if !self.is_valid_sector_range(start, size) {
            return Err(DbError::InvalidArgument);
        }

        let merged = self.try_merge_spaces(start, size);
        let merged = match merged {
            Ok(m) => m,
            Err(e) => {
                return Err(e);
            },
        };

        proof {
            let ext = old(self)@.extents;
            let p = adjacent_prev(ext, start);
            let n = adjacent_next(ext, start + size);
            assert(self@.total_free + merged.size * BLOCK_SIZE_U64 <= old(self)@.total_free + size
                * BLOCK_SIZE_U64);
        }
        let ghost removed = self@.extents;
        let ins = self.insert_free_space(merged);
        if let Err(e) = ins {
            return Err(e);
        }
        proof {
            let a = free_sectors(self@.extents) as int;
            let b = free_sectors(old(self)@.extents) as int;
            assert(a == b + size) by (nonlinear_arith)
                requires
                    a * 4096 == b * 4096 + size * 4096,
            ;
        }

        self.update_fragmentation();

        Ok(())
    }

    /// Takes out the run that ends at `start` and the run that starts at
    /// `start + size`, and returns the run they merge into.
    fn try_merge_spaces(&mut self, start: u64, size: u64) -> (r: Result<SectorStat, DbError>)
        requires
            old(self).wf(),
            start + size <= u64::MAX,
        ensures
            final(self).wf(),
            final(self)@ == merge_removed(old(self)@, start, size),
            final(self)@.total_free + merged_extent(old(self)@.extents, start, size).1
                * BLOCK_SIZE_U64 == old(self)@.total_free + size * BLOCK_SIZE_U64,
            r == Ok::<SectorStat, DbError>(
                SectorStat {
                    start: merged_extent(old(self)@.extents, start, size).0,
                    size: merged_extent(old(self)@.extents, start, size).1,
                },
            ),
    {
        proof {
            self.lemma_view_facts();
        }
        let ghost ext = self@.extents;
        let end = start + size;
        let mut merged_start = start;
        let mut merged_size = size;

        let mut prev: Option<SectorStat> = None;

        let before = self.find_pred(start);
        if let Some(stat) = before {
            if stat.start + stat.size == start {
                prev = Some(stat);
            }
        }
        proof {
            match before {
                Some(s) => {
                    lemma_pred_unique(ext, start, s.start);
                },
                None => {},
            }
            assert(match adjacent_prev(ext, start) {
                Some(k) => prev == Some(self.by_start@[k]) && k == self.by_start@[k].start,
                None => prev is None,
            });
        }

        let next = match self.by_start.get(&end) {
            Some(s) => Some(*s),
            None => None,
        };
        proof {
            assert(match adjacent_next(ext, start + size) {
                Some(k) => next == Some(self.by_start@[k]) && k == end,
                None => next is None,
            });
        }

        if let Some(prev_stat) = prev {
            self.btree_remover(&prev_stat);

            merged_start = prev_stat.start;
            merged_size = prev_stat.size + size;
        }
        let ghost ext1 = self@.extents;

        if let Some(next_stat) = next {
            proof {
                self.lemma_view_facts();
                lemma_extent_le_free_sectors(ext, end);
            }
            self.btree_remover(&next_stat);
            proof {
                assert(merged_size + next_stat.size <= u64::MAX) by {
                    assert(ext.contains_key(end));
                    match prev {
                        Some(p) => {
                            assert(ext.contains_key(p.start));
                        },
                        None => {},
                    }
                }
            }
            merged_size = merged_size + next_stat.size;
        }
        proof {
            assert(self@.extents =~= merge_removed(old(self)@, start, size).extents);
        }

        Ok(SectorStat { start: merged_start, size: merged_size })
    }

    /// The last run that starts before sector `start`, if any.
    fn find_pred(&self, start: u64) -> (r: Option<SectorStat>)
        requires
            self.wf(),
        ensures
            match r {
                None => !exists|k: u64| is_pred(self@.extents, start, k),
                Some(s) => {
                    &&& is_pred(self@.extents, start, s.start)
                    &&& self.by_start@.contains_key(s.start)
                    &&& self.by_start@[s.start] == s
                },
            },
    {
        proof {
            self.lemma_view_facts();
        }
        let ghost ext = self@.extents;
        let mut found: Option<SectorStat> = None;
        for kv in it: self.by_start.iter()
            invariant
                self.wf(),
                ext == self@.extents,
                ext.dom() == self.by_start@.dom(),
                forall|k: u64| #[trigger]
                    self.by_start@.contains_key(k) ==> it.seq().contains(
                        (&k, &self.by_start@[k]),
                    ),
                forall|i: int|
                    0 <= i < it.seq().len() ==> self.by_start@.contains_key(*(#[trigger] it.seq()[i]).0)
                        && self.by_start@[*it.seq()[i].0] == *it.seq()[i].1,
                match found {
                    None => forall|i: int|
                        0 <= i < it.index() ==> *(#[trigger] it.seq()[i]).0 >= start,
                    Some(b) => {
                        &&& self.by_start@.contains_key(b.start)
                        &&& self.by_start@[b.start] == b
                        &&& b.start < start
                        &&& forall|i: int|
                            0 <= i < it.index() && *(#[trigger] it.seq()[i]).0 < start
                                ==> *it.seq()[i].0 <= b.start
                    },
                },
                it.index() == it.seq().len() ==> match found {
                    None => !exists|k: u64| is_pred(ext, start, k),
                    Some(b) => is_pred(ext, start, b.start),
                },
        {
            let (k, stat) = kv;
            if *k < start {
                match found {
                    None => {
                        found = Some(*stat);
                    },
                    Some(b) => {
                        if *k > b.start {
                            found = Some(*stat);
                        }
                    },
                }
            }
        }
        found
    }

    fn btree_remover(&mut self, stat: &SectorStat)
        requires
            old(self).wf(),
            old(self).by_start@.contains_key(stat.start),
            old(self).by_start@[stat.start] == *stat,
        ensures
            final(self).wf(),
            final(self)@ == (FreeSpaceView {
                extents: old(self)@.extents.remove(stat.start),
                total_free: (old(self)@.total_free - stat.size * BLOCK_SIZE_U64) as nat,
                ..old(self)@
            }),
            final(self)@.total_free == old(self)@.total_free - stat.size * BLOCK_SIZE_U64,
    {
        proof {
            self.lemma_view_facts();
            lemma_extent_le_free_sectors(self@.extents, stat.start);
            lemma_free_sectors_remove(self@.extents, stat.start);
        }
        let ghost ext = self@.extents;
        self.by_size.remove(&(stat.size, stat.start));
        self.by_start.remove(&stat.start);

        self.total_free = self.total_free - stat.size * BLOCK_SIZE_U64;
        proof {
            assert(self@.extents =~= ext.remove(stat.start));
        }
    }

    fn insert_free_space(&mut self, stat: SectorStat) -> (r: Result<(), DbError>)
        requires
            old(self).wf(),
            stat.start + stat.size <= u64::MAX,
            insert_spec(old(self)@, stat.start, stat.size).1.total_free <= u64::MAX,
        ensures
            final(self).wf(),
            (r, final(self)@) == insert_spec(old(self)@, stat.start, stat.size),
    {
        proof {
            self.lemma_view_facts();
        }
        if stat.size == 0 {
            return Err(DbError::InvalidArgument);
        }

        if !self.is_valid_free_space(&stat) {
            return Err(DbError::InvalidArgument);
        }

        if self.by_start.contains_key(&stat.start) {
            return Err(DbError::DuplicateKey);
        }
        let ghost ext = self@.extents;
        proof {
            lemma_free_sectors_insert(ext, stat.start, stat.size);
            if self.by_size@.contains_key((stat.size, stat.start)) {
                assert(self.by_start@.contains_key(stat.start));
            }
        }

        self.total_free = self.total_free + stat.size * BLOCK_SIZE_U64;

        self.by_size.insert((stat.size, stat.start), stat);
        self.by_start.insert(stat.start, stat);
        proof {
            assert(self@.extents =~= ext.insert(stat.start, stat.size));
        }

        Ok(())
    }

    fn is_valid_free_space(&self, stat: &SectorStat) -> (r: bool)
        requires
            stat.start + stat.size <= u64::MAX,
        ensures
            r == valid_free_space(self.persistence_size, stat.start, stat.size),
    {
        // reserved for metadata
        if stat.start < METADATA_BLOCK_SIZE {
            return false;
        }

        self.is_valid_sector_range(stat.start, stat.size)
    }

    fn is_valid_sector_range(&self, start: u64, count: u64) -> (r: bool)
        requires
            self.persistence_size > 0 && start < self.persistence_size / BLOCK_SIZE_U64 ==> start
                + count <= u64::MAX,
        ensures
            r == valid_sector_range(self.persistence_size, start, count),
    {
        if self.persistence_size > 0 {
            let persistence_sectors = self.persistence_size / BLOCK_SIZE_U64;

            if start >= persistence_sectors {
                return false;
            }
            if start + count > persistence_sectors {
                return false;
            }
        }

        true
    }

    fn update_fragmentation(&mut self)
        requires
            old(self).wf(),
            fragmentation_fits(old(self)@),
        ensures
            final(self).wf(),
            final(self)@ == refresh_fragmentation(old(self)@),
    {
        proof {
            self.lemma_wf_view();
        }
        if self.total_free == 0 {
            self.fragmentation_percent = 0;
            return;
        }

        let largest = self.get_largest_free_chunk();

        // Calculate fragmentation as percentage of free space not in largest chunk
        if self.total_free > 0 {
            let fragmented = self.total_free - largest;
            proof {
                assert((fragmented as int * 100) / (self.total_free as int) <= 100) by (nonlinear_arith)
                    requires
                        fragmented <= self.total_free,
                        self.total_free > 0,
                ;
            }
            self.fragmentation_percent = ((fragmented * 100) / self.total_free) as u32;
        }
    }

    /// The size in sectors of the largest run other than the ones starting at `a`
    /// and at `b`.
    fn largest_except(&self, a: Option<u64>, b: Option<u64>) -> (r: u64)
        requires
            self.wf(),
        ensures
            r == largest_sectors(drop_key(drop_key(self@.extents, a), b)),
    {
        proof {
            self.lemma_view_facts();
            self.lemma_wf_view();
        }
        let ghost ext = drop_key(drop_key(self@.extents, a), b);
        let mut largest: Option<SectorStat> = None;
        for kv in it: self.by_start.iter()
            invariant
                self.wf(),
                ext == drop_key(drop_key(self@.extents, a), b),
                self@.extents.dom() == self.by_start@.dom(),
                forall|k: u64| #[trigger]
                    self.by_start@.contains_key(k) ==> self@.extents[k] == self.by_start@[k].size,
                forall|k: u64| #[trigger]
                    self.by_start@.contains_key(k) ==> it.seq().contains(
                        (&k, &self.by_start@[k]),
                    ),
                forall|i: int|
                    0 <= i < it.seq().len() ==> self.by_start@.contains_key(*(#[trigger] it.seq()[i]).0)
                        && self.by_start@[*it.seq()[i].0] == *it.seq()[i].1,
                match largest {
                    None => forall|i: int|
                        0 <= i < it.index() ==> skipped(a, b, *(#[trigger] it.seq()[i]).0),
                    Some(bst) => {
                        &&& ext.contains_key(bst.start)
                        &&& self.by_start@[bst.start] == bst
                        &&& forall|i: int|
                            0 <= i < it.index() && !skipped(a, b, *(#[trigger] it.seq()[i]).0)
                                ==> it.seq()[i].1.size <= bst.size
                    },
                },
                it.index() == it.seq().len() ==> match largest {
                    None => ext.dom() =~= Set::<u64>::empty(),
                    Some(bst) => is_largest(ext, bst.start),
                },
        {
            let (k, stat) = kv;
            let skip = match a {
                Some(x) => *k == x,
                None => false,
            } || match b {
                Some(x) => *k == x,
                None => false,
            };
            if !skip {
                match largest {
                    None => {
                        largest = Some(*stat);
                    },
                    Some(bst) => {
                        if stat.size > bst.size {
                            largest = Some(*stat);
                        }
                    },
                }
            }
        }
        match largest {
            None => {
                proof {
                    lemma_largest_empty(ext);
                }
                0
            },
            Some(bst) => {
                proof {
                    lemma_largest_value(ext, bst.start);
                }
                bst.size
            },
        }
    }

    /// Whether allocating `sectors` sectors from this state stays within the
    /// margin of 64-bit arithmetic that `allocate_sectors` asks for.
    pub fn allocation_fits(&self, sectors: u64) -> (r: bool)
        requires
            self.wf(),
        ensures
            r == allocate_fits(self@, sectors),
    {
        proof {
            self.lemma_wf_view();
            self.lemma_view_facts();
        }
        if sectors == 0 {
            return true;
        }
        let ghost ext = self@.extents;
        match self.find_best_fit(sectors) {
            Some(stat) => {
                proof {
                    lemma_best_fit_unique(ext, sectors, stat.start);
                }
                if !self.is_valid_free_space(&stat) {
                    return true;
                }
                let k = stat.start;
                let size = stat.size;
                if size > sectors && self.by_start.contains_key(&(k + sectors)) {
                    return true;
                }
                let mut l = self.largest_except(Some(k), None);
                proof {
                    assert(drop_key(drop_key(ext, Some(k)), None) == ext.remove(k));
                    lemma_extent_le_free_sectors(ext, k);
                    if size > sectors {
                        assert(ext.remove(k).dom() =~= ext.dom().remove(k));
                        lemma_largest_insert(ext.remove(k), (k + sectors) as u64, (size - sectors) as u64);
                    }
                }
                if size > sectors && size - sectors > l {
                    l = size - sectors;
                }
                let t2 = self.total_free as u128 - sectors as u128 * 4096;
                let lb = l as u128 * 4096;
                if lb >= t2 {
                    true
                } else {
                    (t2 - lb) * 100 <= u64::MAX as u128
                }
            },
            None => true,
        }
    }

    /// Whether setting up a fresh file of `persistence_size` bytes keeps the free
    /// byte count within 64 bits.
    pub fn initialize_fits(&self, persistence_size: u64) -> (r: bool)
        ensures
            r == (initialize_spec(self@, persistence_size).1.total_free <= u64::MAX),
    {
        let total_sectors = persistence_size / BLOCK_SIZE_U64;
        if total_sectors <= METADATA_BLOCK_SIZE {
            return true;
        }
        let free_sectors = total_sectors - METADATA_BLOCK_SIZE;
        if self.by_start.contains_key(&METADATA_BLOCK_SIZE) {
            return true;
        }
        self.total_free as u128 + free_sectors as u128 * 4096 <= u64::MAX as u128
    }

    /// Whether releasing `size` sectors from `start` stays within the margin of
    /// 64-bit arithmetic that `release_sectors` asks for.
    pub fn release_fits_check(&self, start: u64, size: u64) -> (r: bool)
        requires
            self.wf(),
        ensures
            r == release_fits(self@, start, size),
    {
        proof {
            self.lemma_wf_view();
            self.lemma_view_facts();
        }
        let guard_end = self.persistence_size == 0 || start < self.persistence_size / BLOCK_SIZE_U64;
        if guard_end && start as u128 + size as u128 > u64::MAX as u128 {
            return false;
        }
        if start == 0 || size == 0 {
            return true;
        }
        if !self.is_valid_sector_range(start, size) {
            return true;
        }
        let ghost ext = self@.extents;
        let end = start + size;
        let before = self.find_pred(start);
        let mut prev: Option<SectorStat> = None;
        if let Some(st) = before {
            if st.start + st.size == start {
                prev = Some(st);
            }
        }
        let next = match self.by_start.get(&end) {
            Some(st) => Some(*st),
            None => None,
        };
        proof {
            match before {
                Some(st) => {
                    lemma_pred_unique(ext, start, st.start);
                },
                None => {},
            }
            assert(match adjacent_prev(ext, start) {
                Some(k) => prev == Some(self.by_start@[k]) && k == self.by_start@[k].start,
                None => prev is None,
            });
            assert(match adjacent_next(ext, start + size) {
                Some(k) => next == Some(self.by_start@[k]) && k == end,
                None => next is None,
            });
        }
        let ms = match prev {
            Some(p) => p.start,
            None => start,
        };
        let psize: u64 = match prev {
            Some(p) => p.size,
            None => 0,
        };
        let nsize: u64 = match next {
            Some(n) => n.size,
            None => 0,
        };
        let msz = psize + size + nsize;
        proof {
            assert(merged_extent(ext, start, size) == (ms, msz));
            assert(ms + msz <= u64::MAX);
        }
        let merged = SectorStat { start: ms, size: msz };
        if !self.is_valid_free_space(&merged) {
            return true;
        }
        if prev.is_none() && self.by_start.contains_key(&start) {
            return true;
        }
        if self.total_free as u128 + size as u128 * 4096 > u64::MAX as u128 {
            return false;
        }
        let pk = match prev {
            Some(p) => Some(p.start),
            None => None,
        };
        let nk = match next {
            Some(n) => Some(n.start),
            None => None,
        };
        let mut l = self.largest_except(pk, nk);
        proof {
            let v1 = merge_removed(self@, start, size);
            assert(v1.extents =~= drop_key(drop_key(ext, pk), nk));
            assert(!v1.extents.contains_key(ms));
            assert(v1.extents.dom().finite()) by {
                assert(v1.extents.dom() <= ext.dom());
                vstd::set_lib::lemma_len_subset(v1.extents.dom(), ext.dom());
            }
            lemma_largest_insert(v1.extents, ms, msz);
            match prev {
                Some(p) => {
                    lemma_free_sectors_remove(ext, p.start);
                    match next {
                        Some(n) => {
                            lemma_extent_le_free_sectors(ext.remove(p.start), n.start);
                        },
                        None => {},
                    }
                },
                None => {
                    match next {
                        Some(n) => {
                            lemma_extent_le_free_sectors(ext, n.start);
                        },
                        None => {},
                    }
                },
            }
            assert(release_spec(self@, start, size).1.total_free == self@.total_free + size
                * BLOCK_SIZE_U64);
        }
        if msz > l {
            l = msz;
        }
        let t2 = self.total_free as u128 + size as u128 * 4096;
        let lb = l as u128 * 4096;
        if lb >= t2 {
            true
        } else {
            (t2 - lb) * 100 <= u64::MAX as u128
        }
    }

    /// The size in bytes of the largest free run, or 0 when nothing is free.
    pub fn get_largest_free_chunk(&self) -> (r: u64)
        requires
            self.wf(),
        ensures
            r == largest_sectors(self@.extents) * BLOCK_SIZE_U64,
    {
        proof {
            self.lemma_view_facts();
            self.lemma_wf_view();
        }
        let ghost ext = self@.extents;
        let mut largest: Option<SectorStat> = None;
        for kv in it: self.by_start.iter()
            invariant
                self.wf(),
                ext == self@.extents,
                ext.dom() == self.by_start@.dom(),
                forall|k: u64| #[trigger]
                    self.by_start@.contains_key(k) ==> ext[k] == self.by_start@[k].size,
                forall|k: u64| #[trigger]
                    self.by_start@.contains_key(k) ==> it.seq().contains(
                        (&k, &self.by_start@[k]),
                    ),
                forall|i: int|
                    0 <= i < it.seq().len() ==> self.by_start@.contains_key(*(#[trigger] it.seq()[i]).0)
                        && self.by_start@[*it.seq()[i].0] == *it.seq()[i].1,
                match largest {
                    None => it.index() == 0,
                    Some(b) => {
                        &&& self.by_start@.contains_key(b.start)
                        &&& self.by_start@[b.start] == b
                        &&& forall|i: int|
                            0 <= i < it.index() ==> (#[trigger] it.seq()[i]).1.size <= b.size
                    },
                },
                it.index() == it.seq().len() ==> match largest {
                    None => ext.dom() =~= Set::<u64>::empty(),
                    Some(b) => is_largest(ext, b.start),
                },
        {
            let (_k, stat) = kv;
            match largest {
                None => {
                    largest = Some(*stat);
                },
                Some(b) => {
                    if stat.size > b.size {
                        largest = Some(*stat);
                    }
                },
            }
        }
        match largest {
            None => {
                proof {
                    lemma_largest_empty(ext);
                }
                0
            },
            Some(b) => {
                proof {
                    lemma_largest_value(ext, b.start);
                }
                b.size * BLOCK_SIZE_U64
            },
        }
    }

    /// The number of free runs.
    pub fn get_free_chunks_count(&self) -> (r: usize)
        requires
            self.wf(),
        ensures
            r == self@.extents.len(),
    {
        proof {
            self.lemma_view_facts();
        }
        self.by_start.len()
    }

    /// The free byte count.
    pub fn get_total_free(&self) -> (r: u64)
        ensures
            r == self@.total_free,
    {
        self.total_free
    }

    /// The fragmentation figure of the last allocation or release.
    pub fn get_fragmentation_percent(&self) -> (r: u32)
        ensures
            r == self@.fragmentation_percent,
    {
        self.fragmentation_percent
    }
}

impl Default for FreeSpaceManager {
    fn default() -> (r: Self)
        ensures
            r.wf(),
            r@.extents == Map::<u64, u64>::empty(),
            r@.total_free == 0,
            r@.persistence_size == 0,
            r@.fragmentation_percent == 0,
    {
        Self::new()
    }
}

} // verus!
