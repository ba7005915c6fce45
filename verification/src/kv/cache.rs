use bytes::Bytes;
use vstd::prelude::*;

use crate::constants::{
    CACHE_BUCKETS, CACHE_HIGH_WATERMARK_MB, CACHE_LOW_WATERMARK_MB, CACHE_MAX_SIZE, MAX_SCANS, MB,
};
use crate::kv::bucket::bucket_of;
use crate::utils::bytes_eq::bytes_eq;
use crate::utils::hash::murmur3_32;

verus! {

/// `bytes::Bytes`, a shared, immutable run of bytes.
#[verifier::external_type_specification]
#[verifier::external_body]
pub struct ExBytes(bytes::Bytes);

/// The bytes a `Bytes` holds.
pub uninterp spec fn bytes_contents(b: Bytes) -> Seq<u8>;

/// `Bytes::len`: the number of bytes held.
#[verifier::external_body]
pub(crate) fn bytes_len(b: &Bytes) -> (r: usize)
    ensures
        r == bytes_contents(*b).len(),
{
    b.len()
}

/// `Bytes::clone`: another handle on the same bytes.
#[verifier::external_body]
pub(crate) fn bytes_clone(b: &Bytes) -> (r: Bytes)
    ensures
        bytes_contents(r) == bytes_contents(*b),
{
    b.clone()
}

/// `Bytes::from(Vec<u8>)`: takes over the vector's bytes.
#[verifier::external_body]
pub(crate) fn bytes_from_vec(v: Vec<u8>) -> (r: Bytes)
    ensures
        bytes_contents(r) == v@,
{
    Bytes::from(v)
}

/// `Bytes::to_vec` (through its slice): a vector with a copy of the bytes.
#[verifier::external_body]
pub(crate) fn bytes_to_vec(b: &Bytes) -> (r: Vec<u8>)
    ensures
        r@ == bytes_contents(*b),
{
    b.to_vec()
}

/// The memory an entry is charged for apart from its key and value.
pub const CACHE_ENTRY_OVERHEAD: usize = 80;

/// The memory charged for an entry with a `key_len`-byte key and a `value_len`-byte value.
pub open spec fn entry_size(key_len: int, value_len: int) -> int {
    key_len + value_len + CACHE_ENTRY_OVERHEAD
}

broadcast use crate::kv::bucket::lemma_bucket_in_range;

struct CacheEntity {
    key: Vec<u8>,
    value: Bytes,
    reference_bit: bool,
    size: usize,
    access_count: u32,
}

spec fn bucket_bytes(b: Seq<CacheEntity>) -> nat
    decreases b.len(),
{
    if b.len() == 0 {
        0
    } else {
        bucket_bytes(b.drop_last()) + b.last().size as nat
    }
}

spec fn cache_bytes(bs: Seq<Seq<CacheEntity>>) -> nat
    decreases bs.len(),
{
    if bs.len() == 0 {
        0
    } else {
        cache_bytes(bs.drop_last()) + bucket_bytes(bs.last())
    }
}

spec fn entry_count(bs: Seq<Seq<CacheEntity>>) -> nat
    decreases bs.len(),
{
    if bs.len() == 0 {
        0
    } else {
        entry_count(bs.drop_last()) + bs.last().len()
    }
}

proof fn lemma_bucket_bytes_push(b: Seq<CacheEntity>, e: CacheEntity)
    ensures
        bucket_bytes(b.push(e)) == bucket_bytes(b) + e.size,
{
    assert(b.push(e).drop_last() =~= b);
}

proof fn lemma_bucket_bytes_update(b: Seq<CacheEntity>, j: int, e: CacheEntity)
    requires
        0 <= j < b.len(),
    ensures
        bucket_bytes(b.update(j, e)) + b[j].size == bucket_bytes(b) + e.size,
    decreases b.len(),
{
    if j == b.len() - 1 {
        assert(b.update(j, e).drop_last() =~= b.drop_last());
    } else {
        assert(b.update(j, e).drop_last() =~= b.drop_last().update(j, e));
        lemma_bucket_bytes_update(b.drop_last(), j, e);
    }
}

proof fn lemma_bucket_bytes_remove(b: Seq<CacheEntity>, j: int)
    requires
        0 <= j < b.len(),
    ensures
        bucket_bytes(b.remove(j)) + b[j].size == bucket_bytes(b),
    decreases b.len(),
{
    if j == b.len() - 1 {
        assert(b.remove(j) =~= b.drop_last());
    } else {
        assert(b.remove(j).drop_last() =~= b.drop_last().remove(j));
        lemma_bucket_bytes_remove(b.drop_last(), j);
    }
}

proof fn lemma_bucket_bytes_ge(b: Seq<CacheEntity>, j: int)
    requires
        0 <= j < b.len(),
    ensures
        b[j].size <= bucket_bytes(b),
{
    lemma_bucket_bytes_remove(b, j);
}

proof fn lemma_bucket_bytes_ge_len(b: Seq<CacheEntity>)
    requires
        forall|j: int| 0 <= j < b.len() ==> (#[trigger] b[j]).size >= 1,
    ensures
        b.len() <= bucket_bytes(b),
    decreases b.len(),
{
    if b.len() > 0 {
        lemma_bucket_bytes_ge_len(b.drop_last());
    }
}

proof fn lemma_bucket_bytes_empty(b: Seq<CacheEntity>)
    requires
        bucket_bytes(b) == 0,
        forall|j: int| 0 <= j < b.len() ==> (#[trigger] b[j]).size >= 1,
    ensures
        b.len() == 0,
{
    lemma_bucket_bytes_ge_len(b);
}

proof fn lemma_cache_bytes_update(bs: Seq<Seq<CacheEntity>>, i: int, nb: Seq<CacheEntity>)
    requires
        0 <= i < bs.len(),
    ensures
        cache_bytes(bs.update(i, nb)) + bucket_bytes(bs[i]) == cache_bytes(bs) + bucket_bytes(
            nb,
        ),
        entry_count(bs.update(i, nb)) + bs[i].len() == entry_count(bs) + nb.len(),
    decreases bs.len(),
{
    if i == bs.len() - 1 {
        assert(bs.update(i, nb).drop_last() =~= bs.drop_last());
    } else {
        assert(bs.update(i, nb).drop_last() =~= bs.drop_last().update(i, nb));
        lemma_cache_bytes_update(bs.drop_last(), i, nb);
    }
}

proof fn lemma_cache_bytes_ge(bs: Seq<Seq<CacheEntity>>, i: int)
    requires
        0 <= i < bs.len(),
    ensures
        bucket_bytes(bs[i]) <= cache_bytes(bs),
    decreases bs.len(),
{
    if i < bs.len() - 1 {
        lemma_cache_bytes_ge(bs.drop_last(), i);
    }
}

proof fn lemma_cache_bytes_zero(bs: Seq<Seq<CacheEntity>>, i: int)
    requires
        0 <= i < bs.len(),
        cache_bytes(bs) == 0,
    ensures
        bucket_bytes(bs[i]) == 0,
{
    lemma_cache_bytes_ge(bs, i);
}

proof fn lemma_entry_count_le_bytes(bs: Seq<Seq<CacheEntity>>)
    requires
        forall|i: int, j: int|
            0 <= i < bs.len() && 0 <= j < bs[i].len() ==> (#[trigger] bs[i][j]).size >= 1,
    ensures
        entry_count(bs) <= cache_bytes(bs),
    decreases bs.len(),
{
    if bs.len() > 0 {
        let last = bs.last();
        assert forall|j: int| 0 <= j < last.len() implies (#[trigger] last[j]).size >= 1 by {
            assert(bs[bs.len() - 1][j] == last[j]);
        }
        lemma_bucket_bytes_ge_len(last);
        assert forall|i: int, j: int|
            0 <= i < bs.drop_last().len() && 0 <= j < bs.drop_last()[i].len() implies (
            #[trigger] bs.drop_last()[i][j]).size >= 1 by {
            assert(bs.drop_last()[i] == bs[i]);
        }
        lemma_entry_count_le_bytes(bs.drop_last());
    }
}

proof fn lemma_count_le_bytes_scaled(bs: Seq<Seq<CacheEntity>>)
    requires
        forall|i: int, j: int|
            0 <= i < bs.len() && 0 <= j < bs[i].len() ==> (#[trigger] bs[i][j]).size
                >= CACHE_ENTRY_OVERHEAD,
    ensures
        entry_count(bs) * CACHE_ENTRY_OVERHEAD <= cache_bytes(bs),
    decreases bs.len(),
{
    if bs.len() > 0 {
        let last = bs.last();
        assert forall|i: int, j: int|
            0 <= i < bs.drop_last().len() && 0 <= j < bs.drop_last()[i].len() implies (
            #[trigger] bs.drop_last()[i][j]).size >= CACHE_ENTRY_OVERHEAD by {
            assert(bs.drop_last()[i] == bs[i]);
        }
        lemma_count_le_bytes_scaled(bs.drop_last());
        lemma_bucket_bytes_scaled(last);
    }
}

proof fn lemma_bucket_bytes_scaled(b: Seq<CacheEntity>)
    requires
        forall|j: int| 0 <= j < b.len() ==> (#[trigger] b[j]).size >= CACHE_ENTRY_OVERHEAD,
    ensures
        b.len() * CACHE_ENTRY_OVERHEAD <= bucket_bytes(b),
    decreases b.len(),
{
    if b.len() > 0 {
        lemma_bucket_bytes_scaled(b.drop_last());
    }
}

proof fn lemma_entry_count_prefix(bs: Seq<Seq<CacheEntity>>, n: int)
    requires
        0 <= n < bs.len(),
    ensures
        entry_count(bs.subrange(0, n + 1)) == entry_count(bs.subrange(0, n)) + bs[n].len(),
        entry_count(bs.subrange(0, n + 1)) <= entry_count(bs),
    decreases bs.len(),
{
    assert(bs.subrange(0, n + 1).drop_last() =~= bs.subrange(0, n));
    if n + 1 < bs.len() {
        lemma_entry_count_prefix(bs.drop_last(), n);
        assert(bs.drop_last().subrange(0, n + 1) =~= bs.subrange(0, n + 1));
    } else {
        assert(bs.subrange(0, n + 1) =~= bs);
    }
}

/// Keys of a bucket are distinct.
spec fn distinct_keys(b: Seq<CacheEntity>) -> bool {
    forall|j1: int, j2: int|
        0 <= j1 < b.len() && 0 <= j2 < b.len() && j1 != j2 ==> (#[trigger] b[j1]).key@ != (
        #[trigger] b[j2]).key@
}

/// Bucket `i` holds only keys of bucket `i`, each once, each charged by its size.
spec fn bucket_ok(i: int, b: Seq<CacheEntity>) -> bool {
    &&& forall|j: int| 0 <= j < b.len() ==> entry_ok(i, #[trigger] b[j])
    &&& distinct_keys(b)
}

spec fn holds_in(b: Seq<CacheEntity>, k: Seq<u8>) -> bool {
    exists|j: int| 0 <= j < b.len() && (#[trigger] b[j]).key@ == k
}

spec fn slot_in(b: Seq<CacheEntity>, k: Seq<u8>) -> int {
    choose|j: int| 0 <= j < b.len() && (#[trigger] b[j]).key@ == k
}

/// The keys and values a bucket holds.
spec fn bucket_map(b: Seq<CacheEntity>) -> Map<Seq<u8>, Seq<u8>> {
    Map::new(|k: Seq<u8>| holds_in(b, k), |k: Seq<u8>| bytes_contents(b[slot_in(b, k)].value))
}

/// The keys and values all buckets hold.
spec fn contents_of(bs: Seq<Seq<CacheEntity>>) -> Map<Seq<u8>, Seq<u8>> {
    Map::new(
        |k: Seq<u8>| bucket_map(bs[bucket_of(k)]).contains_key(k),
        |k: Seq<u8>| bucket_map(bs[bucket_of(k)])[k],
    )
}

proof fn lemma_bucket_map_at(b: Seq<CacheEntity>, j: int)
    requires
        distinct_keys(b),
        0 <= j < b.len(),
    ensures
        bucket_map(b).contains_key(b[j].key@),
        bucket_map(b)[b[j].key@] == bytes_contents(b[j].value),
{
    let k = b[j].key@;
    assert(holds_in(b, k));
    let s = slot_in(b, k);
    if s != j {
        assert(b[s].key@ != b[j].key@);
    }
}

proof fn lemma_bucket_map_remove(b: Seq<CacheEntity>, j: int)
    requires
        distinct_keys(b),
        0 <= j < b.len(),
    ensures
        distinct_keys(b.remove(j)),
        bucket_map(b.remove(j)) == bucket_map(b).remove(b[j].key@),
{
    let nb = b.remove(j);
    let k0 = b[j].key@;
    assert forall|j1: int, j2: int|
        0 <= j1 < nb.len() && 0 <= j2 < nb.len() && j1 != j2 implies (#[trigger] nb[j1]).key@
        != (#[trigger] nb[j2]).key@ by {
        let a = if j1 < j { j1 } else { j1 + 1 };
        let c = if j2 < j { j2 } else { j2 + 1 };
        assert(nb[j1] == b[a] && nb[j2] == b[c]);
    }
    assert forall|k: Seq<u8>|
        #![trigger bucket_map(nb).contains_key(k)]
        bucket_map(nb).contains_key(k) == bucket_map(b).remove(k0).contains_key(k) && (
        bucket_map(nb).contains_key(k) ==> bucket_map(nb)[k] == bucket_map(b).remove(k0)[k]) by {
        if holds_in(nb, k) {
            let s = slot_in(nb, k);
            let a = if s < j { s } else { s + 1 };
            assert(nb[s] == b[a]);
            lemma_bucket_map_at(b, a);
            lemma_bucket_map_at(nb, s);
            assert(a != j);
        }
        if holds_in(b, k) && k != k0 {
            let s = slot_in(b, k);
            assert(s != j);
            let a = if s < j { s } else { s - 1 };
            assert(nb[a] == b[s]);
            assert(holds_in(nb, k));
        }
    }
    assert(bucket_map(nb) =~= bucket_map(b).remove(k0));
}

proof fn lemma_bucket_map_push(b: Seq<CacheEntity>, e: CacheEntity)
    requires
        distinct_keys(b),
        !bucket_map(b).contains_key(e.key@),
    ensures
        distinct_keys(b.push(e)),
        bucket_map(b.push(e)) == bucket_map(b).insert(e.key@, bytes_contents(e.value)),
{
    let nb = b.push(e);
    assert forall|j1: int, j2: int|
        0 <= j1 < nb.len() && 0 <= j2 < nb.len() && j1 != j2 implies (#[trigger] nb[j1]).key@
        != (#[trigger] nb[j2]).key@ by {
        if j1 == b.len() {
            assert(holds_in(b, nb[j2].key@) || nb[j2].key@ != e.key@);
        } else if j2 == b.len() {
            assert(holds_in(b, nb[j1].key@) || nb[j1].key@ != e.key@);
        }
    }
    lemma_bucket_map_at(nb, b.len() as int);
    assert forall|k: Seq<u8>|
        #![trigger bucket_map(nb).contains_key(k)]
        bucket_map(nb).contains_key(k) == bucket_map(b).insert(e.key@, bytes_contents(e.value)).contains_key(k)
        && (bucket_map(nb).contains_key(k) ==> bucket_map(nb)[k] == bucket_map(b).insert(
        e.key@,
        bytes_contents(e.value),
    )[k]) by {
        if holds_in(nb, k) && k != e.key@ {
            let s = slot_in(nb, k);
            assert(s < b.len());
            assert(nb[s] == b[s]);
            lemma_bucket_map_at(b, s);
            lemma_bucket_map_at(nb, s);
        }
        if holds_in(b, k) {
            let s = slot_in(b, k);
            assert(nb[s] == b[s]);
            assert(holds_in(nb, k));
        }
    }
    assert(bucket_map(nb) =~= bucket_map(b).insert(e.key@, bytes_contents(e.value)));
}

proof fn lemma_bucket_map_update(b: Seq<CacheEntity>, j: int, e: CacheEntity)
    requires
        distinct_keys(b),
        0 <= j < b.len(),
        e.key@ == b[j].key@,
    ensures
        distinct_keys(b.update(j, e)),
        bucket_map(b.update(j, e)) == bucket_map(b).insert(e.key@, bytes_contents(e.value)),
{
    let nb = b.update(j, e);
    assert forall|j1: int, j2: int|
        0 <= j1 < nb.len() && 0 <= j2 < nb.len() && j1 != j2 implies (#[trigger] nb[j1]).key@
        != (#[trigger] nb[j2]).key@ by {
        assert(nb[j1].key@ == b[j1].key@ && nb[j2].key@ == b[j2].key@);
    }
    lemma_bucket_map_at(nb, j);
    assert forall|k: Seq<u8>|
        #![trigger bucket_map(nb).contains_key(k)]
        bucket_map(nb).contains_key(k) == bucket_map(b).insert(e.key@, bytes_contents(e.value)).contains_key(k)
        && (bucket_map(nb).contains_key(k) ==> bucket_map(nb)[k] == bucket_map(b).insert(
        e.key@,
        bytes_contents(e.value),
    )[k]) by {
        if holds_in(nb, k) && k != e.key@ {
            let s = slot_in(nb, k);
            assert(s != j);
            lemma_bucket_map_at(b, s);
            lemma_bucket_map_at(nb, s);
        }
        if holds_in(b, k) {
            let s = slot_in(b, k);
            assert(nb[s].key@ == b[s].key@);
            assert(holds_in(nb, k));
        }
    }
    assert(bucket_map(nb) =~= bucket_map(b).insert(e.key@, bytes_contents(e.value)));
}

proof fn lemma_contents_replace(bs: Seq<Seq<CacheEntity>>, i: int, nb: Seq<CacheEntity>)
    requires
        0 <= i < bs.len(),
        bs.len() == CACHE_BUCKETS,
    ensures
        forall|k: Seq<u8>|
            bucket_of(k) != i ==> (#[trigger] contents_of(bs.update(i, nb)).contains_key(k)
                == contents_of(bs).contains_key(k)),
        forall|k: Seq<u8>|
            bucket_of(k) != i && contents_of(bs).contains_key(k) ==> (#[trigger] contents_of(
                bs.update(i, nb),
            )[k] == contents_of(bs)[k]),
        forall|k: Seq<u8>|
            bucket_of(k) == i ==> (#[trigger] contents_of(bs.update(i, nb)).contains_key(k)
                == bucket_map(nb).contains_key(k)),
        forall|k: Seq<u8>|
            bucket_of(k) == i && bucket_map(nb).contains_key(k) ==> (#[trigger] contents_of(
                bs.update(i, nb),
            )[k] == bucket_map(nb)[k]),
{
    let nbs = bs.update(i, nb);
    assert forall|k: Seq<u8>| bucket_of(k) != i implies nbs[bucket_of(k)] == bs[bucket_of(k)] by {}
    assert forall|k: Seq<u8>| bucket_of(k) == i implies nbs[bucket_of(k)] == nb by {}
}

proof fn lemma_contents_remove(bs: Seq<Seq<CacheEntity>>, i: int, nb: Seq<CacheEntity>, k0: Seq<u8>)
    requires
        0 <= i < bs.len(),
        bs.len() == CACHE_BUCKETS,
        bucket_of(k0) == i,
        bucket_map(nb) == bucket_map(bs[i]).remove(k0),
    ensures
        contents_of(bs.update(i, nb)) == contents_of(bs).remove(k0),
{
    lemma_contents_replace(bs, i, nb);
    assert(contents_of(bs.update(i, nb)) =~= contents_of(bs).remove(k0));
}

proof fn lemma_contents_insert(
    bs: Seq<Seq<CacheEntity>>,
    i: int,
    nb: Seq<CacheEntity>,
    k0: Seq<u8>,
    v: Seq<u8>,
)
    requires
        0 <= i < bs.len(),
        bs.len() == CACHE_BUCKETS,
        bucket_of(k0) == i,
        bucket_map(nb) == bucket_map(bs[i]).insert(k0, v),
    ensures
        contents_of(bs.update(i, nb)) == contents_of(bs).insert(k0, v),
{
    lemma_contents_replace(bs, i, nb);
    assert(contents_of(bs.update(i, nb)) =~= contents_of(bs).insert(k0, v));
}

/// An entry that may sit in bucket `i`.
spec fn entry_ok(i: int, e: CacheEntity) -> bool {
    &&& bucket_of(e.key@) == i
    &&& e.size == entry_size(e.key.len() as int, bytes_contents(e.value).len() as int)
}

proof fn lemma_bucket_ok_remove(i: int, b: Seq<CacheEntity>, j: int)
    requires
        bucket_ok(i, b),
        0 <= j < b.len(),
    ensures
        bucket_ok(i, b.remove(j)),
        bucket_map(b.remove(j)) == bucket_map(b).remove(b[j].key@),
        bucket_bytes(b.remove(j)) + b[j].size == bucket_bytes(b),
        bucket_map(b).contains_key(b[j].key@),
        bucket_map(b)[b[j].key@] == bytes_contents(b[j].value),
{
    lemma_bucket_map_remove(b, j);
    lemma_bucket_bytes_remove(b, j);
    lemma_bucket_map_at(b, j);
    let nb = b.remove(j);
    assert forall|jj: int| 0 <= jj < nb.len() implies entry_ok(i, #[trigger] nb[jj]) by {
        if jj < j {
            assert(nb[jj] == b[jj]);
        } else {
            assert(nb[jj] == b[jj + 1]);
        }
    }
}

proof fn lemma_bucket_ok_push(i: int, b: Seq<CacheEntity>, e: CacheEntity)
    requires
        bucket_ok(i, b),
        entry_ok(i, e),
        !bucket_map(b).contains_key(e.key@),
    ensures
        bucket_ok(i, b.push(e)),
        bucket_map(b.push(e)) == bucket_map(b).insert(e.key@, bytes_contents(e.value)),
        bucket_bytes(b.push(e)) == bucket_bytes(b) + e.size,
{
    lemma_bucket_map_push(b, e);
    lemma_bucket_bytes_push(b, e);
    let nb = b.push(e);
    assert forall|jj: int| 0 <= jj < nb.len() implies entry_ok(i, #[trigger] nb[jj]) by {
        if jj < b.len() {
            assert(nb[jj] == b[jj]);
        }
    }
}

proof fn lemma_bucket_ok_update(i: int, b: Seq<CacheEntity>, j: int, e: CacheEntity)
    requires
        bucket_ok(i, b),
        0 <= j < b.len(),
        entry_ok(i, e),
        e.key@ == b[j].key@,
    ensures
        bucket_ok(i, b.update(j, e)),
        bucket_map(b.update(j, e)) == bucket_map(b).insert(e.key@, bytes_contents(e.value)),
        bucket_bytes(b.update(j, e)) + b[j].size == bucket_bytes(b) + e.size,
        bucket_map(b).contains_key(b[j].key@),
        bucket_map(b)[b[j].key@] == bytes_contents(b[j].value),
{
    lemma_bucket_map_update(b, j, e);
    lemma_bucket_bytes_update(b, j, e);
    lemma_bucket_map_at(b, j);
    let nb = b.update(j, e);
    assert forall|jj: int| 0 <= jj < nb.len() implies entry_ok(i, #[trigger] nb[jj]) by {
        if jj != j {
            assert(nb[jj] == b[jj]);
        }
    }
}

proof fn lemma_all_empty_sums(bs: Seq<Seq<CacheEntity>>)
    requires
        forall|i: int| 0 <= i < bs.len() ==> (#[trigger] bs[i]).len() == 0,
    ensures
        cache_bytes(bs) == 0,
        entry_count(bs) == 0,
    decreases bs.len(),
{
    if bs.len() > 0 {
        lemma_all_empty_sums(bs.drop_last());
    }
}

proof fn lemma_all_empty(bs: Seq<Seq<CacheEntity>>)
    requires
        bs.len() == CACHE_BUCKETS,
        forall|i: int| 0 <= i < bs.len() ==> (#[trigger] bs[i]).len() == 0,
    ensures
        cache_bytes(bs) == 0,
        entry_count(bs) == 0,
        contents_of(bs) == Map::<Seq<u8>, Seq<u8>>::empty(),
{
    lemma_all_empty_sums(bs);
    assert forall|k: Seq<u8>| !(#[trigger] contents_of(bs).contains_key(k)) by {
        let b = bs[bucket_of(k)];
        if holds_in(b, k) {
            let j = slot_in(b, k);
        }
    }
    assert(contents_of(bs) =~= Map::<Seq<u8>, Seq<u8>>::empty());
}

/// The state of the cache: what it holds and what it counts.
pub struct CacheView {
    /// Cached values by key.
    pub entries: Map<Seq<u8>, Seq<u8>>,
    /// Bytes charged for the entries.
    pub memory_usage: nat,
    pub high_watermark: usize,
    pub low_watermark: usize,
    /// Entries evicted so far, modulo 2^64.
    pub evictions: u64,
    /// The number of entries.
    pub entry_count: nat,
}

/// A cache of recently read values in hashed buckets, evicted by the CLOCK policy
/// once its usage passes the high watermark.
pub struct Cache {
    buckets: Vec<Vec<CacheEntity>>,
    clock_hand: usize,
    high_watermark: usize,
    low_watermark: usize,
    memory_usage: usize,
    evictions: u64,
}

impl View for Cache {
    type V = CacheView;

    closed spec fn view(&self) -> CacheView {
        CacheView {
            entries: contents_of(self.bseq()),
            memory_usage: self.memory_usage as nat,
            high_watermark: self.high_watermark,
            low_watermark: self.low_watermark,
            evictions: self.evictions,
            entry_count: entry_count(self.bseq()),
        }
    }
}

impl Cache {
    /// The buckets as sequences of entries.
    closed spec fn bseq(&self) -> Seq<Seq<CacheEntity>> {
        self.buckets@.map_values(|b: Vec<CacheEntity>| b@)
    }

    /// Every bucket is well formed, the usage is the sum of the charges, the low
    /// watermark is at most the high one, and the usage stays within the high
    /// watermark plus the largest entry that is cached (a quarter of it).
    pub closed spec fn wf(&self) -> bool {
        &&& self.wf_core()
        &&& self.memory_usage <= self.high_watermark + self.high_watermark / 4
    }

    /// Everything `wf` asks but the bound on the usage.
    closed spec fn wf_core(&self) -> bool {
        &&& self.buckets@.len() == CACHE_BUCKETS
        &&& forall|i: int| 0 <= i < CACHE_BUCKETS ==> bucket_ok(i, #[trigger] self.bseq()[i])
        &&& self.memory_usage == cache_bytes(self.bseq())
        &&& self.high_watermark <= CACHE_MAX_SIZE
        &&& self.low_watermark <= self.high_watermark
    }

    /// The high watermark of a well-formed cache is at most the cache size limit,
    /// the low one at most the high one, and the usage at most the high watermark
    /// plus a quarter of it.
    pub proof fn lemma_watermark_bound(&self)
        requires
            self.wf(),
        ensures
            self@.high_watermark <= CACHE_MAX_SIZE,
            self@.low_watermark <= self@.high_watermark,
            self@.memory_usage <= self@.high_watermark + self@.high_watermark / 4,
    {
    }
}

proof fn lemma_bseq_update(
    v: Seq<Vec<CacheEntity>>,
    w: Seq<Vec<CacheEntity>>,
    idx: int,
    nb: Seq<CacheEntity>,
)
    requires
        v.len() == w.len(),
        0 <= idx < v.len(),
        forall|i: int| 0 <= i < v.len() && i != idx ==> #[trigger] w[i] == v[i],
        w[idx]@ == nb,
    ensures
        w.map_values(|b: Vec<CacheEntity>| b@) == v.map_values(|b: Vec<CacheEntity>| b@).update(
            idx,
            nb,
        ),
{
    assert(w.map_values(|b: Vec<CacheEntity>| b@) =~= v.map_values(|b: Vec<CacheEntity>| b@).update(
        idx,
        nb,
    ));
}

impl Cache {
    proof fn lemma_wf_after_replace(self, old_bs: Seq<Seq<CacheEntity>>, idx: int, nb: Seq<CacheEntity>)
        requires
            old_bs.len() == CACHE_BUCKETS,
            0 <= idx < CACHE_BUCKETS,
            forall|i: int| 0 <= i < CACHE_BUCKETS ==> bucket_ok(i, #[trigger] old_bs[i]),
            bucket_ok(idx, nb),
            self.buckets@.len() == CACHE_BUCKETS,
            self.bseq() == old_bs.update(idx, nb),
            self.memory_usage + bucket_bytes(old_bs[idx]) == cache_bytes(old_bs) + bucket_bytes(nb),
            self.high_watermark <= CACHE_MAX_SIZE,
            self.low_watermark <= self.high_watermark,
        ensures
            self.wf_core(),
    {
        lemma_cache_bytes_update(old_bs, idx, nb);
        assert forall|i: int| 0 <= i < CACHE_BUCKETS implies bucket_ok(
            i,
            #[trigger] self.bseq()[i],
        ) by {
            if i != idx {
                assert(self.bseq()[i] == old_bs[i]);
            }
        }
    }

    pub fn new() -> (r: Self)
        ensures
            r.wf(),
            r@.entries == Map::<Seq<u8>, Seq<u8>>::empty(),
            r@.memory_usage == 0,
            r@.high_watermark == CACHE_HIGH_WATERMARK_MB * MB,
            r@.low_watermark == CACHE_LOW_WATERMARK_MB * MB,
            r@.evictions == 0,
            r@.entry_count == 0,
    {
        let mut buckets: Vec<Vec<CacheEntity>> = Vec::new();
        let mut i: usize = 0;
        while i < CACHE_BUCKETS
            invariant
                i <= CACHE_BUCKETS,
                buckets@.len() == i,
                forall|j: int| 0 <= j < i ==> (#[trigger] buckets@[j])@.len() == 0,
                cache_bytes(buckets@.map_values(|b: Vec<CacheEntity>| b@)) == 0,
                entry_count(buckets@.map_values(|b: Vec<CacheEntity>| b@)) == 0,
            decreases CACHE_BUCKETS - i,
        {
            let ghost before = buckets@;
            buckets.push(Vec::new());
            proof {
                assert(buckets@.map_values(|b: Vec<CacheEntity>| b@).drop_last() =~= before.map_values(
                    |b: Vec<CacheEntity>| b@,
                ));
            }
            i = i + 1;
        }
        let r = Self {
            buckets,
            clock_hand: 0,
            high_watermark: CACHE_HIGH_WATERMARK_MB * MB,
            low_watermark: CACHE_LOW_WATERMARK_MB * MB,
            memory_usage: 0,
            evictions: 0,
        };
        proof {
            assert forall|i: int| 0 <= i < CACHE_BUCKETS implies bucket_ok(
                i,
                #[trigger] r.bseq()[i],
            ) by {}
            assert(r@.entries =~= Map::<Seq<u8>, Seq<u8>>::empty());
        }
        r
    }

    fn get_bucket_idx(key: &[u8]) -> (r: usize)
        ensures
            r == bucket_of(key@),
            r < CACHE_BUCKETS,
    {
        let hash = murmur3_32(key, 0);
        proof {
            reveal(bucket_of);
        }
        (hash as usize) % CACHE_BUCKETS
    }

    /// The cached value of `key`, if any; marks the entry as recently used.
    pub fn get(&mut self, key: &[u8]) -> (r: Option<Bytes>)
        requires
            old(self).wf(),
        ensures
            final(self).wf(),
            final(self)@ == old(self)@,
            match r {
                Some(b) => old(self)@.entries.contains_key(key@) && bytes_contents(b) == old(
                    self,
                )@.entries[key@],
                None => !old(self)@.entries.contains_key(key@),
            },
    {
        let bucket_idx = Self::get_bucket_idx(key);
        let ghost bv = self.buckets@;
        let ghost bs = self.bseq();
        let mut bucket: Vec<CacheEntity> = Vec::new();
        std::mem::swap(&mut bucket, &mut self.buckets[bucket_idx]);
        let ghost b0 = bucket@;
        let ghost mid = self.buckets@;
        assert(b0 == bs[bucket_idx as int]);

        let mut j: usize = 0;
        while j < bucket.len()
            invariant
                bucket_idx < CACHE_BUCKETS,
                bs.len() == CACHE_BUCKETS,
                bv.len() == CACHE_BUCKETS,
                bs == bv.map_values(|b: Vec<CacheEntity>| b@),
                forall|i: int| 0 <= i < CACHE_BUCKETS ==> bucket_ok(i, #[trigger] bs[i]),
                self.memory_usage == cache_bytes(bs),
                self.buckets@ == mid,
                mid.len() == CACHE_BUCKETS,
                forall|i: int|
                    0 <= i < CACHE_BUCKETS && i != bucket_idx ==> #[trigger] mid[i] == bv[i],
                self.clock_hand == old(self).clock_hand,
                self.high_watermark == old(self).high_watermark,
                self.high_watermark <= CACHE_MAX_SIZE,
                self.low_watermark == old(self).low_watermark,
                self.low_watermark <= self.high_watermark,
                self.evictions == old(self).evictions,
                self.memory_usage == old(self).memory_usage,
                self.memory_usage <= self.high_watermark + self.high_watermark / 4,
                old(self).bseq() == bs,
                b0 == bs[bucket_idx as int],
                bucket@ == b0,
                forall|jj: int| 0 <= jj < j ==> (#[trigger] b0[jj]).key@ != key@,
                j <= bucket@.len(),
            decreases bucket@.len() - j,
        {
            if bytes_eq(bucket[j].key.as_slice(), key) {
                let ghost e0 = bucket@[j as int];
                let value = bytes_clone(&bucket[j].value);
                let count = bucket[j].access_count.wrapping_add(1);
                bucket[j].reference_bit = true;
                bucket[j].access_count = count;
                let ghost nb = bucket@;
                proof {
                    let e1 = bucket@[j as int];
                    assert(nb == b0.update(j as int, e1));
                    lemma_bucket_map_update(b0, j as int, e1);
                    lemma_bucket_bytes_update(b0, j as int, e1);
                    lemma_bucket_map_at(b0, j as int);
                    assert(bucket_map(nb) =~= bucket_map(b0));
                }
                std::mem::swap(&mut bucket, &mut self.buckets[bucket_idx]);
                proof {
                    lemma_bseq_update(bv, self.buckets@, bucket_idx as int, nb);
                    self.lemma_wf_after_replace(bs, bucket_idx as int, nb);
                    lemma_cache_bytes_update(bs, bucket_idx as int, nb);
                    lemma_contents_insert(bs, bucket_idx as int, nb, key@, bytes_contents(e0.value));
                    assert(contents_of(bs).insert(key@, bytes_contents(e0.value)) =~= contents_of(
                        bs,
                    ));
                }
                return Some(value);
            }
            j = j + 1;
        }
        std::mem::swap(&mut bucket, &mut self.buckets[bucket_idx]);
        proof {
            lemma_bseq_update(bv, self.buckets@, bucket_idx as int, b0);
            assert(bs.update(bucket_idx as int, b0) =~= bs);
            assert(!holds_in(b0, key@));
        }
        None
    }
}

fn find_in_bucket(bucket: &Vec<CacheEntity>, key: &[u8]) -> (r: Option<usize>)
    ensures
        match r {
            Some(j) => j < bucket@.len() && bucket@[j as int].key@ == key@,
            None => !holds_in(bucket@, key@),
        },
{
    let mut j: usize = 0;
    while j < bucket.len()
        invariant
            j <= bucket@.len(),
            forall|jj: int| 0 <= jj < j ==> (#[trigger] bucket@[jj]).key@ != key@,
        decreases bucket@.len() - j,
    {
        if bytes_eq(bucket[j].key.as_slice(), key) {
            return Some(j);
        }
        j = j + 1;
    }
    None
}

impl Cache {
    /// Drops `key` from the cache.
    pub fn remove(&mut self, key: &[u8])
        requires
            old(self).wf(),
        ensures
            final(self).wf(),
            final(self)@ == cache_after_remove(old(self)@, key@),
    {
        let bucket_idx = Self::get_bucket_idx(key);
        let ghost bv = self.buckets@;
        let ghost bs = self.bseq();
        let mut bucket: Vec<CacheEntity> = Vec::new();
        std::mem::swap(&mut bucket, &mut self.buckets[bucket_idx]);
        let ghost b0 = bucket@;
        assert(b0 == bs[bucket_idx as int]);

        let pos = find_in_bucket(&bucket, key);
        match pos {
            Some(j) => {
                proof {
                    lemma_bucket_ok_remove(bucket_idx as int, b0, j as int);
                    lemma_cache_bytes_ge(bs, bucket_idx as int);
                }
                let entry = bucket.remove(j);
                self.memory_usage = self.memory_usage - entry.size;
                let ghost nb = bucket@;
                std::mem::swap(&mut bucket, &mut self.buckets[bucket_idx]);
                proof {
                    lemma_bseq_update(bv, self.buckets@, bucket_idx as int, nb);
                    self.lemma_wf_after_replace(bs, bucket_idx as int, nb);
                    lemma_cache_bytes_update(bs, bucket_idx as int, nb);
                    lemma_contents_remove(bs, bucket_idx as int, nb, key@);
                    lemma_contents_replace(bs, bucket_idx as int, b0);
                    assert(bs.update(bucket_idx as int, b0) =~= bs);
                    assert(old(self)@.entries[key@] == bytes_contents(b0[j as int].value));
                }
            },
            None => {
                std::mem::swap(&mut bucket, &mut self.buckets[bucket_idx]);
                proof {
                    lemma_bseq_update(bv, self.buckets@, bucket_idx as int, b0);
                    assert(bs.update(bucket_idx as int, b0) =~= bs);
                    assert(!old(self)@.entries.contains_key(key@));
                    assert(old(self)@.entries.remove(key@) =~= old(self)@.entries);
                }
            },
        }
    }

    /// Empties the cache and sets the clock hand back to the first bucket.
    pub fn clear(&mut self)
        requires
            old(self).wf(),
        ensures
            final(self).wf(),
            final(self)@ == (CacheView {
                entries: Map::empty(),
                memory_usage: 0,
                entry_count: 0,
                ..old(self)@
            }),
    {
        let mut i: usize = 0;
        while i < self.buckets.len()
            invariant
                self.buckets@.len() == CACHE_BUCKETS,
                i <= CACHE_BUCKETS,
                forall|j: int| 0 <= j < i ==> (#[trigger] self.buckets@[j])@.len() == 0,
                self.high_watermark == old(self).high_watermark,
                self.low_watermark == old(self).low_watermark,
                self.evictions == old(self).evictions,
            decreases CACHE_BUCKETS - i,
        {
            self.buckets[i].clear();
            i = i + 1;
        }
        self.memory_usage = 0;
        self.clock_hand = 0;
        proof {
            assert forall|j: int| 0 <= j < self.bseq().len() implies (#[trigger] self.bseq()[j]).len()
                == 0 by {
                assert(self.bseq()[j] == self.buckets@[j]@);
            }
            lemma_all_empty(self.bseq());
            assert forall|j: int| 0 <= j < CACHE_BUCKETS implies bucket_ok(
                j,
                #[trigger] self.bseq()[j],
            ) by {}
        }
    }

    /// The number of entries evicted so far, modulo 2^64.
    pub fn evictions(&self) -> (r: u64)
        ensures
            r == self@.evictions,
    {
        self.evictions
    }

    /// The bytes in use and the watermarks.
    pub fn stats(&self) -> (r: CacheStats)
        ensures
            r.memory_usage == self@.memory_usage,
            r.high_watermark == self@.high_watermark,
            r.low_watermark == self@.low_watermark,
    {
        CacheStats {
            memory_usage: self.memory_usage,
            high_watermark: self.high_watermark,
            low_watermark: self.low_watermark,
        }
    }
}

proof fn lemma_cover_residue(start: int, i: int)
    requires
        0 <= i < CACHE_BUCKETS,
    ensures
        0 <= (i - start) % (CACHE_BUCKETS as int) < CACHE_BUCKETS,
        (start + (i - start) % (CACHE_BUCKETS as int)) % (CACHE_BUCKETS as int) == i,
{
    let n = CACHE_BUCKETS as int;
    let t = (i - start) % n;
    vstd::arithmetic::div_mod::lemma_fundamental_div_mod(i - start, n);
    let q = (i - start) / n;
    assert(start + t == i - n * q);
    vstd::arithmetic::div_mod::lemma_mod_multiples_vanish(-q, i, n);
    assert(i - n * q == n * (-q) + i) by (nonlinear_arith);
    vstd::arithmetic::div_mod::lemma_small_mod(i as nat, n as nat);
}

/// The position of bucket `b` on a sweep of the clock that starts at bucket `s`.
spec fn sweep_offset(b: int, s: int) -> int {
    (b - s) % (CACHE_BUCKETS as int)
}

/// The buckets a sweep from `s` has not reached after visiting `k` of them; the
/// visited ones are emptied.
spec fn unswept(bs: Seq<Seq<CacheEntity>>, s: int, k: int) -> Seq<Seq<CacheEntity>> {
    Seq::new(bs.len(), |b: int| if sweep_offset(b, s) < k { Seq::empty() } else { bs[b] })
}

/// No entry has its reference bit set.
spec fn bits_clear(bs: Seq<Seq<CacheEntity>>) -> bool {
    forall|b: int, j: int| 0 <= b < bs.len() && 0 <= j < bs[b].len() ==> !(#[trigger] bs[b][j]).reference_bit
}

/// No entry of a bucket has its reference bit set.
spec fn bucket_clear(b: Seq<CacheEntity>) -> bool {
    forall|j: int| 0 <= j < b.len() ==> !(#[trigger] b[j]).reference_bit
}

/// The bucket a sweep from `s` visits `k`-th sits at that position of the sweep.
proof fn lemma_sweep_offset_of_hand(s: int, k: int)
    requires
        0 <= s < CACHE_BUCKETS,
        0 <= k < CACHE_BUCKETS,
    ensures
        sweep_offset((s + k) % (CACHE_BUCKETS as int), s) == k,
        0 <= (s + k) % (CACHE_BUCKETS as int) < CACHE_BUCKETS,
{
    let n = CACHE_BUCKETS as int;
    vstd::arithmetic::div_mod::lemma_fundamental_div_mod(s + k, n);
    let q = (s + k) / n;
    let h = (s + k) % n;
    assert(h - s == n * (-q) + k) by (nonlinear_arith)
        requires
            s + k == n * q + h,
    ;
    vstd::arithmetic::div_mod::lemma_mod_multiples_vanish(-q, k, n);
    vstd::arithmetic::div_mod::lemma_small_mod(k as nat, n as nat);
}

/// Visiting the `k`-th bucket of a sweep and leaving `nb` there empties one more
/// bucket of what the sweep has not reached.
proof fn lemma_unswept_step(bs: Seq<Seq<CacheEntity>>, s: int, k: int, nb: Seq<CacheEntity>)
    requires
        bs.len() == CACHE_BUCKETS,
        0 <= s < CACHE_BUCKETS,
        0 <= k < CACHE_BUCKETS,
    ensures
        ({
            let h = (s + k) % (CACHE_BUCKETS as int);
            &&& unswept(bs.update(h, nb), s, k + 1) == unswept(bs, s, k).update(h, Seq::empty())
            &&& unswept(bs, s, k)[h] == bs[h]
            &&& entry_count(unswept(bs.update(h, nb), s, k + 1)) + bs[h].len() == entry_count(
                unswept(bs, s, k),
            )
        }),
{
    let h = (s + k) % (CACHE_BUCKETS as int);
    lemma_sweep_offset_of_hand(s, k);
    assert forall|b: int| 0 <= b < CACHE_BUCKETS && b != h implies sweep_offset(b, s) != k by {
        lemma_cover_residue(s, b);
    }
    assert(unswept(bs.update(h, nb), s, k + 1) =~= unswept(bs, s, k).update(h, Seq::empty()));
    lemma_cache_bytes_update(unswept(bs, s, k), h, Seq::empty());
}

/// Before a sweep nothing is reached; after all buckets, nothing is left.
proof fn lemma_unswept_ends(bs: Seq<Seq<CacheEntity>>, s: int)
    requires
        bs.len() == CACHE_BUCKETS,
        0 <= s < CACHE_BUCKETS,
    ensures
        unswept(bs, s, 0) == bs,
        entry_count(unswept(bs, s, CACHE_BUCKETS as int)) == 0,
{
    assert(unswept(bs, s, 0) =~= bs);
    assert forall|b: int| 0 <= b < CACHE_BUCKETS implies (#[trigger] unswept(bs, s, CACHE_BUCKETS as int)[b]).len() == 0 by {
        lemma_cover_residue(s, b);
    }
    lemma_all_empty_sums(unswept(bs, s, CACHE_BUCKETS as int));
}

/// With nothing left to reach, every bucket was visited.
proof fn lemma_unswept_none(bs: Seq<Seq<CacheEntity>>, s: int, k: int)
    requires
        bs.len() == CACHE_BUCKETS,
        entry_count(unswept(bs, s, k)) == 0,
    ensures
        forall|b: int| 0 <= b < CACHE_BUCKETS && sweep_offset(b, s) >= k ==> (#[trigger] bs[b]).len() == 0,
{
    assert forall|b: int| 0 <= b < CACHE_BUCKETS && sweep_offset(b, s) >= k implies (#[trigger] bs[b]).len() == 0 by {
        lemma_cache_bytes_update(unswept(bs, s, k), b, Seq::empty());
        assert(unswept(bs, s, k)[b] == bs[b]);
    }
}

/// Visiting the `k`-th bucket of a sweep and leaving it with every reference bit
/// clear (and empty, on a sweep that found every bit clear) extends what the sweep
/// has cleared by that bucket.
proof fn lemma_sweep_step(
    bs: Seq<Seq<CacheEntity>>,
    s: int,
    k: int,
    nb: Seq<CacheEntity>,
    emptied: bool,
)
    requires
        bs.len() == CACHE_BUCKETS,
        0 <= s < CACHE_BUCKETS,
        0 <= k < CACHE_BUCKETS,
        forall|b: int|
            0 <= b < CACHE_BUCKETS && sweep_offset(b, s) < k ==> bucket_clear(#[trigger] bs[b]),
        emptied ==> forall|b: int|
            0 <= b < CACHE_BUCKETS && sweep_offset(b, s) < k ==> (#[trigger] bs[b]).len() == 0,
        bucket_clear(nb),
        emptied ==> nb.len() == 0,
    ensures
        ({
            let h = (s + k) % (CACHE_BUCKETS as int);
            let nbs = bs.update(h, nb);
            &&& 0 <= h < CACHE_BUCKETS
            &&& entry_count(unswept(nbs, s, k + 1)) + bs[h].len() == entry_count(unswept(bs, s, k))
            &&& forall|b: int|
                0 <= b < CACHE_BUCKETS && sweep_offset(b, s) < k + 1 ==> bucket_clear(
                    #[trigger] nbs[b],
                )
            &&& emptied ==> forall|b: int|
                0 <= b < CACHE_BUCKETS && sweep_offset(b, s) < k + 1 ==> (#[trigger] nbs[b]).len()
                    == 0
        }),
{
    let h = (s + k) % (CACHE_BUCKETS as int);
    lemma_unswept_step(bs, s, k, nb);
    lemma_sweep_offset_of_hand(s, k);
    assert forall|b: int| 0 <= b < CACHE_BUCKETS && b != h && sweep_offset(b, s) < k + 1 implies sweep_offset(b, s) < k by {
        lemma_cover_residue(s, b);
    }
}

/// A sweep that has reached every entry, with every reached bucket clear, leaves
/// every reference bit clear; if every reached bucket is also empty, nothing is
/// left at all.
proof fn lemma_sweep_done(bs: Seq<Seq<CacheEntity>>, s: int, k: int, emptied: bool)
    requires
        bs.len() == CACHE_BUCKETS,
        0 <= s < CACHE_BUCKETS,
        entry_count(unswept(bs, s, k)) == 0,
        forall|b: int|
            0 <= b < CACHE_BUCKETS && sweep_offset(b, s) < k ==> bucket_clear(#[trigger] bs[b]),
        emptied ==> forall|b: int|
            0 <= b < CACHE_BUCKETS && sweep_offset(b, s) < k ==> (#[trigger] bs[b]).len() == 0,
    ensures
        bits_clear(bs),
        emptied ==> cache_bytes(bs) == 0,
{
    lemma_unswept_none(bs, s, k);
    assert forall|b: int| 0 <= b < CACHE_BUCKETS implies bucket_clear(#[trigger] bs[b]) by {
        if sweep_offset(b, s) >= k {
            assert(bs[b].len() == 0);
        }
    }
    assert forall|b: int, j: int| 0 <= b < bs.len() && 0 <= j < bs[b].len() implies !(
    #[trigger] bs[b][j]).reference_bit by {
        assert(bucket_clear(bs[b]));
    }
    if emptied {
        assert forall|b: int| 0 <= b < CACHE_BUCKETS implies (#[trigger] bs[b]).len() == 0 by {
            if sweep_offset(b, s) >= k {
                assert(bs[b].len() == 0);
            }
        }
        lemma_all_empty_sums(bs);
    }
}

proof fn lemma_hand_step(hand: usize)
    ensures
        (vstd::wrapping::usize_specs::wrapping_add(hand, 1) as int) % (CACHE_BUCKETS as int) == (
        hand as int + 1) % (CACHE_BUCKETS as int),
{
    let n = CACHE_BUCKETS as int;
    if hand == usize::MAX {
        assert(usize::MAX == 0xffff_ffff || usize::MAX == 0xffff_ffff_ffff_ffff);
        assert((usize::MAX as int + 1) % n == 0);
    }
}

/// `k` is the entry an eviction pass over `o`, leaving `f`, evicted last: it was
/// cached, it is gone, and the usage was above the low watermark just before it
/// went, since the pass stops as soon as the usage is at most the low watermark.
pub open spec fn evicted_last(o: CacheView, f: CacheView, k: Seq<u8>) -> bool {
    &&& o.entries.contains_key(k)
    &&& !f.entries.contains_key(k)
    &&& f.memory_usage + entry_size(k.len() as int, o.entries[k].len() as int) > o.low_watermark
}

/// The evicted-entry counter after `removed` more evictions.
pub open spec fn evictions_after(evictions: u64, removed: int) -> u64 {
    ((evictions + removed) % 0x1_0000_0000_0000_0000) as u64
}

impl Cache {
    proof fn lemma_count_bounds(self)
        requires
            self.wf_core(),
        ensures
            entry_count(self.bseq()) * CACHE_ENTRY_OVERHEAD <= self.memory_usage,
            forall|i: int| 0 <= i < CACHE_BUCKETS ==> (#[trigger] self.bseq()[i]).len() <= entry_count(
                self.bseq(),
            ),
    {
        assert forall|i: int, j: int|
            0 <= i < self.bseq().len() && 0 <= j < self.bseq()[i].len() implies (
            #[trigger] self.bseq()[i][j]).size >= CACHE_ENTRY_OVERHEAD by {
            assert(entry_ok(i, self.bseq()[i][j]));
        }
        lemma_count_le_bytes_scaled(self.bseq());
        assert forall|i: int| 0 <= i < CACHE_BUCKETS implies (#[trigger] self.bseq()[i]).len()
            <= entry_count(self.bseq()) by {
            lemma_cache_bytes_update(self.bseq(), i, Seq::empty());
        }
    }

    /// Evicts entries by the CLOCK policy until the usage is at most the low
    /// watermark or three sweeps over the entries have passed: a visited entry
    /// whose reference bit is set loses the bit and stays, one without it is evicted.
    /// The usage always ends at most at the low watermark: a full sweep leaves no
    /// reference bit set, and the sweep after it evicts whatever is left.
    pub fn evict_entries(&mut self)
        requires
            old(self).wf(),
        ensures
            final(self).wf(),
            sub_map(old(self)@.entries, final(self)@.entries),
            final(self)@.memory_usage <= old(self)@.memory_usage,
            final(self)@.high_watermark == old(self)@.high_watermark,
            final(self)@.low_watermark == old(self)@.low_watermark,
            final(self)@.entry_count <= old(self)@.entry_count,
            final(self)@.evictions == evictions_after(
                old(self)@.evictions,
                old(self)@.entry_count - final(self)@.entry_count,
            ),
            old(self)@.memory_usage <= old(self)@.low_watermark ==> final(self)@ == old(self)@,
            final(self)@.memory_usage <= final(self)@.low_watermark,
            final(self)@.entry_count < old(self)@.entry_count ==> exists|k: Seq<u8>|
                #[trigger] evicted_last(old(self)@, final(self)@, k),
    {
        self.evict_core();
    }

    /// `evict_entries` on a cache whose usage may be past its usage bound, as
    /// right after the watermarks are lowered.
    fn evict_core(&mut self)
        requires
            old(self).wf_core(),
        ensures
            final(self).wf(),
            sub_map(old(self)@.entries, final(self)@.entries),
            final(self)@.memory_usage <= old(self)@.memory_usage,
            final(self)@.high_watermark == old(self)@.high_watermark,
            final(self)@.low_watermark == old(self)@.low_watermark,
            final(self)@.entry_count <= old(self)@.entry_count,
            final(self)@.evictions == evictions_after(
                old(self)@.evictions,
                old(self)@.entry_count - final(self)@.entry_count,
            ),
            old(self)@.memory_usage <= old(self)@.low_watermark ==> final(self)@ == old(self)@,
            final(self)@.memory_usage <= final(self)@.low_watermark,
            final(self)@.entry_count < old(self)@.entry_count ==> exists|k: Seq<u8>|
                #[trigger] evicted_last(old(self)@, final(self)@, k),
    {
        let target_usage = self.low_watermark;
        let mut current_usage = self.memory_usage;

        if current_usage <= target_usage {
            return;
        }

        let mut scans: usize = 0;
        let ghost mut evicted: bool = false;
        let ghost mut last_key: Seq<u8> = Seq::empty();

        while current_usage > target_usage && scans < MAX_SCANS
            invariant
                self.wf_core(),
                current_usage == self.memory_usage,
                target_usage == self.low_watermark,
                sub_map(old(self)@.entries, self@.entries),
                self@.memory_usage <= old(self)@.memory_usage,
                self@.high_watermark == old(self)@.high_watermark,
                self@.low_watermark == old(self)@.low_watermark,
                self@.entry_count <= old(self)@.entry_count,
                self@.evictions == evictions_after(
                    old(self)@.evictions,
                    old(self)@.entry_count - self@.entry_count,
                ),
                scans >= 1 && current_usage > target_usage ==> bits_clear(self.bseq()),
                scans >= 2 ==> current_usage <= target_usage,
                evicted ==> old(self)@.entries.contains_key(last_key) && !self@.entries.contains_key(
                    last_key,
                ) && current_usage + entry_size(
                    last_key.len() as int,
                    old(self)@.entries[last_key].len() as int,
                ) > target_usage,
                self@.entry_count < old(self)@.entry_count ==> evicted,
            decreases MAX_SCANS - scans,
        {
            let mut bucket_count: usize = 0;
            let ghost scan_bs = self.bseq();
            proof {
                self.lemma_count_bounds();
            }
            let mut b: usize = 0;
            while b < self.buckets.len()
                invariant
                    b <= CACHE_BUCKETS,
                    self.buckets@.len() == CACHE_BUCKETS,
                    self.bseq() == scan_bs,
                    scan_bs.len() == CACHE_BUCKETS,
                    bucket_count == entry_count(scan_bs.subrange(0, b as int)),
                    entry_count(scan_bs) * CACHE_ENTRY_OVERHEAD <= usize::MAX,
                decreases CACHE_BUCKETS - b,
            {
                proof {
                    lemma_entry_count_prefix(scan_bs, b as int);
                    assert(self.buckets@[b as int]@ == scan_bs[b as int]);
                }
                bucket_count = bucket_count + self.buckets[b].len();
                b = b + 1;
            }
            proof {
                assert(scan_bs.subrange(0, CACHE_BUCKETS as int) =~= scan_bs);
            }
            let total_entries = bucket_count;
            let mut entries_checked: usize = 0;
            let ghost mut streak: int = 0;
            let ghost mut start: int = self.clock_hand as int;
            let ghost s: int = (self.clock_hand as int) % (CACHE_BUCKETS as int);
            let ghost mut k: int = 0;
            let ghost clear0: bool = bits_clear(scan_bs);
            proof {
                lemma_unswept_ends(scan_bs, s);
            }

            while entries_checked < total_entries && current_usage > target_usage
                invariant
                    self.wf_core(),
                    current_usage == self.memory_usage,
                    target_usage == self.low_watermark,
                    sub_map(old(self)@.entries, self@.entries),
                    self@.memory_usage <= old(self)@.memory_usage,
                    self@.high_watermark == old(self)@.high_watermark,
                    self@.low_watermark == old(self)@.low_watermark,
                    self@.entry_count <= old(self)@.entry_count,
                    self@.evictions == evictions_after(
                        old(self)@.evictions,
                        old(self)@.entry_count - self@.entry_count,
                    ),
                    self@.entry_count <= total_entries,
                    total_entries * CACHE_ENTRY_OVERHEAD <= usize::MAX,
                    0 <= streak < CACHE_BUCKETS,
                    forall|t: int|
                        0 <= t < streak ==> (#[trigger] self.bseq()[(start + t) % (
                        CACHE_BUCKETS as int)]).len() == 0,
                    (self.clock_hand as int) % (CACHE_BUCKETS as int) == (start + streak) % (
                    CACHE_BUCKETS as int),
                    0 <= s < CACHE_BUCKETS,
                    0 <= k,
                    (self.clock_hand as int) % (CACHE_BUCKETS as int) == (s + k) % (
                    CACHE_BUCKETS as int),
                    clear0 == bits_clear(scan_bs),
                    scans >= 1 ==> clear0,
                    clear0 ==> bits_clear(self.bseq()),
                    current_usage > target_usage ==> k <= CACHE_BUCKETS && entries_checked
                        + entry_count(unswept(self.bseq(), s, k)) == total_entries,
                    current_usage > target_usage ==> forall|b: int|
                        0 <= b < CACHE_BUCKETS && sweep_offset(b, s) < k ==> bucket_clear(
                            #[trigger] self.bseq()[b],
                        ),
                    current_usage > target_usage && clear0 ==> forall|b: int|
                        0 <= b < CACHE_BUCKETS && sweep_offset(b, s) < k ==> (
                        #[trigger] self.bseq()[b]).len() == 0,
                    evicted ==> old(self)@.entries.contains_key(last_key) && !self@.entries.contains_key(
                        last_key,
                    ) && current_usage + entry_size(
                        last_key.len() as int,
                        old(self)@.entries[last_key].len() as int,
                    ) > target_usage,
                    self@.entry_count < old(self)@.entry_count ==> evicted,
                decreases (if entries_checked < total_entries {
                    total_entries - entries_checked
                } else {
                    0
                }), CACHE_BUCKETS - streak,
            {
                let ghost old_hand = self.clock_hand;
                let hand = self.clock_hand % CACHE_BUCKETS;
                self.clock_hand = self.clock_hand.wrapping_add(1);
                proof {
                    lemma_hand_step(old_hand);
                    self.lemma_count_bounds();
                }

                let ghost bv = self.buckets@;
                let ghost bs = self.bseq();
                assert(self@.entries == contents_of(bs));
                assert(sub_map(old(self)@.entries, contents_of(bs)));
                let ghost c0 = entries_checked;
                let ghost u0 = current_usage;
                let mut bucket: Vec<CacheEntity> = Vec::new();
                std::mem::swap(&mut bucket, &mut self.buckets[hand]);
                let ghost b0 = bucket@;
                let ghost mid = self.buckets@;
                assert(b0 == bs[hand as int]);
                proof {
                    lemma_cache_bytes_ge(bs, hand as int);
                }

                let mut i: usize = 0;
                while i < bucket.len() && current_usage > target_usage
                    invariant
                        hand < CACHE_BUCKETS,
                        bs.len() == CACHE_BUCKETS,
                        bv.len() == CACHE_BUCKETS,
                        bs == bv.map_values(|b: Vec<CacheEntity>| b@),
                        forall|k: int| 0 <= k < CACHE_BUCKETS ==> bucket_ok(k, #[trigger] bs[k]),
                        self.buckets@ == mid,
                        mid.len() == CACHE_BUCKETS,
                        forall|k: int|
                            0 <= k < CACHE_BUCKETS && k != hand ==> #[trigger] mid[k] == bv[k],
                        b0 == bs[hand as int],
                        b0.len() <= total_entries,
                        bucket_ok(hand as int, bucket@),
                        forall|k: Seq<u8>| #[trigger]
                            bucket_map(bucket@).contains_key(k) ==> bucket_map(b0).contains_key(k)
                                && bucket_map(bucket@)[k] == bucket_map(b0)[k],
                        bucket@.len() <= b0.len(),
                        i <= bucket@.len(),
                        self.memory_usage + bucket_bytes(b0) == cache_bytes(bs) + bucket_bytes(
                            bucket@,
                        ),
                        current_usage == self.memory_usage,
                        target_usage == self.low_watermark,
                        self.low_watermark == old(self).low_watermark,
                        self.high_watermark == old(self).high_watermark,
                        self.high_watermark <= CACHE_MAX_SIZE,
                        self.evictions == evictions_after(
                            old(self)@.evictions,
                            old(self)@.entry_count - (entry_count(bs) - b0.len() + bucket@.len()),
                        ),
                        entries_checked == c0 + (b0.len() - bucket@.len()) + i,
                        c0 < total_entries,
                        total_entries * CACHE_ENTRY_OVERHEAD <= usize::MAX,
                        entries_checked == c0 ==> current_usage == u0,
                        u0 > target_usage,
                        self.memory_usage <= u0,
                        u0 <= old(self)@.memory_usage,
                        bucket_bytes(b0) <= cache_bytes(bs),
                        self.clock_hand == vstd::wrapping::usize_specs::wrapping_add(old_hand, 1),
                        forall|j: int| 0 <= j < i ==> !(#[trigger] bucket@[j]).reference_bit,
                        bucket_clear(b0) ==> bucket_clear(bucket@),
                        bucket_clear(b0) ==> i == 0,
                        sub_map(old(self)@.entries, contents_of(bs)),
                        evicted ==> old(self)@.entries.contains_key(last_key) && current_usage
                            + entry_size(
                            last_key.len() as int,
                            old(self)@.entries[last_key].len() as int,
                        ) > target_usage,
                        evicted && bucket_of(last_key) == hand ==> !bucket_map(bucket@).contains_key(
                            last_key,
                        ),
                        evicted && bucket_of(last_key) != hand ==> !contents_of(bs).contains_key(
                            last_key,
                        ),
                        entry_count(bs) - b0.len() + bucket@.len() < old(self)@.entry_count
                            ==> evicted,
                    decreases bucket@.len() - i,
                {
                    let ghost bi = bucket@;
                    if bucket[i].reference_bit {
                        bucket[i].reference_bit = false;
                        proof {
                            lemma_bucket_ok_update(hand as int, bi, i as int, bucket@[i as int]);
                            assert(bucket@ == bi.update(i as int, bucket@[i as int]));
                            assert(bucket_map(bi).insert(bi[i as int].key@, bytes_contents(bi[i as int].value)) =~= bucket_map(bi));
                            assert(!bucket_clear(b0)) by {
                                if bucket_clear(b0) {
                                    assert(!bi[i as int].reference_bit);
                                }
                            }
                        }
                        i = i + 1;
                    } else {
                        proof {
                            lemma_bucket_ok_remove(hand as int, bi, i as int);
                            lemma_cache_bytes_update(bs, hand as int, bi);
                            lemma_bucket_bytes_ge(bi, i as int);
                        }
                        let removed = bucket.remove(i);
                        proof {
                            assert(bucket@ == bi.remove(i as int));
                            if bucket_clear(b0) {
                                assert forall|j: int| 0 <= j < bucket@.len() implies !(
                                #[trigger] bucket@[j]).reference_bit by {
                                    assert(bucket@[j] == bi[if j < i { j } else { j + 1 }]);
                                }
                            }
                        }
                        self.memory_usage = self.memory_usage - removed.size;
                        self.evictions = self.evictions.wrapping_add(1);
                        current_usage = current_usage - removed.size;
                        proof {
                            let kk = removed.key@;
                            assert(entry_ok(hand as int, bi[i as int]));
                            assert(bucket_map(b0).contains_key(kk));
                            assert(contents_of(bs).contains_key(kk));
                            assert(old(self)@.entries[kk] == bytes_contents(removed.value));
                            evicted = true;
                            last_key = kk;
                        }
                    }
                    entries_checked = entries_checked + 1;
                }
                let ghost nb = bucket@;
                std::mem::swap(&mut bucket, &mut self.buckets[hand]);
                proof {
                    lemma_bseq_update(bv, self.buckets@, hand as int, nb);
                    self.lemma_wf_after_replace(bs, hand as int, nb);
                    lemma_cache_bytes_update(bs, hand as int, nb);
                    lemma_contents_replace(bs, hand as int, nb);
                    lemma_contents_replace(bs, hand as int, b0);
                    vstd::arithmetic::div_mod::lemma_add_mod_noop(old_hand as int, 1, CACHE_BUCKETS as int);
                    vstd::arithmetic::div_mod::lemma_add_mod_noop(s + k, 1, CACHE_BUCKETS as int);
                    if current_usage > target_usage {
                        assert(k < CACHE_BUCKETS) by {
                            if k >= CACHE_BUCKETS {
                                lemma_unswept_ends(bs, s);
                            }
                        }
                        assert(hand as int == (s + k) % (CACHE_BUCKETS as int));
                        assert(bucket_clear(b0) ==> nb.len() == 0);
                        lemma_sweep_step(bs, s, k, nb, clear0);
                    }
                    if clear0 {
                        assert(bucket_clear(bs[hand as int]));
                        assert forall|b: int, j: int| 0 <= b < self.bseq().len() && 0 <= j < self.bseq()[b].len() implies !(
                        #[trigger] self.bseq()[b][j]).reference_bit by {
                            if b != hand as int {
                                assert(self.bseq()[b] == bs[b]);
                            }
                        }
                    }
                    k = k + 1;
                    assert(bs.update(hand as int, b0) =~= bs);
                    if evicted {
                        assert(!self@.entries.contains_key(last_key));
                    }
                    assert forall|k: Seq<u8>| #[trigger] self@.entries.contains_key(k) implies old(
                        self,
                    )@.entries.contains_key(k) && self@.entries[k] == old(self)@.entries[k] by {
                        assert(contents_of(bs).contains_key(k));
                    }
                    if b0.len() == 0 {
                        assert(nb.len() == 0);
                        assert(nb == b0);
                        assert(self.bseq() =~= bs);
                        assert(hand as int == (start + streak) % (CACHE_BUCKETS as int));
                        vstd::arithmetic::div_mod::lemma_add_mod_noop(old_hand as int, 1, CACHE_BUCKETS as int);
                        vstd::arithmetic::div_mod::lemma_add_mod_noop(start + streak, 1, CACHE_BUCKETS as int);
                        if streak + 1 == CACHE_BUCKETS {
                            assert forall|k: int| 0 <= k < CACHE_BUCKETS implies (
                            #[trigger] bs[k]).len() == 0 by {
                                lemma_cover_residue(start, k);
                                let t = (k - start) % (CACHE_BUCKETS as int);
                                if t < streak {
                                    assert(bs[(start + t) % (CACHE_BUCKETS as int)].len() == 0);
                                } else {
                                    assert(t == streak);
                                }
                            }
                            lemma_all_empty_sums(bs);
                            assert(false);
                        }
                        streak = streak + 1;
                    } else {
                        assert(entries_checked > c0);
                        streak = 0;
                        start = self.clock_hand as int;
                    }
                }
            }

            proof {
                if current_usage > target_usage {
                    lemma_sweep_done(self.bseq(), s, k, clear0);
                }
            }
            scans = scans + 1;
        }
        proof {
            if evicted {
                assert(evicted_last(old(self)@, self@, last_key));
            }
        }
    }
}

impl Cache {
    /// Caches `value` under `key`, unless the entry would take more than a quarter
    /// of the high watermark. When the entry would push the usage past the high
    /// watermark, entries are evicted first.
    pub fn insert(&mut self, key: Vec<u8>, value: Bytes)
        requires
            old(self).wf(),
            entry_size(key@.len() as int, bytes_contents(value).len() as int) <= usize::MAX,
        ensures
            final(self).wf(),
            cache_insert_effect(old(self)@, final(self)@, key@, bytes_contents(value)),
    {
        let value_len = bytes_len(&value);
        let size = key.len() + value_len + CACHE_ENTRY_OVERHEAD;

        // will not cache too large object
        let high_watermark = self.high_watermark;
        if size > high_watermark / 4 {
            return;
        }

        let current_usage = self.memory_usage;
        if current_usage + size > high_watermark {
            self.evict_entries();
        }
        let ghost after_evict = self@;

        let bucket_idx = Self::get_bucket_idx(key.as_slice());
        let ghost bv = self.buckets@;
        let ghost bs = self.bseq();
        let mut bucket: Vec<CacheEntity> = Vec::new();
        std::mem::swap(&mut bucket, &mut self.buckets[bucket_idx]);
        let ghost b0 = bucket@;
        assert(b0 == bs[bucket_idx as int]);
        proof {
            lemma_cache_bytes_ge(bs, bucket_idx as int);
            lemma_contents_replace(bs, bucket_idx as int, b0);
            assert(bs.update(bucket_idx as int, b0) =~= bs);
        }

        let pos = find_in_bucket(&bucket, key.as_slice());
        let ghost kept = pos is Some;
        match pos {
            Some(j) => {
                let old_size = bucket[j].size;
                proof {
                    lemma_bucket_bytes_ge(b0, j as int);
                }
                bucket[j].value = value;
                bucket[j].size = size;
                bucket[j].reference_bit = true;
                let ghost nb = bucket@;
                proof {
                    assert(nb == b0.update(j as int, nb[j as int]));
                    lemma_bucket_ok_update(bucket_idx as int, b0, j as int, nb[j as int]);
                }
                if size > old_size {
                    self.memory_usage = self.memory_usage + (size - old_size);
                } else {
                    self.memory_usage = self.memory_usage - (old_size - size);
                }
                std::mem::swap(&mut bucket, &mut self.buckets[bucket_idx]);
                proof {
                    lemma_bseq_update(bv, self.buckets@, bucket_idx as int, nb);
                    self.lemma_wf_after_replace(bs, bucket_idx as int, nb);
                    lemma_cache_bytes_update(bs, bucket_idx as int, nb);
                    lemma_contents_insert(bs, bucket_idx as int, nb, key@, bytes_contents(nb[j as int].value));
                }
            },
            None => {
                let entry = CacheEntity {
                    key,
                    value,
                    reference_bit: true,
                    size,
                    access_count: 1,
                };
                let ghost e = entry;
                proof {
                    lemma_bucket_ok_push(bucket_idx as int, b0, e);
                }
                bucket.push(entry);
                self.memory_usage = self.memory_usage + size;
                let ghost nb = bucket@;
                std::mem::swap(&mut bucket, &mut self.buckets[bucket_idx]);
                proof {
                    lemma_bseq_update(bv, self.buckets@, bucket_idx as int, nb);
                    self.lemma_wf_after_replace(bs, bucket_idx as int, nb);
                    lemma_cache_bytes_update(bs, bucket_idx as int, nb);
                    lemma_contents_insert(bs, bucket_idx as int, nb, e.key@, bytes_contents(e.value));
                }
            },
        }
        proof {
            assert forall|k: Seq<u8>| #[trigger] self@.entries.remove(key@).contains_key(k) implies old(
                self,
            )@.entries.contains_key(k) && self@.entries.remove(key@)[k] == old(self)@.entries[k] by {
                assert(after_evict.entries.contains_key(k));
            }
            assert(self@.entry_count == after_evict.entry_count + if kept { 0int } else { 1int });
            assert(kept ==> after_evict.entries.contains_key(key@));
            assert(self@.evictions == after_evict.evictions);
            if old(self)@.memory_usage + size > old(self)@.high_watermark {
                assert(evicted_for_insert(old(self)@, self@, key@, kept));
            }
        }
    }

    /// Moves the watermarks to `high_mb` and `low_mb` mebibytes when the high one
    /// is above the low one and at most the cache's size limit, evicting at once
    /// when the usage is above the new high watermark.
    pub fn adjust_watermarks(&mut self, high_mb: usize, low_mb: usize)
        requires
            old(self).wf(),
            high_mb * MB <= usize::MAX,
            low_mb * MB <= usize::MAX,
        ensures
            final(self).wf(),
            ({
                let high = high_mb * MB;
                let low = low_mb * MB;
                let o = old(self)@;
                let f = final(self)@;
                if high > low && high <= CACHE_MAX_SIZE {
                    &&& f.high_watermark == high
                    &&& f.low_watermark == low
                    &&& sub_map(o.entries, f.entries)
                    &&& f.memory_usage <= o.memory_usage
                    &&& o.memory_usage <= high ==> f == (CacheView {
                        high_watermark: high as usize,
                        low_watermark: low as usize,
                        ..o
                    })
                } else {
                    f == o
                }
            }),
    {
        let high = high_mb * MB;
        let low = low_mb * MB;

        if high > low && high <= CACHE_MAX_SIZE {
            self.high_watermark = high;
            self.low_watermark = low;

            let current_usage = self.memory_usage;

            if current_usage > high {
                self.evict_core();
            }
        }
    }
}

/// The watermarks, in bytes, and the bytes in use.
#[derive(Debug, Clone)]
pub struct CacheStats {
    pub memory_usage: usize,
    pub high_watermark: usize,
    pub low_watermark: usize,
}

/// What caching `value` under `key` does to cache `o`, giving `f`: an entry
/// larger than a quarter of the high watermark is not cached; otherwise the key
/// maps to the value afterwards, other entries may only have been evicted, an
/// eviction leaves the usage at most at the low watermark plus the entry, and
/// when no eviction was needed the change is exactly the new entry.
pub open spec fn cache_insert_effect(
    o: CacheView,
    f: CacheView,
    key: Seq<u8>,
    value: Seq<u8>,
) -> bool {
    let size = entry_size(key.len() as int, value.len() as int);
    &&& size > o.high_watermark / 4 ==> f == o
    &&& size <= o.high_watermark / 4 ==> {
        &&& f.entries.contains_key(key)
        &&& f.entries[key] == value
        &&& sub_map(o.entries, f.entries.remove(key))
        &&& f.high_watermark == o.high_watermark
        &&& f.low_watermark == o.low_watermark
        &&& f.memory_usage <= o.memory_usage + size
        &&& o.memory_usage + size > o.high_watermark ==> f.memory_usage <= o.low_watermark + size
        &&& o.memory_usage + size > o.high_watermark ==> exists|kept: bool| #[trigger]
            evicted_for_insert(o, f, key, kept)
        &&& o.memory_usage + size <= o.high_watermark ==> {
            &&& f.entries == o.entries.insert(key, value)
            &&& f.evictions == o.evictions
            &&& f.memory_usage == if o.entries.contains_key(key) {
                o.memory_usage - entry_size(key.len() as int, o.entries[key].len() as int) + size
            } else {
                o.memory_usage + size
            }
            &&& f.entry_count == if o.entries.contains_key(key) {
                o.entry_count
            } else {
                o.entry_count + 1
            }
        }
    }
}

/// The evictions an insert into `o` that had to evict first made, leaving `f`:
/// the entries the eviction took are counted, where `kept` says whether the key's
/// own earlier entry survived it (then the insert replaced it; otherwise the
/// insert added one entry).
pub open spec fn evicted_for_insert(o: CacheView, f: CacheView, key: Seq<u8>, kept: bool) -> bool {
    let added: int = if kept {
        0
    } else {
        1
    };
    &&& kept ==> o.entries.contains_key(key)
    &&& f.entry_count <= o.entry_count + added
    &&& f.evictions == evictions_after(o.evictions, o.entry_count + added - f.entry_count)
}

/// Caching keeps the usage within the high watermark, from a cache within it,
/// whenever the low watermark leaves room under the high one for the largest
/// entry that is cached (a quarter of the high watermark).
pub proof fn lemma_insert_within_high_watermark(o: CacheView, f: CacheView, key: Seq<u8>, value: Seq<u8>)
    requires
        cache_insert_effect(o, f, key, value),
        o.memory_usage <= o.high_watermark,
        o.low_watermark + o.high_watermark / 4 <= o.high_watermark,
    ensures
        f.memory_usage <= f.high_watermark,
{
}

/// Any run of inserts keeps the usage within the high watermark, from a cache
/// within it whose low watermark leaves room under the high one for the largest
/// entry that is cached: `cs` are the states, each the one before after caching
/// `values[i]` under `keys[i]`.
pub proof fn lemma_inserts_within_high_watermark(
    cs: Seq<CacheView>,
    keys: Seq<Seq<u8>>,
    values: Seq<Seq<u8>>,
    n: int,
)
    requires
        cs.len() == keys.len() + 1,
        values.len() == keys.len(),
        forall|i: int|
            0 <= i < keys.len() ==> cache_insert_effect(#[trigger] cs[i], cs[i + 1], keys[i], values[i]),
        cs[0].memory_usage <= cs[0].high_watermark,
        cs[0].low_watermark + cs[0].high_watermark / 4 <= cs[0].high_watermark,
        0 <= n < cs.len(),
    ensures
        cs[n].memory_usage <= cs[n].high_watermark,
        cs[n].high_watermark == cs[0].high_watermark,
        cs[n].low_watermark == cs[0].low_watermark,
    decreases n,
{
    if n > 0 {
        lemma_inserts_within_high_watermark(cs, keys, values, n - 1);
        assert(cache_insert_effect(cs[n - 1], cs[n], keys[n - 1], values[n - 1]));
        lemma_insert_within_high_watermark(cs[n - 1], cs[n], keys[n - 1], values[n - 1]);
    }
}

/// The cache `c` after `key` is dropped from it.
pub open spec fn cache_after_remove(c: CacheView, key: Seq<u8>) -> CacheView {
    CacheView {
        entries: c.entries.remove(key),
        memory_usage: if c.entries.contains_key(key) {
            (c.memory_usage - entry_size(key.len() as int, c.entries[key].len() as int)) as nat
        } else {
            c.memory_usage
        },
        entry_count: if c.entries.contains_key(key) {
            (c.entry_count - 1) as nat
        } else {
            c.entry_count
        },
        ..c
    }
}

/// `m2` keeps some of the entries of `m1`, unchanged.
pub open spec fn sub_map(m1: Map<Seq<u8>, Seq<u8>>, m2: Map<Seq<u8>, Seq<u8>>) -> bool {
    forall|k: Seq<u8>| #[trigger] m2.contains_key(k) ==> m1.contains_key(k) && m2[k] == m1[k]
}

} // verus!
