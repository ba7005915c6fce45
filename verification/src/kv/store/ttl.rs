use std::sync::Arc;

use rand::RngExt;
use vstd::prelude::*;

use crate::constants::Operation;
use crate::kv::record::Record;
use crate::stats::wadd64;
use crate::kv::store::{
    arc_clone, index_contents, tree_contents, wall_clock_nanos, FunKV, FunKVView, RecordIndex,
    RecordTree,
};
use crate::storage::write_buffer::{entry_view, WriteEntry};

verus! {

/// Keeps a copy of an entry shown by a walk of the index, and asks for more.
fn keep_entry(out: &mut Vec<(Vec<u8>, Arc<Record>)>, key: &Vec<u8>, record: &Arc<Record>) -> (r: bool)
    ensures
        r,
        final(out)@.len() == old(out)@.len() + 1,
        forall|i: int| 0 <= i < old(out)@.len() ==> #[trigger] final(out)@[i] == old(out)@[i],
        final(out)@.last().0@ == key@,
        *final(out)@.last().1 == **record,
{
    out.push((FunKV::clone_key(key), arc_clone(record)));
    true
}

/// The keys of a walk of the index, in the order they were shown.
pub open spec fn walk_keys(walk: Seq<(Vec<u8>, Arc<Record>)>) -> Seq<Seq<u8>> {
    walk.map_values(|e: (Vec<u8>, Arc<Record>)| e.0@)
}

/// `scc::HashMap::iter_sync` with `keep_entry` as the visitor: the entries of
/// the index in the order the map walks them. The walk visits every bucket of
/// the map once (entries still in a table being resized are moved first), so
/// each stored key is listed exactly once, with its record; the order depends on
/// the hasher the map was seeded with and is not stated.
#[verifier::external_body]
fn index_walk(m: &RecordIndex) -> (r: Vec<(Vec<u8>, Arc<Record>)>)
    ensures
        forall|i: int|
            0 <= i < r@.len() ==> index_contents(*m).contains_key((#[trigger] r@[i]).0@)
                && *r@[i].1 == index_contents(*m)[r@[i].0@],
        walk_keys(r@).no_duplicates(),
        forall|k: Seq<u8>| #[trigger] index_contents(*m).contains_key(k) ==> walk_keys(r@).contains(k),
{
    let mut out = Vec::new();
    m.iter_sync(|k, v| keep_entry(&mut out, k, v));
    out
}

/// `scc::HashMap::remove_sync`: the record stored under `key`, if any, is removed.
#[verifier::external_body]
fn index_remove(m: &mut RecordIndex, key: &[u8])
    ensures
        index_contents(*final(m)) == index_contents(*old(m)).remove(key@),
{
    m.remove_sync(key);
}

/// `SkipMap::remove`: the entry under `key`, if any, is removed from the map.
#[verifier::external_body]
fn tree_remove(t: &mut RecordTree, key: &[u8])
    ensures
        tree_contents(*final(t)) == tree_contents(*old(t)).remove(key@),
{
    t.remove(key);
}

/// `rand::rng().random_range(0..len)`: an index drawn by the thread's random
/// generator, below `len`.
#[verifier::external_body]
fn random_index(len: usize) -> (r: usize)
    requires
        len > 0,
    ensures
        r < len,
{
    rand::rng().random_range(0..len)
}

/// How many entries of a walk are looked at for expiry times.
pub const TTL_WALK_LIMIT: usize = 100;

/// The positions, in increasing order, of the entries among the first
/// `TTL_WALK_LIMIT` of `walk` whose record has an expiry time.
pub open spec fn candidate_positions(walk: Seq<(Vec<u8>, Arc<Record>)>, pos: Seq<usize>) -> bool {
    &&& forall|j: int, l: int| 0 <= j < l < pos.len() ==> pos[j] < pos[l]
    &&& forall|j: int|
        0 <= j < pos.len() ==> (#[trigger] pos[j]) < TTL_WALK_LIMIT && pos[j] < walk.len()
            && walk[pos[j] as int].1.ttl_expiry > 0
    &&& forall|i: int|
        0 <= i < walk.len() && i < TTL_WALK_LIMIT && (#[trigger] walk[i]).1.ttl_expiry > 0
            ==> exists|j: int| 0 <= j < pos.len() && pos[j] == i
}

/// The candidates for an expiry check in a walk of the index: the positions of
/// the entries among the first `TTL_WALK_LIMIT` whose record has an expiry time.
pub fn ttl_candidate_positions(walk: &Vec<(Vec<u8>, Arc<Record>)>) -> (r: Vec<usize>)
    ensures
        candidate_positions(walk@, r@),
{
    let mut pos: Vec<usize> = Vec::new();
    let mut i: usize = 0;
    while i < walk.len() && i < TTL_WALK_LIMIT
        invariant
            i <= walk@.len(),
            i <= TTL_WALK_LIMIT,
            forall|j: int, l: int| 0 <= j < l < pos@.len() ==> pos@[j] < pos@[l],
            forall|j: int|
                0 <= j < pos@.len() ==> (#[trigger] pos@[j]) < i && walk@[pos@[j] as int].1.ttl_expiry > 0,
            forall|k: int|
                0 <= k < i && (#[trigger] walk@[k]).1.ttl_expiry > 0 ==> exists|j: int|
                    0 <= j < pos@.len() && pos@[j] == k,
        decreases walk@.len() - i,
    {
        if walk[i].1.ttl_expiry > 0 {
            let ghost before = pos@;
            pos.push(i);
            proof {
                assert forall|k: int|
                    0 <= k < i + 1 && (#[trigger] walk@[k]).1.ttl_expiry > 0 implies exists|j: int|
                        0 <= j < pos@.len() && pos@[j] == k by {
                    if k == i {
                        assert(pos@[before.len() as int] == k);
                    } else {
                        let j = choose|j: int| 0 <= j < before.len() && before[j] == k;
                        assert(pos@[j] == k);
                    }
                }
            }
        }
        i = i + 1;
    }
    pos
}

/// The keys of `m` whose record has no expiry time.
pub open spec fn untimed_keys(m: Map<Seq<u8>, Record>) -> Set<Seq<u8>> {
    m.dom().filter(|k: Seq<u8>| m[k].ttl_expiry == 0)
}

/// A walk that looked at no candidate saw only records without an expiry time
/// among its first `TTL_WALK_LIMIT` entries; as the walk lists every stored key
/// once, either fewer than that many keys are stored, all of them untimed, or at
/// least that many stored records have no expiry time.
proof fn lemma_no_candidate(
    walk: Seq<(Vec<u8>, Arc<Record>)>,
    m: Map<Seq<u8>, Record>,
    pos: Seq<usize>,
)
    requires
        candidate_positions(walk, pos),
        pos.len() == 0,
        forall|i: int|
            0 <= i < walk.len() ==> m.contains_key((#[trigger] walk[i]).0@) && *walk[i].1
                == m[walk[i].0@],
        walk_keys(walk).no_duplicates(),
        forall|k: Seq<u8>| #[trigger] m.contains_key(k) ==> walk_keys(walk).contains(k),
    ensures
        (forall|k: Seq<u8>| #[trigger] m.contains_key(k) ==> m[k].ttl_expiry == 0)
            || untimed_keys(m).len() >= TTL_WALK_LIMIT,
        m.dom().finite(),
{
    let keys = walk_keys(walk);
    assert(keys.to_set() =~= m.dom()) by {
        assert forall|x: Seq<u8>| keys.to_set().contains(x) implies m.dom().contains(x) by {
            let i = choose|i: int| 0 <= i < keys.len() && keys[i] == x;
            assert(walk[i].0@ == x);
        }
    }
    keys.unique_seq_to_set();
    let n: int = if walk.len() < TTL_WALK_LIMIT { walk.len() as int } else { TTL_WALK_LIMIT as int };
    // every one of the first n walked records is untimed
    assert forall|i: int| 0 <= i < n implies (#[trigger] walk[i]).1.ttl_expiry == 0 by {
        if walk[i].1.ttl_expiry > 0 {
            let j = choose|j: int| 0 <= j < pos.len() && pos[j] == i;
        }
    }
    let pre = keys.take(n);
    assert(pre.no_duplicates());
    pre.unique_seq_to_set();
    assert(pre.to_set() <= untimed_keys(m)) by {
        assert forall|x: Seq<u8>| pre.to_set().contains(x) implies untimed_keys(m).contains(x) by {
            let i = choose|i: int| 0 <= i < pre.len() && pre[i] == x;
            assert(keys[i] == x);
            assert(walk[i].0@ == x);
        }
    }
    assert(untimed_keys(m).finite()) by {
        assert(untimed_keys(m) <= m.dom());
        vstd::set_lib::lemma_len_subset(untimed_keys(m), m.dom());
    }
    vstd::set_lib::lemma_len_subset(pre.to_set(), untimed_keys(m));
    if n == walk.len() {
        assert forall|k: Seq<u8>| #[trigger] m.contains_key(k) implies m[k].ttl_expiry == 0 by {
            assert(keys.contains(k));
            let i = choose|i: int| 0 <= i < keys.len() && keys[i] == k;
            assert(walk[i].0@ == k);
        }
    }
}

impl FunKV {
    /// A record with an expiry time, drawn at random among the candidates of a
    /// walk of the index, with its key; `None` when the walk offered none, and
    /// always when no stored record has an expiry time.
    pub(crate) fn get_random_ttl_entry(&self) -> (r: Option<(Vec<u8>, Arc<Record>)>)
        ensures
            r matches Some(e) ==> {
                &&& self@.records.contains_key(e.0@)
                &&& *e.1 == self@.records[e.0@]
                &&& e.1.ttl_expiry > 0
            },
            (forall|k: Seq<u8>| #[trigger]
                self@.records.contains_key(k) ==> self@.records[k].ttl_expiry == 0) ==> r is None,
            self@.records.dom().len() <= TTL_WALK_LIMIT && (exists|k: Seq<u8>| #[trigger]
                self@.records.contains_key(k) && self@.records[k].ttl_expiry > 0) ==> r is Some,
            untimed_keys(self@.records).len() < TTL_WALK_LIMIT && (exists|k: Seq<u8>| #[trigger]
                self@.records.contains_key(k) && self@.records[k].ttl_expiry > 0) ==> r is Some,
    {
        let mut walk = index_walk(&self.hash_table);
        let positions = ttl_candidate_positions(&walk);
        if positions.len() == 0 {
            proof {
                lemma_no_candidate(walk@, self@.records, positions@);
                let m = self@.records;
                if m.dom().len() <= TTL_WALK_LIMIT && (exists|k: Seq<u8>| #[trigger]
                    m.contains_key(k) && m[k].ttl_expiry > 0) {
                    let k = choose|k: Seq<u8>| #[trigger] m.contains_key(k) && m[k].ttl_expiry > 0;
                    let keys = walk_keys(walk@);
                    assert(keys.to_set() =~= m.dom()) by {
                        assert forall|x: Seq<u8>| keys.to_set().contains(x) implies m.dom().contains(x) by {
                            let i = choose|i: int| 0 <= i < keys.len() && keys[i] == x;
                            assert(walk@[i].0@ == x);
                        }
                    }
                    keys.unique_seq_to_set();
                    assert(keys.contains(k));
                    let i = choose|i: int| 0 <= i < keys.len() && keys[i] == k;
                    assert(walk@[i].0@ == k);
                    assert(walk@[i].1.ttl_expiry > 0);
                    assert(i < TTL_WALK_LIMIT);
                    assert(exists|j: int| 0 <= j < positions@.len() && positions@[j] == i);
                }
            }
            return None;
        }
        let j = random_index(positions.len());
        let p = positions[j];
        proof {
            let e = walk@[p as int];
            assert(self@.records.contains_key(e.0@));
        }
        Some(walk.remove(p))
    }
}

/// The deletes that expiring `removed` (in that order) queues: one for each
/// record that has reached the disk.
pub open spec fn expiry_deletes(removed: Seq<Record>) -> Seq<(Operation, Record, usize)>
    decreases removed.len(),
{
    if removed.len() == 0 {
        Seq::empty()
    } else {
        let rest = expiry_deletes(removed.drop_last());
        if removed.last().sector > 0 {
            rest.push((Operation::Delete, removed.last(), 0usize))
        } else {
            rest
        }
    }
}

/// The keys of the drawn records (a draw that found no candidate is `None`)
/// whose expiry time lies before `now`, in the order they were drawn.
pub open spec fn expired_draws(
    draws: Seq<Option<Seq<u8>>>,
    records: Map<Seq<u8>, Record>,
    now: u64,
) -> Seq<Seq<u8>>
    decreases draws.len(),
{
    if draws.len() == 0 {
        Seq::empty()
    } else {
        let rest = expired_draws(draws.drop_last(), records, now);
        match draws.last() {
            Some(k) => if records[k].ttl_expiry < now {
                rest.push(k)
            } else {
                rest
            },
            None => rest,
        }
    }
}

/// How many draws found a candidate.
pub open spec fn draw_count(draws: Seq<Option<Seq<u8>>>) -> nat
    decreases draws.len(),
{
    if draws.len() == 0 {
        0
    } else {
        draw_count(draws.drop_last()) + if draws.last() is Some {
            1nat
        } else {
            0nat
        }
    }
}

/// The records of `o` still stored when the draw at position `i` is made: those
/// the earlier draws did not remove.
pub open spec fn records_before(
    o: Map<Seq<u8>, Record>,
    draws: Seq<Option<Seq<u8>>>,
    now: u64,
    i: int,
) -> Map<Seq<u8>, Record> {
    o.remove_keys(expired_draws(draws.take(i), o, now).to_set())
}

/// A draw may find nothing only where `get_random_ttl_entry` owes nothing: the
/// store `m` holds more records than a walk looks at and at least that many of
/// them have no expiry time, or none of its records has an expiry time.
pub open spec fn empty_draw_allowed(m: Map<Seq<u8>, Record>) -> bool {
    (m.dom().len() > TTL_WALK_LIMIT && untimed_keys(m).len() >= TTL_WALK_LIMIT) || forall|
        k: Seq<u8>,
    | #[trigger] m.contains_key(k) ==> m[k].ttl_expiry == 0
}

/// Fewer records of `o` than a walk looks at have no expiry time, and one has
/// one: every draw from it finds a record.
pub open spec fn draw_owed_untimed(o: Map<Seq<u8>, Record>) -> bool {
    untimed_keys(o).len() < TTL_WALK_LIMIT && exists|k: Seq<u8>| #[trigger]
        o.contains_key(k) && o[k].ttl_expiry > 0
}

/// The store `o` holds at most as many records as a walk looks at, and one of
/// them has an expiry time: a draw from it finds a record.
pub open spec fn draw_owed(o: Map<Seq<u8>, Record>) -> bool {
    o.dom().len() <= TTL_WALK_LIMIT && exists|k: Seq<u8>| #[trigger]
        o.contains_key(k) && o[k].ttl_expiry > 0
}

/// What a sampling round of `sample_size` draws with clock reading `now` does to
/// the store `o`, leaving `f` and returning `r`: for some sequence of draws, each
/// of which found a record still stored with an expiry time, or found nothing
/// where nothing is owed (`empty_draw_allowed`), `r.0` counts the draws that found
/// a record, exactly the drawn records whose expiry time lies before `now` are
/// removed from the indexes (`r.1` of them), a delete is queued for each of those
/// that reached the disk when writes are buffered, and nothing else changes.
pub open spec fn sampling_outcome(
    o: FunKVView,
    f: FunKVView,
    sample_size: usize,
    now: u64,
    r: (u64, u64),
) -> bool {
    exists|draws: Seq<Option<Seq<u8>>>|
        #![trigger expired_draws(draws, o.records, now)]
        {
            let removed = expired_draws(draws, o.records, now);
            &&& draws.len() == sample_size
            &&& forall|i: int|
                0 <= i < draws.len() && (#[trigger] draws[i]) is Some ==> o.records.contains_key(
                    draws[i]->Some_0,
                ) && o.records[draws[i]->Some_0].ttl_expiry > 0 && records_before(
                    o.records,
                    draws,
                    now,
                    i,
                ).contains_key(draws[i]->Some_0)
            &&& forall|i: int|
                0 <= i < draws.len() && (#[trigger] draws[i]) is None ==> empty_draw_allowed(
                    records_before(o.records, draws, now, i),
                )
            &&& r.0 == draw_count(draws)
            &&& r.1 == removed.len()
            &&& removed.no_duplicates()
            &&& f.records == o.records.remove_keys(removed.to_set())
            &&& f.pending == if o.has_write_buffer {
                o.pending + expiry_deletes(removed.map_values(|k: Seq<u8>| o.records[k]))
            } else {
                o.pending
            }
            &&& f == (FunKVView { records: f.records, pending: f.pending, ..o })
        }
}

proof fn lemma_records_before_push(
    o: Map<Seq<u8>, Record>,
    draws: Seq<Option<Seq<u8>>>,
    x: Option<Seq<u8>>,
    now: u64,
    i: int,
)
    requires
        0 <= i <= draws.len(),
    ensures
        records_before(o, draws.push(x), now, i) == if i == draws.len() {
            o.remove_keys(expired_draws(draws, o, now).to_set())
        } else {
            records_before(o, draws, now, i)
        },
{
    assert(draws.push(x).take(i) =~= draws.take(i));
    if i == draws.len() {
        assert(draws.take(i) =~= draws);
    }
}

/// One sampling round of the expiry sweeper with the clock reading `now`:
/// `sample_size` times a record with an expiry time is drawn (see
/// `get_random_ttl_entry`); one whose expiry time lies before `now` is removed
/// from both indexes and, when it has reached the disk and writes are buffered,
/// a delete of it is queued. Returns how many draws found a record and how many
/// records were removed; the counters are left as they were.
pub fn sample_and_expire_batch_at(store: &mut FunKV, sample_size: usize, now: u64) -> (r: (
    u64,
    u64,
))
    requires
        old(store).wf(),
    ensures
        final(store).wf(),
        r.1 <= r.0 <= sample_size,
        sampling_outcome(old(store)@, final(store)@, sample_size, now, r),
        (forall|k: Seq<u8>| #[trigger]
            old(store)@.records.contains_key(k) ==> old(store)@.records[k].ttl_expiry == 0) ==> r
            == (0u64, 0u64) && final(store)@ == old(store)@,
        sample_size > 0 && draw_owed(old(store)@.records) ==> r.0 > 0,
        sample_size > 0 && draw_owed_untimed(old(store)@.records) ==> r.0 > 0,
        sample_size > 0 && draw_owed_untimed(old(store)@.records) && (forall|k: Seq<u8>| #[trigger]
            old(store)@.records.contains_key(k) && old(store)@.records[k].ttl_expiry > 0
                ==> old(store)@.records[k].ttl_expiry < now) ==> r.1 > 0,
        sample_size > 0 && draw_owed(old(store)@.records) && (forall|k: Seq<u8>| #[trigger]
            old(store)@.records.contains_key(k) && old(store)@.records[k].ttl_expiry > 0
                ==> old(store)@.records[k].ttl_expiry < now) ==> r.1 > 0,
{
    let mut sampled: u64 = 0;
    let mut expired: u64 = 0;
    let ghost mut removed: Seq<Seq<u8>> = Seq::empty();
    let ghost mut draws: Seq<Option<Seq<u8>>> = Seq::empty();
    let ghost o = old(store)@;
    let ghost owed = draw_owed(o.records) || draw_owed_untimed(o.records);
    let ghost all_expired = forall|k: Seq<u8>| #[trigger]
        o.records.contains_key(k) && o.records[k].ttl_expiry > 0 ==> o.records[k].ttl_expiry < now;
    proof {
        assert(o.records.remove_keys(removed.to_set()) =~= o.records);
        assert(removed.map_values(|k: Seq<u8>| o.records[k]) =~= Seq::<Record>::empty());
        assert(o.pending + expiry_deletes(Seq::<Record>::empty()) =~= o.pending);
    }
    let mut n: usize = 0;
    while n < sample_size
        invariant
            store.wf(),
            n <= sample_size,
            expired <= sampled <= n,
            o == old(store)@,
            draws.len() == n,
            forall|i: int|
                0 <= i < draws.len() && (#[trigger] draws[i]) is Some ==> o.records.contains_key(
                    draws[i]->Some_0,
                ) && o.records[draws[i]->Some_0].ttl_expiry > 0,
            sampled == draw_count(draws),
            removed == expired_draws(draws, o.records, now),
            removed.len() == expired,
            removed.no_duplicates(),
            forall|i: int|
                0 <= i < removed.len() ==> o.records.contains_key(#[trigger] removed[i])
                    && o.records[removed[i]].ttl_expiry > 0,
            store@.records == o.records.remove_keys(removed.to_set()),
            store@.pending == if o.has_write_buffer {
                o.pending + expiry_deletes(removed.map_values(|k: Seq<u8>| o.records[k]))
            } else {
                o.pending
            },
            store@ == (FunKVView { records: store@.records, pending: store@.pending, ..o }),
            (forall|k: Seq<u8>| #[trigger] o.records.contains_key(k) ==> o.records[k].ttl_expiry
                == 0) ==> sampled == 0 && store@ == o,
            forall|i: int|
                0 <= i < draws.len() && (#[trigger] draws[i]) is Some ==> records_before(
                    o.records,
                    draws,
                    now,
                    i,
                ).contains_key(draws[i]->Some_0),
            forall|i: int|
                0 <= i < draws.len() && (#[trigger] draws[i]) is None ==> empty_draw_allowed(
                    records_before(o.records, draws, now, i),
                ),
            owed == (draw_owed(o.records) || draw_owed_untimed(o.records)),
            all_expired == (forall|k: Seq<u8>| #[trigger]
                o.records.contains_key(k) && o.records[k].ttl_expiry > 0 ==> o.records[k].ttl_expiry
                    < now),
            n > 0 && owed ==> sampled > 0,
            n > 0 && owed && all_expired ==> expired > 0,
        decreases sample_size - n,
    {
        let ghost before_draws = draws;
        let ghost before_records = store@.records;
        proof {
            if n == 0 {
                assert(removed =~= Seq::<Seq<u8>>::empty());
                assert(store@.records =~= o.records);
            }
        }
        let drawn = store.get_random_ttl_entry();
        proof {
            if forall|k: Seq<u8>| #[trigger] o.records.contains_key(k) ==> o.records[k].ttl_expiry == 0 {
                assert forall|k: Seq<u8>| #[trigger] store@.records.contains_key(k) implies store@.records[k].ttl_expiry == 0 by {
                    assert(o.records.contains_key(k));
                }
            }
        }
        if let Some((key, record)) = drawn {
            proof {
                draws = draws.push(Some(key@));
                assert(draws.drop_last() =~= before_draws);
                assert(o.records.contains_key(key@) && o.records[key@] == *record);
                assert forall|i: int|
                    0 <= i < draws.len() && (#[trigger] draws[i]) is Some implies o.records.contains_key(
                        draws[i]->Some_0,
                    ) && o.records[draws[i]->Some_0].ttl_expiry > 0 by {
                    if i < before_draws.len() {
                        assert(draws[i] == before_draws[i]);
                    }
                }
                assert forall|i: int|
                    0 <= i < draws.len() && (#[trigger] draws[i]) is Some implies records_before(
                        o.records,
                        draws,
                        now,
                        i,
                    ).contains_key(draws[i]->Some_0) by {
                    lemma_records_before_push(o.records, before_draws, Some(key@), now, i);
                    if i < before_draws.len() {
                        assert(draws[i] == before_draws[i]);
                    }
                }
                assert forall|i: int|
                    0 <= i < draws.len() && (#[trigger] draws[i]) is None implies empty_draw_allowed(
                        records_before(o.records, draws, now, i),
                    ) by {
                    lemma_records_before_push(o.records, before_draws, Some(key@), now, i);
                    assert(draws[i] == before_draws[i]);
                }
            }
            sampled = sampled + 1;
            let ttl = record.ttl_expiry;
            if ttl > 0 && ttl < now {
                let ghost k = key@;
                let ghost before_removed = removed;
                proof {
                    assert(!removed.contains(k));
                    assert(o.records.contains_key(k) && o.records[k] == *record);
                }
                index_remove(&mut store.hash_table, key.as_slice());
                tree_remove(&mut store.tree, key.as_slice());
                expired = expired + 1;
                proof {
                    broadcast use vstd::seq_lib::group_seq_properties;
                    removed = removed.push(k);
                    assert(removed.to_set() =~= before_removed.to_set().insert(k));
                    assert(store@.records =~= o.records.remove_keys(removed.to_set()));
                    assert(removed.map_values(|kk: Seq<u8>| o.records[kk]).drop_last() =~= before_removed.map_values(
                        |kk: Seq<u8>| o.records[kk],
                    ));
                }
                if record.sector > 0 && store.has_write_buffer {
                    let ghost before = store.pending_writes@;
                    store.pending_writes.push(WriteEntry::new(Operation::Delete, record, 0));
                    proof {
                        assert(store@.pending =~= before.map_values(|e: WriteEntry| entry_view(e)).push(
                            (Operation::Delete, o.records[k], 0usize),
                        ));
                    }
                }
            }
        } else {
            proof {
                draws = draws.push(None);
                assert(draws.drop_last() =~= before_draws);
                assert(empty_draw_allowed(before_records)) by {
                    if !(before_records.dom().len() > TTL_WALK_LIMIT) {
                        assert forall|k: Seq<u8>| #[trigger] before_records.contains_key(k) implies before_records[k].ttl_expiry == 0 by {
                            if before_records[k].ttl_expiry > 0 {
                                assert(before_records.contains_key(k) && before_records[k].ttl_expiry > 0);
                            }
                        }
                    }
                }
                assert forall|i: int|
                    0 <= i < draws.len() && (#[trigger] draws[i]) is Some implies records_before(
                        o.records,
                        draws,
                        now,
                        i,
                    ).contains_key(draws[i]->Some_0) by {
                    lemma_records_before_push(o.records, before_draws, None, now, i);
                    assert(draws[i] == before_draws[i]);
                }
                assert forall|i: int|
                    0 <= i < draws.len() && (#[trigger] draws[i]) is None implies empty_draw_allowed(
                        records_before(o.records, draws, now, i),
                    ) by {
                    lemma_records_before_push(o.records, before_draws, None, now, i);
                    if i < before_draws.len() {
                        assert(draws[i] == before_draws[i]);
                    }
                }
                assert forall|i: int|
                    0 <= i < draws.len() && (#[trigger] draws[i]) is Some implies o.records.contains_key(
                        draws[i]->Some_0,
                    ) && o.records[draws[i]->Some_0].ttl_expiry > 0 by {
                    if i < before_draws.len() {
                        assert(draws[i] == before_draws[i]);
                    }
                }
            }
        }
        n = n + 1;
    }
    proof {
        assert(removed == expired_draws(draws, o.records, now));
    }
    (sampled, expired)
}

/// One sampling round of the expiry sweeper, with the clock read at its start:
/// what `sample_and_expire_batch_at` does with that reading.
pub fn sample_and_expire_batch(store: &mut FunKV, sample_size: usize) -> (r: (u64, u64))
    requires
        old(store).wf(),
    ensures
        final(store).wf(),
        r.1 <= r.0 <= sample_size,
        exists|now: u64| sampling_outcome(old(store)@, final(store)@, sample_size, now, r),
        (forall|k: Seq<u8>| #[trigger]
            old(store)@.records.contains_key(k) ==> old(store)@.records[k].ttl_expiry == 0) ==> r
            == (0u64, 0u64) && final(store)@ == old(store)@,
        sample_size > 0 && draw_owed(old(store)@.records) ==> r.0 > 0,
        sample_size > 0 && draw_owed_untimed(old(store)@.records) ==> r.0 > 0,
{
    let now = store.get_timestamp();
    sample_and_expire_batch_at(store, sample_size, now)
}

/// What the expiry sweeper has done, as counters that wrap around.
pub struct TtlSweeperStats {
    pub total_sampled: u64,
    pub total_expired: u64,
    pub total_runs: u64,
    /// Clock reading, in nanoseconds since the epoch, of the last run that sampled anything.
    pub last_run: u64,
}

/// A copy of the sweeper's counters.
#[derive(Debug, Clone)]
pub struct TtlSweeperSnapshot {
    pub total_sampled: u64,
    pub total_expired: u64,
    pub total_runs: u64,
    pub last_run: u64,
}

impl TtlSweeperStats {
    pub fn new() -> (r: Self)
        ensures
            r.total_sampled == 0,
            r.total_expired == 0,
            r.total_runs == 0,
            r.last_run == 0,
    {
        Self { total_sampled: 0, total_expired: 0, total_runs: 0, last_run: 0 }
    }

    /// Counts one run of the sweeper that drew `sampled` records and removed
    /// `expired`; a run that drew nothing is not counted. The time of a counted
    /// run is the clock's.
    pub fn record_run(&mut self, sampled: u64, expired: u64)
        ensures
            sampled == 0 ==> *final(self) == *old(self),
            sampled > 0 ==> {
                &&& final(self).total_sampled == wadd64(old(self).total_sampled, sampled)
                &&& final(self).total_expired == wadd64(old(self).total_expired, expired)
                &&& final(self).total_runs == wadd64(old(self).total_runs, 1)
            },
    {
        if sampled > 0 {
            self.total_sampled = self.total_sampled.wrapping_add(sampled);
            self.total_expired = self.total_expired.wrapping_add(expired);
            self.total_runs = self.total_runs.wrapping_add(1);
            self.last_run = wall_clock_nanos();
        }
    }

    pub fn snapshot(&self) -> (r: TtlSweeperSnapshot)
        ensures
            r.total_sampled == self.total_sampled,
            r.total_expired == self.total_expired,
            r.total_runs == self.total_runs,
            r.last_run == self.last_run,
    {
        TtlSweeperSnapshot {
            total_sampled: self.total_sampled,
            total_expired: self.total_expired,
            total_runs: self.total_runs,
            last_run: self.last_run,
        }
    }
}

} // verus!
