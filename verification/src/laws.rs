use vstd::prelude::*;

use crate::error::DbError;
use crate::kv::cache::{cache_after_remove, cache_insert_effect, entry_size, CacheView};
use crate::kv::record::Record;
use crate::kv::store::recovery::{record_sectors, sector_record};
use crate::kv::store::{charge_limit, expiry_of, get_effect, insert_effect, FunKVView};
use crate::constants::{BLOCK_SIZE, SECTOR_HEADER_SIZE, SECTOR_MARKER};
use crate::storage::blocks::deleted_marker_seq;
use crate::storage::format::{encode_record, header_size_spec, lemma_parse_encoded, parse_spec, stored_value};
use crate::storage::write_buffer::{disk_image, sector_header_seq, sector_image};

verus! {

/// Read after write: once a write of `value` under `key` has succeeded, the next
/// read of `key` returns `value`, unless the read cache holds another value for
/// the key and answers first, or the write gave the record an expiry time.
pub proof fn lemma_read_after_write(
    o: FunKVView,
    m: FunKVView,
    f: FunKVView,
    key: Seq<u8>,
    value: Seq<u8>,
    ts: u64,
    ttl: u64,
    written: Result<bool, DbError>,
    read: Result<Vec<u8>, DbError>,
)
    requires
        insert_effect(o, m, key, value, ts, ttl, written),
        written is Ok,
        get_effect(m, f, key, read),
        m.enable_caching && m.cache is Some && m.cache.unwrap().entries.contains_key(key) ==> m.cache.unwrap().entries[key] == value,
        expiry_of(o.enable_ttl, ttl) == 0,
    ensures
        read is Ok,
        read.unwrap()@ == value,
{
}

/// A refused write is answered with its error and leaves the store as it was.
pub proof fn lemma_refused_write_changes_nothing(
    o: FunKVView,
    f: FunKVView,
    key: Seq<u8>,
    value: Seq<u8>,
    ts: u64,
    ttl: u64,
    r: Result<bool, DbError>,
)
    requires
        insert_effect(o, f, key, value, ts, ttl, r),
        r is Err,
    ensures
        f == o,
{
}

/// A write reports `true` exactly when the key was not stored before.
pub proof fn lemma_write_reports_new_key(
    o: FunKVView,
    f: FunKVView,
    key: Seq<u8>,
    value: Seq<u8>,
    ts: u64,
    ttl: u64,
    r: Result<bool, DbError>,
)
    requires
        insert_effect(o, f, key, value, ts, ttl, r),
        r is Ok,
    ensures
        r.unwrap() <==> !o.records.contains_key(key),
        f.records.contains_key(key),
{
}

/// The cache answers with what was last put in it: after a value small enough
/// for the cache is inserted under `key`, a lookup of `key` finds it, and no
/// other key gains an entry.
pub proof fn lemma_cache_read_after_insert(o: CacheView, f: CacheView, key: Seq<u8>, value: Seq<u8>)
    requires
        cache_insert_effect(o, f, key, value),
        entry_size(key.len() as int, value.len() as int) <= o.high_watermark / 4,
    ensures
        f.entries.contains_key(key),
        f.entries[key] == value,
        forall|k: Seq<u8>| #[trigger] f.entries.contains_key(k) && k != key ==> o.entries.contains_key(k) && f.entries[k] == o.entries[k],
{
    assert forall|k: Seq<u8>| #[trigger] f.entries.contains_key(k) && k != key implies o.entries.contains_key(k) && f.entries[k] == o.entries[k] by {
        assert(f.entries.remove(key).contains_key(k));
    }
}

/// After `key` is removed from the cache, a lookup of it finds nothing, and the
/// other entries stay.
pub proof fn lemma_cache_remove_then_miss(c: CacheView, key: Seq<u8>)
    ensures
        !cache_after_remove(c, key).entries.contains_key(key),
        forall|k: Seq<u8>| k != key && #[trigger] c.entries.contains_key(k) ==> cache_after_remove(c, key).entries.contains_key(k) && cache_after_remove(c, key).entries[k] == c.entries[k],
{
}

proof fn lemma_image_split(r: Record)
    requires
        r.key.len() <= u16::MAX,
        r.value is Some ==> r.value.unwrap()@.len() == r.value_len,
    ensures
        ({
            let v = if r.value is Some {
                r.value.unwrap()@
            } else {
                Seq::<u8>::empty()
            };
            let n = record_sectors(r.key.len() as int, r.value_len as int) * BLOCK_SIZE;
            let z = Seq::new((n - sector_image(r).len()) as nat, |i: int| 0u8);
            &&& sector_image(r).len() <= n
            &&& disk_image(r) == sector_image(r) + z
            &&& disk_image(r) == sector_header_seq()
                + encode_record(r.key@, r.value_len, r.timestamp, r.ttl_expiry, v + z)
            &&& disk_image(r).len() == n
        }),
{
    let v = if r.value is Some {
        r.value.unwrap()@
    } else {
        Seq::<u8>::empty()
    };
    let total = header_size_spec(r.key.len() as int) + r.value_len;
    let n = record_sectors(r.key.len() as int, r.value_len as int) * BLOCK_SIZE;
    assert(n >= total) by (nonlinear_arith)
        requires
            n == ((total + BLOCK_SIZE - 1) / BLOCK_SIZE as int) * BLOCK_SIZE,
            total >= 0,
    ;
    vstd::bytes::lemma_auto_spec_u16_to_from_le_bytes();
    vstd::bytes::lemma_auto_spec_u64_to_from_le_bytes();
    let si = sector_image(r);
    assert(si.len() == 4 + 2 + r.key.len() + 24 + v.len());
    let z = Seq::new((n - si.len()) as nat, |i: int| 0u8);
    let h = sector_header_seq();
    assert(si + z =~= h + encode_record(r.key@, r.value_len, r.timestamp, r.ttl_expiry, v + z));
}

/// What the write buffer puts on disk for a record is found again by recovery:
/// the sector image of a record with a non-empty key of at most 65535 bytes (the
/// key length is stored in 16 bits) parses back to its
/// key, value length, timestamp and expiry time, and spans exactly the sectors
/// recovery skips over.
pub proof fn lemma_disk_image_recovered(r: Record)
    requires
        0 < r.key.len() <= u16::MAX,
        r.value_len <= charge_limit(),
        r.value is Some ==> r.value.unwrap()@.len() == r.value_len,
    ensures
        sector_record(disk_image(r)) == Some((r.key@, r.value_len, r.timestamp, r.ttl_expiry)),
        disk_image(r).len() == record_sectors(r.key.len() as int, r.value_len as int) * BLOCK_SIZE,
{
    lemma_image_split(r);
    let v = if r.value is Some {
        r.value.unwrap()@
    } else {
        Seq::<u8>::empty()
    };
    let d = disk_image(r);
    let n = record_sectors(r.key.len() as int, r.value_len as int) * BLOCK_SIZE;
    let z = Seq::new((n - sector_image(r).len()) as nat, |i: int| 0u8);
    let h = sector_header_seq();
    vstd::bytes::lemma_auto_spec_u16_to_from_le_bytes();
    assert(h.len() == SECTOR_HEADER_SIZE);
    lemma_parse_encoded(h, r.key@, r.value_len, r.timestamp, r.ttl_expiry, v + z);
    assert(d.take(SECTOR_HEADER_SIZE as int) =~= h);
    assert((SECTOR_MARKER & 0xff) as u8 == 0x46u8) by (bit_vector);
    if d.len() >= 8 && d.take(8) == deleted_marker_seq() {
        assert(d.take(8)[0] == d[0]);
    }
}

/// What the write buffer puts on disk for a record holding its value is read
/// back as that value.
pub proof fn lemma_value_read_back(r: Record)
    requires
        r.key.len() <= u16::MAX,
        r.value is Some,
        r.value.unwrap()@.len() == r.value_len,
    ensures
        stored_value(r.key.len() as int, r.value_len as int, disk_image(r)) == Some(r.value.unwrap()@),
{
    lemma_image_split(r);
    vstd::bytes::lemma_auto_spec_u16_to_from_le_bytes();
    vstd::bytes::lemma_auto_spec_u64_to_from_le_bytes();
    let d = disk_image(r);
    let v = r.value.unwrap()@;
    let n = record_sectors(r.key.len() as int, r.value_len as int) * BLOCK_SIZE;
    let z = Seq::new((n - sector_image(r).len()) as nat, |i: int| 0u8);
    let hl = header_size_spec(r.key.len() as int);
    let prefix = sector_header_seq() + vstd::bytes::spec_u16_to_le_bytes(r.key.len() as u16) + r.key@
        + vstd::bytes::spec_u64_to_le_bytes(r.value_len as u64) + vstd::bytes::spec_u64_to_le_bytes(
        r.timestamp,
    ) + vstd::bytes::spec_u64_to_le_bytes(r.ttl_expiry);
    assert(d =~= prefix + v + z);
    assert(prefix.len() == hl);
    assert(d.subrange(hl, hl + r.value_len) =~= v);
}


/// What the write buffer puts on disk for a record parses back to the record's
/// key, value length, timestamp and expiry time whenever the key's length fits
/// the 16 bits that store it, and spans whole sectors: as many as the record's
/// header and value need.
pub proof fn lemma_disk_image_parses(r: Record)
    requires
        r.key.len() <= u16::MAX,
    ensures
        parse_spec(disk_image(r)) == Some((r.key@, r.value_len, r.timestamp, r.ttl_expiry)),
        disk_image(r).len() == record_sectors(r.key.len() as int, r.value_len as int) * BLOCK_SIZE,
{
    let total = header_size_spec(r.key.len() as int) + r.value_len;
    let n = record_sectors(r.key.len() as int, r.value_len as int) * BLOCK_SIZE;
    assert(n >= total) by (nonlinear_arith)
        requires
            n == ((total + BLOCK_SIZE - 1) / BLOCK_SIZE as int) * BLOCK_SIZE,
            total >= 0,
    ;
    vstd::bytes::lemma_auto_spec_u16_to_from_le_bytes();
    vstd::bytes::lemma_auto_spec_u64_to_from_le_bytes();
    let h = sector_header_seq();
    let m = SECTOR_HEADER_SIZE + 2 + r.key.len() + 24;
    let d = disk_image(r);
    let si = sector_image(r);
    assert(si.len() >= m);
    assert(d.len() == n);
    assert(d.take(m as int) =~= si.take(m as int));
    let rest = d.skip(m as int);
    assert(d =~= h + encode_record(r.key@, r.value_len, r.timestamp, r.ttl_expiry, rest));
    lemma_parse_encoded(h, r.key@, r.value_len, r.timestamp, r.ttl_expiry, rest);
}

} // verus!
