use vstd::prelude::*;
use vstd::bytes::{
    spec_u16_from_le_bytes, spec_u16_to_le_bytes, spec_u64_from_le_bytes, spec_u64_to_le_bytes,
    u16_from_le_bytes, u16_to_le_bytes, u64_from_le_bytes, u64_to_le_bytes,
};

use crate::constants::SECTOR_HEADER_SIZE;
use crate::error::DbError;
use crate::kv::record::Record;

verus! {

/// The bytes that describe a record, after the sector header: key length (2 bytes,
/// little-endian), key, value length, timestamp and expiry time (8 bytes each,
/// little-endian), then the value.
pub open spec fn encode_record(
    key: Seq<u8>,
    value_len: usize,
    timestamp: u64,
    ttl: u64,
    value: Seq<u8>,
) -> Seq<u8> {
    spec_u16_to_le_bytes(key.len() as u16) + key + spec_u64_to_le_bytes(value_len as u64)
        + spec_u64_to_le_bytes(timestamp) + spec_u64_to_le_bytes(ttl) + value
}

/// What `serialize_record` writes for `r`: the value only when asked for and
/// present in memory.
pub open spec fn record_bytes(r: Record, include_value: bool) -> Seq<u8> {
    encode_record(
        r.key@,
        r.value_len,
        r.timestamp,
        r.ttl_expiry,
        if include_value && r.value.is_some() {
            r.value.unwrap()@
        } else {
            Seq::empty()
        },
    )
}

/// The key, value length, timestamp and expiry time that a sector starting
/// with `data` describes, if it is long enough to hold them.
pub open spec fn parse_spec(data: Seq<u8>) -> Option<(Seq<u8>, usize, u64, u64)> {
    let h = SECTOR_HEADER_SIZE as int;
    if data.len() < h + 2 {
        None
    } else {
        let kl = spec_u16_from_le_bytes(data.subrange(h, h + 2)) as int;
        let o = h + 2 + kl;
        if o + 24 > data.len() {
            None
        } else {
            Some(
                (
                    data.subrange(h + 2, o),
                    spec_u64_from_le_bytes(data.subrange(o, o + 8)) as usize,
                    spec_u64_from_le_bytes(data.subrange(o + 8, o + 16)),
                    spec_u64_from_le_bytes(data.subrange(o + 16, o + 24)),
                ),
            )
        }
    }
}

/// How records are laid out on disk.
pub trait RecordFormat {
    fn record_header_size(&self, key_len: usize) -> usize
        requires
            key_len <= usize::MAX - 30,
    ;

    fn total_size(&self, key_len: usize, value_len: usize) -> usize
        requires
            key_len + value_len <= usize::MAX - 30,
    ;

    fn serialize_record(&self, record: &Record, include_value: bool) -> Vec<u8>
        requires
            record.key.len() + record.value_len <= usize::MAX - 30,
    ;

    fn parse_record(&self, data: &[u8]) -> Option<(Vec<u8>, usize, u64, u64)>;
}

/// The record layout of the first metadata version.
pub struct DefaultFormat;

/// Header bytes of a record with a key of `key_len` bytes: sector header, key
/// length, key, value length, timestamp and expiry time.
pub open spec fn header_size_spec(key_len: int) -> int {
    SECTOR_HEADER_SIZE + 2 + key_len + 8 + 8 + 8
}

impl RecordFormat for DefaultFormat {
    fn record_header_size(&self, key_len: usize) -> (r: usize)
        ensures
            r == header_size_spec(key_len as int),
    {
        SECTOR_HEADER_SIZE + 2 + key_len + 8 + 8 + 8  //header + key_len(2) + key + value_len(8) + timestamp(8) + ttl(8)

    }

    fn total_size(&self, key_len: usize, value_len: usize) -> (r: usize)
        ensures
            r == header_size_spec(key_len as int) + value_len,
    {
        self.record_header_size(key_len) + value_len
    }

    fn serialize_record(&self, record: &Record, include_value: bool) -> (r: Vec<u8>)
        ensures
            r@ == record_bytes(*record, include_value),
    {
        let mut data = Vec::with_capacity(self.total_size(record.key.len(), record.value_len));

        let mut b = u16_to_le_bytes(record.key.len() as u16);
        data.append(&mut b);

        data.extend_from_slice(record.key.as_slice());

        let mut b = u64_to_le_bytes(record.value_len as u64);
        data.append(&mut b);

        let mut b = u64_to_le_bytes(record.timestamp);
        data.append(&mut b);

        let mut b = u64_to_le_bytes(record.ttl_expiry);
        data.append(&mut b);

        let ghost before_value = data@;
        if include_value {
            if let Some(value) = &record.value {
                data.extend_from_slice(value.as_slice());
            }
        }
        proof {
            let v = if include_value && record.value.is_some() {
                record.value.unwrap()@
            } else {
                Seq::empty()
            };
            assert(data@ =~= before_value + v);
            assert(before_value =~= spec_u16_to_le_bytes(record.key.len() as u16) + record.key@
                + spec_u64_to_le_bytes(record.value_len as u64) + spec_u64_to_le_bytes(
                record.timestamp,
            ) + spec_u64_to_le_bytes(record.ttl_expiry));
        }

        data
    }

    fn parse_record(&self, data: &[u8]) -> (r: Option<(Vec<u8>, usize, u64, u64)>)
        ensures
            match r {
                Some((key, value_len, timestamp, ttl)) => parse_spec(data@) == Some(
                    (key@, value_len, timestamp, ttl),
                ),
                None => parse_spec(data@) is None,
            },
    {
        if data.len() < SECTOR_HEADER_SIZE + 2 {
            return None;
        }

        let mut offset = SECTOR_HEADER_SIZE + 2;
        let key_len = u16_from_le_bytes(&data[SECTOR_HEADER_SIZE..offset]) as usize;

        if offset + key_len + 24 > data.len() {
            return None;
        }

        let key = vstd::slice::slice_to_vec(&data[offset..offset + key_len]);
        offset = offset + key_len;

        let value_len = u64_from_le_bytes(&data[offset..offset + 8]) as usize;
        offset = offset + 8;

        let timestamp = u64_from_le_bytes(&data[offset..offset + 8]);
        offset = offset + 8;

        let ttl = u64_from_le_bytes(&data[offset..offset + 8]);

        Some((key, value_len, timestamp, ttl))
    }
}

/// The value bytes that sectors `data`, starting a record with a key of
/// `key_len` bytes, hold for a value of `value_len` bytes, if they reach that far.
pub open spec fn stored_value(key_len: int, value_len: int, data: Seq<u8>) -> Option<Seq<u8>> {
    let h = header_size_spec(key_len);
    if h + value_len > data.len() {
        None
    } else {
        Some(data.subrange(h, h + value_len))
    }
}

/// Takes the value of a record with a key of `key_len` bytes and a value of
/// `value_len` bytes out of the sectors `data` that hold it; sectors too short
/// for it are refused as `InvalidRecord`.
pub fn value_in_sectors(key_len: usize, value_len: usize, data: &[u8]) -> (r: Result<Vec<u8>, DbError>)
    requires
        key_len + value_len <= usize::MAX - 30,
    ensures
        match r {
            Ok(v) => stored_value(key_len as int, value_len as int, data@) == Some(v@),
            Err(e) => e == DbError::InvalidRecord && stored_value(
                key_len as int,
                value_len as int,
                data@,
            ) is None,
        },
{
    let format = DefaultFormat;
    let offset = format.record_header_size(key_len);
    if offset + value_len > data.len() {
        return Err(DbError::InvalidRecord);
    }
    Ok(vstd::slice::slice_to_vec(&data[offset..offset + value_len]))
}

/// The record format of a metadata version; there is one format so far.
pub fn get_format(version: u32) -> (r: DefaultFormat) {
    match version {
        _ => DefaultFormat,
    }
}

/// A sector header followed by the encoding of a record parses back to the
/// record's key, value length, timestamp and expiry time, whatever the header and
/// the bytes after, when the key is shorter than 65536 bytes.
pub proof fn lemma_parse_encoded(
    header: Seq<u8>,
    key: Seq<u8>,
    value_len: usize,
    timestamp: u64,
    ttl: u64,
    rest: Seq<u8>,
)
    requires
        header.len() == SECTOR_HEADER_SIZE,
        key.len() <= u16::MAX,
    ensures
        parse_spec(header + encode_record(key, value_len, timestamp, ttl, rest)) == Some(
            (key, value_len, timestamp, ttl),
        ),
{
    vstd::bytes::lemma_auto_spec_u16_to_from_le_bytes();
    vstd::bytes::lemma_auto_spec_u64_to_from_le_bytes();
    let kl = spec_u16_to_le_bytes(key.len() as u16);
    let vl = spec_u64_to_le_bytes(value_len as u64);
    let ts = spec_u64_to_le_bytes(timestamp);
    let tt = spec_u64_to_le_bytes(ttl);
    let d = header + encode_record(key, value_len, timestamp, ttl, rest);
    let n = key.len() as int;
    assert(d =~= header + kl + key + vl + ts + tt + rest);
    assert(d.subrange(4, 6) =~= kl);
    assert((key.len() as u16) as int == n);
    assert(d.subrange(6, 6 + n) =~= key);
    assert(d.subrange(6 + n, 14 + n) =~= vl);
    assert(d.subrange(14 + n, 22 + n) =~= ts);
    assert(d.subrange(22 + n, 30 + n) =~= tt);
    assert((value_len as u64) as usize == value_len);
}

/// A record written by `serialize_record` behind any sector header parses back
/// to its key, value length, timestamp and expiry time, when its key is shorter
/// than 65536 bytes; longer keys have their length cut to 16 bits on disk.
pub proof fn lemma_serialize_parse_round_trip(header: Seq<u8>, r: Record, include_value: bool)
    requires
        header.len() == SECTOR_HEADER_SIZE,
        r.key.len() <= u16::MAX,
    ensures
        parse_spec(header + record_bytes(r, include_value)) == Some(
            (r.key@, r.value_len, r.timestamp, r.ttl_expiry),
        ),
{
    let v = if include_value && r.value.is_some() {
        r.value.unwrap()@
    } else {
        Seq::empty()
    };
    lemma_parse_encoded(header, r.key@, r.value_len, r.timestamp, r.ttl_expiry, v);
}

/// Parsing is exact about how much input it needs: it succeeds on a sector
/// exactly when the sector holds the key length, the key and the three numbers.
pub proof fn lemma_parse_needs(data: Seq<u8>)
    ensures
        parse_spec(data) is Some <==> data.len() >= SECTOR_HEADER_SIZE + 2 && data.len()
            >= SECTOR_HEADER_SIZE + 2 + spec_u16_from_le_bytes(data.subrange(4, 6)) + 24,
{
}

} // verus!
