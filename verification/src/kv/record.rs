use vstd::prelude::*;

use crate::constants::{BLOCK_SIZE, SECTOR_HEADER_SIZE};

verus! {

/// The in-memory footprint of a record apart from its key and value bytes.
pub const RECORD_OVERHEAD: usize = 120;

/// The memory a record with a key of `key_len` bytes and a value of `value_len`
/// bytes is charged for.
pub open spec fn record_size_spec(key_len: int, value_len: int) -> int {
    RECORD_OVERHEAD + key_len + value_len
}

/// `std::vec::Vec::capacity`: the number of elements the vector can hold without
/// reallocating. Its documentation guarantees that this is at least the length
/// and that a vector of bytes never holds more than `isize::MAX` bytes; the exact
/// figure is chosen by the allocator and is not stated here.
#[verifier::external_body]
fn vec_capacity(v: &Vec<u8>) -> (r: usize)
    ensures
        v.len() <= r <= isize::MAX,
{
    v.capacity()
}

/// One key with its value and bookkeeping.
#[derive(Debug, Clone)]
pub struct Record {
    pub key: Vec<u8>,
    /// The value, or `None` once it lives only on disk.
    pub value: Option<Vec<u8>>,
    /// Expiry time in nanoseconds since the epoch; 0 means the record never expires.
    pub ttl_expiry: u64,
    pub timestamp: u64,
    pub value_len: usize,
    /// First sector of the record on disk; 0 until it has been written.
    pub sector: u64,
    pub refcount: u32,
    pub key_len: u16,
    pub cache_ref_bit: u32,
    pub cache_access_time: u64,
}

impl Record {
    pub fn new(key: Vec<u8>, value: Vec<u8>, timestamp: u64) -> (r: Self)
        ensures
            r.key@ == key@,
            r.value.is_some() && r.value.unwrap()@ == value@,
            r.ttl_expiry == 0,
            r.timestamp == timestamp,
            r.value_len == value.len(),
            r.sector == 0,
            r.refcount == 1,
            r.key_len == key.len() as u16,
            r.cache_ref_bit == 0,
            r.cache_access_time == 0,
    {
        let key_len = key.len() as u16;
        let value_len = value.len();

        Self {
            key,
            value: Some(value),
            ttl_expiry: 0,
            timestamp,
            value_len,
            sector: 0,
            refcount: 1,
            key_len,
            cache_ref_bit: 0,
            cache_access_time: 0,
        }
    }

    pub fn new_with_ttl(key: Vec<u8>, value: Vec<u8>, timestamp: u64, ttl_expiry: u64) -> (r: Self)
        ensures
            r.key@ == key@,
            r.value.is_some() && r.value.unwrap()@ == value@,
            r.ttl_expiry == ttl_expiry,
            r.timestamp == timestamp,
            r.value_len == value.len(),
            r.sector == 0,
            r.refcount == 1,
            r.key_len == key.len() as u16,
            r.cache_ref_bit == 0,
            r.cache_access_time == 0,
    {
        let mut record = Self::new(key, value, timestamp);
        record.ttl_expiry = ttl_expiry;

        record
    }

    /// The memory this record is charged for: the fixed part, the space held
    /// for its key (its capacity, at least its length), and its value length.
    pub fn calculate_size(&self) -> (r: usize)
        requires
            self.value_len <= usize::MAX - isize::MAX - RECORD_OVERHEAD,
        ensures
            record_size_spec(self.key.len() as int, self.value_len as int) <= r,
            exists|cap: int|
                self.key.len() <= cap <= isize::MAX && r == #[trigger] record_size_spec(
                    cap,
                    self.value_len as int,
                ),
    {
        let cap = vec_capacity(&self.key);
        let r = calculate_record_size(cap, self.value_len);
        assert(record_size_spec(cap as int, self.value_len as int) == r);
        r
    }

    /// The bytes this record takes on disk, rounded up to whole blocks.
    pub fn calculate_disk_size(&self) -> (r: usize)
        requires
            disk_record_bytes(self.key_len, self.value_len) + BLOCK_SIZE <= usize::MAX,
        ensures
            r == blocks_for(disk_record_bytes(self.key_len, self.value_len)) * BLOCK_SIZE,
    {
        let record_size = SECTOR_HEADER_SIZE + 2 + self.key_len as usize + core::mem::size_of::<
            usize,
        >() + 8 + self.value_len;

        // Round up to block size
        let blocks = record_size / BLOCK_SIZE + if record_size % BLOCK_SIZE != 0 {
            1usize
        } else {
            0usize
        };
        proof {
            assert(blocks * BLOCK_SIZE <= record_size + BLOCK_SIZE) by (nonlinear_arith)
                requires
                    blocks == record_size / BLOCK_SIZE + if record_size % BLOCK_SIZE != 0 {
                        1int
                    } else {
                        0int
                    },
            ;
        }
        blocks * BLOCK_SIZE
    }

    #[inline]
    pub fn get_value(&self) -> (r: Option<Vec<u8>>)
        ensures
            r.is_some() == self.value.is_some(),
            r.is_some() ==> r.unwrap()@ == self.value.unwrap()@,
    {
        match &self.value {
            Some(v) => Some(v.clone()),
            None => None,
        }
    }

    #[inline]
    pub fn clear_value(&mut self)
        ensures
            *final(self) == (Record { value: None, ..*old(self) }),
    {
        self.value = None;
    }

    pub fn inc_ref(&mut self)
        ensures
            *final(self) == (Record {
                refcount: vstd::wrapping::u32_specs::wrapping_add(old(self).refcount, 1),
                ..*old(self)
            }),
    {
        self.refcount = self.refcount.wrapping_add(1);
    }

    /// Drops one reference and returns how many are left.
    pub fn dec_ref(&mut self) -> (r: u32)
        requires
            old(self).refcount > 0,
        ensures
            r == old(self).refcount - 1,
            *final(self) == (Record { refcount: r, ..*old(self) }),
    {
        let old = self.refcount;
        self.refcount = old - 1;
        old - 1
    }

    pub fn ref_count(&self) -> (r: u32)
        ensures
            r == self.refcount,
    {
        self.refcount
    }
}

/// The bytes of a record on disk before rounding: sector header, key length,
/// key, value length (a machine word), timestamp and value.
pub open spec fn disk_record_bytes(key_len: u16, value_len: usize) -> int {
    SECTOR_HEADER_SIZE + 2 + key_len + vstd::layout::size_of::<usize>() + 8 + value_len
}

/// The number of whole blocks that hold `bytes` bytes.
pub open spec fn blocks_for(bytes: int) -> int {
    (bytes + BLOCK_SIZE - 1) / BLOCK_SIZE as int
}

/// The memory charged for a record with `key_len` key bytes and `value_len` value bytes.
pub fn calculate_record_size(key_len: usize, value_len: usize) -> (r: usize)
    requires
        record_size_spec(key_len as int, value_len as int) <= usize::MAX,
    ensures
        r == record_size_spec(key_len as int, value_len as int),
{
    RECORD_OVERHEAD + key_len + value_len
}

} // verus!
