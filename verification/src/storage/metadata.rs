use vstd::prelude::*;

use crate::constants::{
    BLOCK_SIZE, MAX_PERSISTENT_SIZE, METADATA_VERSION, RESERVED_SIZE, SIGNATURE_SIZE,
};

use crate::utils::bytes_eq::bytes_eq;
use vstd::bytes::{
    spec_u32_from_le_bytes, spec_u32_to_le_bytes, spec_u64_from_le_bytes, spec_u64_to_le_bytes,
    u32_from_le_bytes, u32_to_le_bytes, u64_from_le_bytes, u64_to_le_bytes,
};

verus! {

/// The bytes `FUNKV_SIG` that open every metadata block.
pub open spec fn signature_seq() -> Seq<u8> {
    seq![70u8, 85u8, 78u8, 75u8, 86u8, 95u8, 83u8, 73u8, 71u8]
}

/// The signature bytes.
pub fn signature() -> (r: [u8; SIGNATURE_SIZE])
    ensures
        r@ == signature_seq(),
{
    let r: [u8; SIGNATURE_SIZE] = [70u8, 85u8, 78u8, 75u8, 86u8, 95u8, 83u8, 73u8, 71u8];
    assert(r@ =~= signature_seq());
    r
}

/// Seconds since the Unix epoch by the system clock, or 0 when the clock is set
/// before the epoch. Nothing is stated of the value: it is the time of the call.
#[verifier::external_body]
fn get_time_now() -> u64 {
    std::time::SystemTime::now().duration_since(std::time::UNIX_EPOCH).map(|d| d.as_secs()).unwrap_or(0)
}

/// `m` is the metadata of a fresh store: signed, of the current version and
/// block size, with nothing counted, created and last updated at one time, and
/// zeroed reserved bytes.
pub open spec fn initial_metadata(m: Metadata) -> bool {
    &&& m.signature@ == signature_seq()
    &&& m.version == METADATA_VERSION
    &&& m.block_size == BLOCK_SIZE
    &&& m.total_records == 0
    &&& m.total_size == 0
    &&& m.persistent_size == 0
    &&& m.fragmentation == 0
    &&& m.creation_time == m.last_update_time
    &&& m.reserved@ == Seq::new(RESERVED_SIZE as nat, |i: int| 0u8)
}

/// The metadata block at the start of the backing file.
#[derive(Debug, Clone, Copy)]
pub struct Metadata {
    pub signature: [u8; SIGNATURE_SIZE],
    pub version: u32,
    pub total_records: u64,
    pub total_size: u64,
    pub persistent_size: u64,
    pub block_size: u32,
    pub fragmentation: u32,
    pub creation_time: u64,
    pub last_update_time: u64,
    /// Room for later fields; zero in this version.
    pub reserved: [u8; RESERVED_SIZE],
}

/// A metadata block is accepted when it carries the signature and the block size
/// of this format and a file size between 1 byte and the largest supported size.
pub open spec fn metadata_valid(m: Metadata) -> bool {
    &&& m.signature@ == signature_seq()
    &&& m.block_size == BLOCK_SIZE
    &&& m.persistent_size != 0
    &&& m.persistent_size <= MAX_PERSISTENT_SIZE
}

impl Metadata {
    /// Fresh metadata: the signature, the current version and block size, both
    /// times set to now, every count zero.
    pub fn new() -> (r: Self)
        ensures
            initial_metadata(r),
    {
        let now = get_time_now();
        let reserved: [u8; RESERVED_SIZE] = [0u8; 68];
        proof {
            assert(reserved@ =~= Seq::new(RESERVED_SIZE as nat, |i: int| 0u8));
        }
        Self {
            signature: signature(),
            version: METADATA_VERSION,
            total_records: 0,
            total_size: 0,
            persistent_size: 0,
            block_size: BLOCK_SIZE as u32,
            fragmentation: 0,
            creation_time: now,
            last_update_time: now,
            reserved,
        }
    }

    /// Whether this metadata block describes a file this format can open.
    pub fn validate(&self) -> (r: bool)
        ensures
            r == metadata_valid(*self),
    {
        let sig = signature();
        let mut i: usize = 0;
        while i < SIGNATURE_SIZE
            invariant
                i <= SIGNATURE_SIZE,
                sig@ == signature_seq(),
                forall|j: int| 0 <= j < i ==> self.signature@[j] == sig@[j],
            decreases SIGNATURE_SIZE - i,
        {
            if self.signature[i] != sig[i] {
                return false;
            }
            i = i + 1;
        }
        assert(self.signature@ =~= signature_seq());

        if self.block_size != BLOCK_SIZE as u32 {
            return false;
        }

        if self.persistent_size == 0 || self.persistent_size > MAX_PERSISTENT_SIZE {
            return false;
        }

        // Skip checksum validation to avoid alignment issues
        true
    }

    /// Stamps the metadata with the current time.
    pub fn update(&mut self)
        ensures
            final(self).signature == old(self).signature,
            final(self).version == old(self).version,
            final(self).total_records == old(self).total_records,
            final(self).total_size == old(self).total_size,
            final(self).persistent_size == old(self).persistent_size,
            final(self).block_size == old(self).block_size,
            final(self).fragmentation == old(self).fragmentation,
            final(self).creation_time == old(self).creation_time,
            final(self).reserved == old(self).reserved,
    {
        self.last_update_time = get_time_now();
    }
}

impl Default for Metadata {
    fn default() -> (r: Self)
        ensures
            r.signature@ == signature_seq(),
            r.version == METADATA_VERSION,
            r.block_size == BLOCK_SIZE,
            r.total_records == 0,
            r.total_size == 0,
            r.persistent_size == 0,
            r.fragmentation == 0,
    {
        Self::new()
    }
}

/// `bytes` open with the signature.
pub open spec fn signed(bytes: Seq<u8>) -> bool {
    bytes.len() >= SIGNATURE_SIZE && bytes.take(SIGNATURE_SIZE as int) == signature_seq()
}

/// Whether `bytes` open with the signature.
pub fn has_signature(bytes: &[u8]) -> (r: bool)
    ensures
        r == signed(bytes@),
{
    if bytes.len() < SIGNATURE_SIZE {
        return false;
    }
    let sig = signature();
    let r = bytes_eq(&bytes[0..SIGNATURE_SIZE], sig.as_slice());
    proof {
        assert(bytes@.take(SIGNATURE_SIZE as int) =~= bytes@.subrange(0, SIGNATURE_SIZE as int));
    }
    r
}

} // verus!

verus! {

/// The size of the metadata record at the start of the metadata block: the
/// fields in declaration order at their natural alignment, padded to a multiple
/// of eight bytes.
pub const METADATA_RECORD_SIZE: usize = 136;

/// The metadata record of `m` as bytes: the signature, 3 padding bytes, the
/// version, the record count, the bytes on disk, the file size, the block size,
/// the fragmentation figure, the creation and update times (all little-endian),
/// the reserved bytes, and 4 padding bytes, padding written as zeros.
pub open spec fn metadata_image(m: Metadata) -> Seq<u8> {
    m.signature@ + Seq::new(3, |i: int| 0u8) + spec_u32_to_le_bytes(m.version)
        + spec_u64_to_le_bytes(m.total_records) + spec_u64_to_le_bytes(m.total_size)
        + spec_u64_to_le_bytes(m.persistent_size) + spec_u32_to_le_bytes(m.block_size)
        + spec_u32_to_le_bytes(m.fragmentation) + spec_u64_to_le_bytes(m.creation_time)
        + spec_u64_to_le_bytes(m.last_update_time) + m.reserved@ + Seq::new(4, |i: int| 0u8)
}

/// The metadata record `d` holds the fields of `m` at their places (the padding
/// bytes aside).
pub open spec fn record_holds(d: Seq<u8>, m: Metadata) -> bool {
    &&& d.len() == METADATA_RECORD_SIZE
    &&& m.signature@ == d.subrange(0, 9)
    &&& m.version == spec_u32_from_le_bytes(d.subrange(12, 16))
    &&& m.total_records == spec_u64_from_le_bytes(d.subrange(16, 24))
    &&& m.total_size == spec_u64_from_le_bytes(d.subrange(24, 32))
    &&& m.persistent_size == spec_u64_from_le_bytes(d.subrange(32, 40))
    &&& m.block_size == spec_u32_from_le_bytes(d.subrange(40, 44))
    &&& m.fragmentation == spec_u32_from_le_bytes(d.subrange(44, 48))
    &&& m.creation_time == spec_u64_from_le_bytes(d.subrange(48, 56))
    &&& m.last_update_time == spec_u64_from_le_bytes(d.subrange(56, 64))
    &&& m.reserved@ == d.subrange(64, 132)
}

/// The `N` bytes of `d` from `from` on, as an array.
fn copy_bytes<const N: usize>(d: &[u8], from: usize) -> (r: [u8; N])
    requires
        from + N <= d@.len(),
    ensures
        r@ == d@.subrange(from as int, from + N),
{
    let mut r = [0u8; N];
    let mut i: usize = 0;
    while i < N
        invariant
            i <= N,
            from + N <= d@.len(),
            d@.len() == d.len(),
            r@.len() == N,
            forall|j: int| 0 <= j < i ==> r@[j] == d@[from + j],
        decreases N - i,
    {
        r[i] = d[from + i];
        i = i + 1;
    }
    assert(r@ =~= d@.subrange(from as int, from + N));
    r
}


/// The metadata record that starts the metadata block: read from the bytes `d`
/// when they are exactly one record and its fields describe a file this format
/// can open (see `metadata_valid`); otherwise `None`.
pub fn metadata_from_record(d: &[u8]) -> (r: Option<Metadata>)
    ensures
        match r {
            Some(m) => record_holds(d@, m) && metadata_valid(m),
            None => forall|m: Metadata| #[trigger] record_holds(d@, m) ==> !metadata_valid(m),
        },
{
    if d.len() != METADATA_RECORD_SIZE {
        return None;
    }
    let m = Metadata {
        signature: copy_bytes::<SIGNATURE_SIZE>(d, 0),
        version: u32_from_le_bytes(&d[12..16]),
        total_records: u64_from_le_bytes(&d[16..24]),
        total_size: u64_from_le_bytes(&d[24..32]),
        persistent_size: u64_from_le_bytes(&d[32..40]),
        block_size: u32_from_le_bytes(&d[40..44]),
        fragmentation: u32_from_le_bytes(&d[44..48]),
        creation_time: u64_from_le_bytes(&d[48..56]),
        last_update_time: u64_from_le_bytes(&d[56..64]),
        reserved: copy_bytes::<RESERVED_SIZE>(d, 64),
    };
    assert(record_holds(d@, m));
    if m.validate() {
        Some(m)
    } else {
        None
    }
}

/// The metadata record of `m` as it is written to the metadata block.
pub fn metadata_to_record(m: &Metadata) -> (r: Vec<u8>)
    ensures
        r@ == metadata_image(*m),
        r@.len() == METADATA_RECORD_SIZE,
{
    let mut r = vstd::slice::slice_to_vec(m.signature.as_slice());
    let mut pad3: Vec<u8> = vec![0u8, 0u8, 0u8];
    assert(pad3@ =~= Seq::new(3, |i: int| 0u8));
    r.append(&mut pad3);
    let mut b = u32_to_le_bytes(m.version);
    r.append(&mut b);
    let mut b = u64_to_le_bytes(m.total_records);
    r.append(&mut b);
    let mut b = u64_to_le_bytes(m.total_size);
    r.append(&mut b);
    let mut b = u64_to_le_bytes(m.persistent_size);
    r.append(&mut b);
    let mut b = u32_to_le_bytes(m.block_size);
    r.append(&mut b);
    let mut b = u32_to_le_bytes(m.fragmentation);
    r.append(&mut b);
    let mut b = u64_to_le_bytes(m.creation_time);
    r.append(&mut b);
    let mut b = u64_to_le_bytes(m.last_update_time);
    r.append(&mut b);
    let mut rest = vstd::slice::slice_to_vec(m.reserved.as_slice());
    r.append(&mut rest);
    let mut pad4: Vec<u8> = vec![0u8, 0u8, 0u8, 0u8];
    assert(pad4@ =~= Seq::new(4, |i: int| 0u8));
    r.append(&mut pad4);
    assert(r@ =~= metadata_image(*m));
    r
}

/// What is written for a metadata block is read back as it: the record of `m`
/// holds the fields of `m`, so it decodes to `m` when `m` is valid.
pub proof fn lemma_metadata_record_round_trip(m: Metadata)
    ensures
        record_holds(metadata_image(m), m),
        metadata_image(m).len() == METADATA_RECORD_SIZE,
{
    vstd::bytes::lemma_auto_spec_u32_to_from_le_bytes();
    vstd::bytes::lemma_auto_spec_u64_to_from_le_bytes();
    let d = metadata_image(m);
    assert(d.subrange(0, 9) =~= m.signature@);
    assert(d.subrange(12, 16) =~= spec_u32_to_le_bytes(m.version));
    assert(d.subrange(16, 24) =~= spec_u64_to_le_bytes(m.total_records));
    assert(d.subrange(24, 32) =~= spec_u64_to_le_bytes(m.total_size));
    assert(d.subrange(32, 40) =~= spec_u64_to_le_bytes(m.persistent_size));
    assert(d.subrange(40, 44) =~= spec_u32_to_le_bytes(m.block_size));
    assert(d.subrange(44, 48) =~= spec_u32_to_le_bytes(m.fragmentation));
    assert(d.subrange(48, 56) =~= spec_u64_to_le_bytes(m.creation_time));
    assert(d.subrange(56, 64) =~= spec_u64_to_le_bytes(m.last_update_time));
    assert(d.subrange(64, 132) =~= m.reserved@);
}

} // verus!
