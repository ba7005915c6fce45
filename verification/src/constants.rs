use vstd::prelude::*;

verus! {

pub const KB: usize = 1024;
pub const MB: usize = 1024 * KB;
pub const GB: usize = 1024 * MB;

pub const MAX_KEY_SIZE: usize = 100 * KB;
pub const MAX_VALUE_SIZE: usize = 4 * MB;
pub const DEFAULT_MAX_MEMORY: u64 = 4294967296;

pub const DEFAULT_PERSISTENT_SIZE: u64 = 4294967296;
/// One tebibyte: the largest backing file the metadata accepts.
pub const MAX_PERSISTENT_SIZE: u64 = 1099511627776;

pub const DEFAULT_HASH_BITS: u32 = 23;
pub const DEFAULT_ITERATION: usize = 16;
pub const CACHE_BUCKETS: usize = 16384;

/// Bump this when the metadata layout changes.
pub const METADATA_VERSION: u32 = 1;
pub const SIGNATURE_SIZE: usize = 9;
pub const RESERVED_SIZE: usize = 68;
/// Number of sectors at the start of the file reserved for metadata.
pub const METADATA_BLOCK_SIZE: u64 = 16;
/// The sector that holds the metadata block.
pub const METADATA_BLOCK: u64 = 0;
/// The first sector that may hold records.
pub const DATA_START_BLOCK: u64 = 16;

pub const BLOCK_SIZE: usize = 4096;
pub const BLOCK_SIZE_U64: u64 = 4096;
pub const SECTOR_HEADER_SIZE: usize = 4;
/// Marker in the first two bytes of a sector that starts a record.
pub const SECTOR_MARKER: u16 = 0x4B46;

/// Bytes that overwrite the start of a record's first sector once it is deleted.
pub const DELETED_MARKER: [u8; 8] = [0x44u8, 0x45u8, 0x4Cu8, 0x45u8, 0x54u8, 0x45u8, 0x44u8, 0x21u8];
/// A write-buffer shard asks for a flush once it holds this many writes...
pub const WRITE_BUFFER_COUNT: usize = 1024;
/// ...or charges this many bytes.
pub const WRITE_BUFFER_SIZE: usize = 16 * MB;

pub const CACHE_HIGH_WATERMARK_MB: usize = 100;
pub const CACHE_LOW_WATERMARK_MB: usize = 50;
pub const MAX_SCANS: usize = 3;
pub const CACHE_MAX_SIZE: usize = GB;

// POSIX error codes
pub const EINVAL: i32 = 22;
pub const ENOENT: i32 = 2;
pub const ENOSPC: i32 = 28;
pub const ENOMEM: i32 = 12;
pub const EEXIST: i32 = 17;
pub const EOVERFLOW: i32 = 75;
pub const EMSGSIZE: i32 = 90;
pub const EIO: i32 = 5;

/// The kinds of operation a write can carry to the backing file.
#[derive(Debug, Clone, Copy, PartialEq, Eq, Structural)]
pub enum Operation {
    Insert,
    Update,
    Delete,
    Get,
    PartialUpdate,
}

pub const MALLOC_LIMIT: usize = 8192;
pub const LARGE_ALLOC_THRESHOLD: usize = 8192;

pub const PAGE_SIZE: usize = 4096;
pub const PAGE_MASK: usize = 4095;

} // verus!
