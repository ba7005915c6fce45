//! FunKV: an in-memory key-value store with an optional backing file. Records
//! are indexed by key twice (hashed and ordered), reads go through a CLOCK read
//! cache, writes are queued for a write buffer that lays records out in sectors
//! taken from a free-space map, and recovery rebuilds the indexes from those
//! sectors. Each part is stated and proved against a mathematical model.
pub mod constants;

pub mod error;
pub mod storage;
pub mod utils;
pub mod stats;
pub mod kv;
pub mod laws;

pub use kv::builder::DbBuilder;
pub use kv::store::DbConfig;
