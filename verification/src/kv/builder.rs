use vstd::prelude::*;

use crate::constants::{DEFAULT_HASH_BITS, DEFAULT_MAX_MEMORY};
use crate::error::DbError;
use crate::kv::store::{DbConfig, FunKV};
use crate::stats::Statistics;

verus! {

/// Builds a store step by step.
pub struct DbBuilder {
    max_memory: Option<usize>,
    enable_caching: Option<bool>,
    hash_bit: u32,
    enable_ttl: bool,
    file_path: Option<String>,
    file_size: Option<u64>,
}

/// The settings a builder has gathered.
pub struct DbBuilderView {
    pub max_memory: Option<usize>,
    /// `None` until caching is chosen: the store then caches when it has no backing file.
    pub enable_caching: Option<bool>,
    pub hash_bit: u32,
    pub enable_ttl: bool,
    pub file_path: Option<String>,
    pub file_size: Option<u64>,
}

impl View for DbBuilder {
    type V = DbBuilderView;

    closed spec fn view(&self) -> DbBuilderView {
        DbBuilderView {
            max_memory: self.max_memory,
            enable_caching: self.enable_caching,
            hash_bit: self.hash_bit,
            enable_ttl: self.enable_ttl,
            file_path: self.file_path,
            file_size: self.file_size,
        }
    }
}

/// The settings of a fresh builder: the default memory limit and hash-table size,
/// no expiry times, no backing file.
pub open spec fn default_builder() -> DbBuilderView {
    DbBuilderView {
        max_memory: Some(DEFAULT_MAX_MEMORY as usize),
        enable_caching: None,
        hash_bit: DEFAULT_HASH_BITS,
        enable_ttl: false,
        file_path: None,
        file_size: None,
    }
}

/// Whether a store built with settings `b` has a backing file, as the builder
/// decides it: it does when no file path was given.
pub open spec fn builder_persistency(b: DbBuilderView) -> bool {
    b.file_path is None
}

impl DbBuilder {
    pub fn new() -> (r: Self)
        ensures
            r@ == default_builder(),
    {
        Self {
            max_memory: Some(DEFAULT_MAX_MEMORY as usize),
            enable_caching: None,
            hash_bit: DEFAULT_HASH_BITS,
            enable_ttl: false,
            file_path: None,
            file_size: None,
        }
    }

    pub fn max_memory(self, limit: usize) -> (r: Self)
        ensures
            r@ == (DbBuilderView { max_memory: Some(limit), ..self@ }),
    {
        DbBuilder { max_memory: Some(limit), ..self }
    }

    pub fn no_memory_limit(self) -> (r: Self)
        ensures
            r@ == (DbBuilderView { max_memory: None, ..self@ }),
    {
        DbBuilder { max_memory: None, ..self }
    }

    pub fn enable_caching(self, enable: bool) -> (r: Self)
        ensures
            r@ == (DbBuilderView { enable_caching: Some(enable), ..self@ }),
    {
        DbBuilder { enable_caching: Some(enable), ..self }
    }

    pub fn hash_bit(self, bits: u32) -> (r: Self)
        ensures
            r@ == (DbBuilderView { hash_bit: bits, ..self@ }),
    {
        DbBuilder { hash_bit: bits, ..self }
    }

    pub fn enable_ttl(self, enable: bool) -> (r: Self)
        ensures
            r@ == (DbBuilderView { enable_ttl: enable, ..self@ }),
    {
        DbBuilder { enable_ttl: enable, ..self }
    }

    pub fn file_path(self, path: String) -> (r: Self)
        ensures
            r@ == (DbBuilderView { file_path: Some(path), ..self@ }),
    {
        DbBuilder { file_path: Some(path), ..self }
    }

    pub fn file_size(self, size: u64) -> (r: Self)
        ensures
            r@ == (DbBuilderView { file_size: Some(size), ..self@ }),
    {
        DbBuilder { file_size: Some(size), ..self }
    }

    /// The configuration these settings describe: a backing file when the
    /// builder decides so (see `builder_persistency`), caching as chosen or, when
    /// not chosen, exactly without one.
    pub fn config(self) -> (r: DbConfig)
        ensures
            r.persistency == builder_persistency(self@),
            r.enable_caching == match self@.enable_caching {
                Some(c) => c,
                None => !builder_persistency(self@),
            },
            r.max_memory == self@.max_memory,
            r.hash_bit == self@.hash_bit,
            r.enable_ttl == self@.enable_ttl,
            r.file_path == self@.file_path,
            r.file_size == self@.file_size,
    {
        let persistency = self.file_path.is_none();
        let enable_caching = match self.enable_caching {
            Some(c) => c,
            None => !persistency,
        };

        DbConfig {
            persistency,
            max_memory: self.max_memory,
            enable_caching,
            hash_bit: self.hash_bit,
            enable_ttl: self.enable_ttl,
            file_path: self.file_path,
            file_size: self.file_size,
        }
    }

    /// The store these settings describe: empty, with caching as chosen or, when
    /// not chosen, exactly when it has no backing file.
    pub fn build(self) -> (r: Result<FunKV, DbError>)
        requires
            self@.hash_bit < 64,
        ensures
            r is Ok,
            r.unwrap().wf(),
            r.unwrap()@.records == Map::<Seq<u8>, crate::kv::record::Record>::empty(),
            r.unwrap()@.stats == Statistics::zeroed(),
            r.unwrap()@.persistency == builder_persistency(self@),
            r.unwrap()@.enable_caching == match self@.enable_caching {
                Some(c) => c,
                None => !builder_persistency(self@),
            },
            r.unwrap()@.cache is Some <==> r.unwrap()@.enable_caching,
            r.unwrap()@.max_memory == self@.max_memory,
            r.unwrap()@.enable_ttl == self@.enable_ttl,
    {
        FunKV::build_with_config(self.config())
    }
}

impl Default for DbBuilder {
    fn default() -> (r: Self)
        ensures
            r@ == default_builder(),
    {
        Self::new()
    }
}

impl FunKV {
    /// A builder with the default settings.
    pub fn builder() -> (r: DbBuilder)
        ensures
            r@ == default_builder(),
    {
        DbBuilder::new()
    }
}

} // verus!
