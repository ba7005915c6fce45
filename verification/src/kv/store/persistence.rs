use vstd::prelude::*;

use crate::constants::DEFAULT_PERSISTENT_SIZE;
use crate::error::DbError;
use crate::kv::store::recovery::rebuild_outcome;
use crate::kv::store::{FunKV, FunKVView, SectorReader};
use crate::stats::Statistics;
use crate::storage::blocks::all_zero;
use crate::storage::free_space_manager::{initialize_spec, FreeSpaceView};
use crate::storage::metadata::{has_signature, metadata_valid, signed, Metadata};

verus! {

/// The size a new backing file is given: the one asked for, or the default.
pub fn new_file_size(file_size: Option<u64>) -> (r: u64)
    ensures
        r == match file_size {
            Some(s) => s,
            None => DEFAULT_PERSISTENT_SIZE,
        },
{
    match file_size {
        Some(s) => s,
        None => DEFAULT_PERSISTENT_SIZE,
    }
}

/// The free space set up for a file of `size` bytes, or `NumericOverflow` when
/// the free byte count would pass 64 bits.
pub open spec fn initialize_checked(v: FreeSpaceView, size: u64) -> (Result<(), DbError>, FreeSpaceView) {
    if initialize_spec(v, size).1.total_free > u64::MAX {
        (Err(DbError::NumericOverflow), FreeSpaceView { persistence_size: size, ..v })
    } else {
        initialize_spec(v, size)
    }
}

impl FunKV {
    /// Sets the store up for a backing file just created with `size` bytes: the
    /// whole data area becomes free, and the metadata records the size and the
    /// time of the change.
    pub fn open_new_file(&mut self, size: u64) -> (r: Result<(), DbError>)
        requires
            old(self).wf(),
        ensures
            final(self).wf(),
            (r, final(self)@.free_space) == initialize_checked(old(self)@.free_space, size),
            final(self)@ == (FunKVView {
                free_space: final(self)@.free_space,
                persistence_size: size,
                ..old(self)@
            }),
            r is Ok ==> final(self).metadata_spec() == (Metadata {
                persistent_size: size,
                last_update_time: final(self).metadata_spec().last_update_time,
                ..old(self).metadata_spec()
            }),
            r is Err ==> final(self).metadata_spec() == old(self).metadata_spec(),
    {
        self.persistence_size = size;
        if !self.free_space.initialize_fits(size) {
            self.free_space.set_persistence_size(size);
            return Err(DbError::NumericOverflow);
        }
        match self.free_space.initialize(size) {
            Ok(()) => {},
            Err(e) => {
                return Err(e);
            },
        }
        self.metadata.persistent_size = size;
        self.metadata.update();
        Ok(())
    }

    /// Sets the store up for an existing backing file of `len` bytes whose first
    /// bytes are `head`: a file that holds only zeros there is taken as empty and
    /// its whole data area becomes free; otherwise the free space only learns the
    /// size, and recovery fills it.
    pub fn open_existing_file(&mut self, len: u64, head: &[u8]) -> (r: Result<(), DbError>)
        requires
            old(self).wf(),
        ensures
            final(self).wf(),
            final(self)@ == (FunKVView {
                free_space: final(self)@.free_space,
                persistence_size: len,
                ..old(self)@
            }),
            final(self).metadata_spec() == old(self).metadata_spec(),
            len > 0 && (forall|i: int| 0 <= i < head@.len() ==> head@[i] == 0) ==> (
            r,
            final(self)@.free_space,
            ) == initialize_checked(old(self)@.free_space, len),
            !(len > 0 && (forall|i: int| 0 <= i < head@.len() ==> head@[i] == 0)) ==> r is Ok
                && final(self)@.free_space == (FreeSpaceView {
                persistence_size: len,
                ..old(self)@.free_space
            }),
    {
        self.persistence_size = len;
        if len > 0 && all_zero(head) {
            if !self.free_space.initialize_fits(len) {
                self.free_space.set_persistence_size(len);
                return Err(DbError::NumericOverflow);
            }
            self.free_space.initialize(len)
        } else {
            self.free_space.set_persistence_size(len);
            Ok(())
        }
    }

    /// Takes over a metadata block read from an existing file, when it decoded and
    /// is valid: its byte count on disk becomes the store's.
    pub fn adopt_metadata(&mut self, decoded: Option<Metadata>)
        requires
            old(self).wf(),
        ensures
            final(self).wf(),
            match decoded {
                Some(m) => if metadata_valid(m) {
                    &&& final(self).metadata_spec() == m
                    &&& final(self)@ == (FunKVView {
                        stats: Statistics { disk_usage: m.total_size, ..old(self)@.stats },
                        ..old(self)@
                    })
                } else {
                    final(self)@ == old(self)@ && final(self).metadata_spec() == old(
                        self,
                    ).metadata_spec()
                },
                None => final(self)@ == old(self)@ && final(self).metadata_spec() == old(
                    self,
                ).metadata_spec(),
            },
    {
        if let Some(m) = decoded {
            if m.validate() {
                self.stats.disk_usage = m.total_size;
                self.metadata = m;
            }
        }
    }

    /// Loads the indexes of a store with a backing file from what the read of
    /// its metadata block gave: a failed read is returned as it is; a block that
    /// opens with the signature has the metadata `decoded` from it taken over when
    /// valid, and then the indexes are rebuilt from the sectors `reader` returns
    /// (see `scan_and_rebuild_indexes`); any other block leaves the store as it is.
    pub fn load_indexes<R: SectorReader>(
        &mut self,
        reader: &R,
        metadata_read: Result<Vec<u8>, DbError>,
        decoded: Option<Metadata>,
    ) -> (r: Result<(), DbError>)
        requires
            old(self).wf(),
        ensures
            final(self).wf(),
            !old(self)@.persistency ==> r is Ok && final(self)@ == old(self)@
                && final(self).metadata_spec() == old(self).metadata_spec(),
            old(self)@.persistency ==> match metadata_read {
                Err(e) => r == Err::<(), DbError>(e) && final(self)@ == old(self)@
                    && final(self).metadata_spec() == old(self).metadata_spec(),
                Ok(bytes) => if signed(bytes@) {
                    &&& final(self).metadata_spec() == match decoded {
                        Some(m) => if metadata_valid(m) {
                            m
                        } else {
                            old(self).metadata_spec()
                        },
                        None => old(self).metadata_spec(),
                    }
                    &&& rebuild_outcome(old(self)@, final(self)@, r)
                } else {
                    r is Ok && final(self)@ == old(self)@ && final(self).metadata_spec() == old(
                        self,
                    ).metadata_spec()
                },
            },
    {
        if !self.persistency {
            return Ok(());
        }
        let metadata_bytes = match metadata_read {
            Ok(b) => b,
            Err(e) => {
                return Err(e);
            },
        };
        if has_signature(metadata_bytes.as_slice()) {
            if let Some(m) = decoded {
                if m.validate() {
                    self.metadata = m;
                }
            }
            return self.scan_and_rebuild_indexes(reader);
        }
        Ok(())
    }
}

} // verus!
