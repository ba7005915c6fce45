use vstd::prelude::*;

use crate::constants::{BLOCK_SIZE, DELETED_MARKER};
use crate::error::DbError;

verus! {

/// The bytes of the deleted marker.
pub open spec fn deleted_marker_seq() -> Seq<u8> {
    seq![0x44u8, 0x45u8, 0x4Cu8, 0x45u8, 0x54u8, 0x45u8, 0x44u8, 0x21u8]
}

/// `n` zero bytes.
pub open spec fn zeros(n: nat) -> Seq<u8> {
    Seq::new(n, |i: int| 0u8)
}

/// The block written over the first sector of a deleted record: the deleted
/// marker, then zeros up to a whole block.
pub fn deletion_marker_block() -> (r: Vec<u8>)
    ensures
        r@ == deleted_marker_seq() + zeros((BLOCK_SIZE - 8) as nat),
{
    let marker = DELETED_MARKER;
    let mut block: Vec<u8> = Vec::new();
    let mut i: usize = 0;
    while i < 8
        invariant
            i <= 8,
            marker@ == deleted_marker_seq(),
            block@ == deleted_marker_seq().take(i as int),
        decreases 8 - i,
    {
        block.push(marker[i]);
        proof {
            assert(block@ =~= deleted_marker_seq().take(i as int + 1));
        }
        i = i + 1;
    }
    while block.len() < BLOCK_SIZE
        invariant
            8 <= block@.len() <= BLOCK_SIZE,
            block@ == deleted_marker_seq() + zeros((block@.len() - 8) as nat),
        decreases BLOCK_SIZE - block@.len(),
    {
        block.push(0u8);
        proof {
            assert(block@ =~= deleted_marker_seq() + zeros((block@.len() - 8) as nat));
        }
    }
    block
}

/// The metadata block as written to disk: the metadata bytes padded with zeros
/// to a whole block. Metadata longer than a block is refused.
pub fn metadata_block(metadata: &[u8]) -> (r: Result<Vec<u8>, DbError>)
    ensures
        metadata@.len() > BLOCK_SIZE ==> r == Err::<Vec<u8>, DbError>(DbError::InvalidValueSize),
        metadata@.len() <= BLOCK_SIZE ==> r is Ok && r.unwrap()@ == metadata@ + zeros(
            (BLOCK_SIZE - metadata@.len()) as nat,
        ),
{
    if metadata.len() > BLOCK_SIZE {
        return Err(DbError::InvalidValueSize);
    }
    let mut block = vstd::slice::slice_to_vec(metadata);
    while block.len() < BLOCK_SIZE
        invariant
            metadata@.len() <= block@.len() <= BLOCK_SIZE,
            block@ == metadata@ + zeros((block@.len() - metadata@.len()) as nat),
        decreases BLOCK_SIZE - block@.len(),
    {
        block.push(0u8);
        proof {
            assert(block@ =~= metadata@ + zeros((block@.len() - metadata@.len()) as nat));
        }
    }
    Ok(block)
}

/// Whether every byte of `bytes` is zero.
pub fn all_zero(bytes: &[u8]) -> (r: bool)
    ensures
        r == (forall|i: int| 0 <= i < bytes@.len() ==> bytes@[i] == 0),
{
    let mut i: usize = 0;
    while i < bytes.len()
        invariant
            i <= bytes@.len(),
            forall|j: int| 0 <= j < i ==> bytes@[j] == 0,
        decreases bytes@.len() - i,
    {
        if bytes[i] != 0 {
            return false;
        }
        i = i + 1;
    }
    true
}

} // verus!
