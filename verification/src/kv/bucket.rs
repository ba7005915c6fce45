use vstd::prelude::*;

use crate::constants::CACHE_BUCKETS;
use crate::utils::hash::murmur3_32_spec;

verus! {

/// The cache bucket that holds `key`.
#[verifier::opaque]
pub open spec fn bucket_of(key: Seq<u8>) -> int {
    (murmur3_32_spec(key, 0) as int) % (CACHE_BUCKETS as int)
}

pub broadcast proof fn lemma_bucket_in_range(k: Seq<u8>)
    ensures
        0 <= #[trigger] bucket_of(k) < CACHE_BUCKETS,
{
    reveal(bucket_of);
}

} // verus!
