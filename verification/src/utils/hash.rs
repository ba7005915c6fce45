use vstd::prelude::*;

verus! {

pub const MURMUR_C1: u32 = 0xcc9e2d51;
pub const MURMUR_C2: u32 = 0x1b873593;
pub const MURMUR_N: u32 = 0xe6546b64;
pub const MURMUR_F1: u32 = 0x85ebca6b;
pub const MURMUR_F2: u32 = 0xc2b2ae35;

pub open spec fn wmul(a: u32, b: u32) -> u32 {
    vstd::wrapping::u32_specs::wrapping_mul(a, b)
}

pub open spec fn wadd(a: u32, b: u32) -> u32 {
    vstd::wrapping::u32_specs::wrapping_add(a, b)
}

pub open spec fn rotl15(x: u32) -> u32 {
    (x << 15u32) | (x >> 17u32)
}

pub open spec fn rotl13(x: u32) -> u32 {
    (x << 13u32) | (x >> 19u32)
}

/// The little-endian word made of the four bytes from `4 * i`.
pub open spec fn block_word(data: Seq<u8>, i: int) -> u32 {
    (data[4 * i] as u32) | ((data[4 * i + 1] as u32) << 8u32) | ((data[4 * i + 2] as u32)
        << 16u32) | ((data[4 * i + 3] as u32) << 24u32)
}

/// The scrambling of one key word.
pub open spec fn scramble(k: u32) -> u32 {
    wmul(rotl15(wmul(k, MURMUR_C1)), MURMUR_C2)
}

/// Folding one scrambled word into the running hash.
pub open spec fn mix_block(h: u32, k: u32) -> u32 {
    wadd(wmul(rotl13(h ^ scramble(k)), 5), MURMUR_N)
}

/// The running hash after the first `n` whole words.
pub open spec fn hash_blocks(data: Seq<u8>, seed: u32, n: nat) -> u32
    decreases n,
{
    if n == 0 {
        seed
    } else {
        mix_block(hash_blocks(data, seed, (n - 1) as nat), block_word(data, n - 1))
    }
}

/// The word made of the 1 to 3 bytes after the last whole word.
pub open spec fn tail_word(data: Seq<u8>) -> u32 {
    let t = 4 * (data.len() / 4) as int;
    let rem = data.len() - t;
    (if rem >= 3 {
        (data[t + 2] as u32) << 16u32
    } else {
        0u32
    }) ^ (if rem >= 2 {
        (data[t + 1] as u32) << 8u32
    } else {
        0u32
    }) ^ (if rem >= 1 {
        data[t] as u32
    } else {
        0u32
    })
}

/// The final avalanche.
pub open spec fn fmix32(h: u32) -> u32 {
    let h1 = h ^ (h >> 16u32);
    let h2 = wmul(h1, MURMUR_F1);
    let h3 = h2 ^ (h2 >> 13u32);
    let h4 = wmul(h3, MURMUR_F2);
    h4 ^ (h4 >> 16u32)
}

/// MurmurHash3, x86 32-bit variant, of `data` under `seed`.
pub open spec fn murmur3_32_spec(data: Seq<u8>, seed: u32) -> u32 {
    let h = hash_blocks(data, seed, data.len() / 4);
    let h1 = if data.len() % 4 != 0 {
        h ^ scramble(tail_word(data))
    } else {
        h
    };
    fmix32(h1 ^ (data.len() as u32))
}

/// MurmurHash3 (x86, 32-bit) of `key` under `seed`.
pub fn murmur3_32(key: &[u8], seed: u32) -> (r: u32)
    ensures
        r == murmur3_32_spec(key@, seed),
{
    let len = key.len();
    let nblocks = len / 4;
    let mut h = seed;
    let mut i: usize = 0;
    while i < nblocks
        invariant
            i <= nblocks,
            nblocks == key@.len() / 4,
            len == key@.len(),
            h == hash_blocks(key@, seed, i as nat),
        decreases nblocks - i,
    {
        let b = 4 * i;
        let k = (key[b] as u32) | ((key[b + 1] as u32) << 8u32) | ((key[b + 2] as u32) << 16u32)
            | ((key[b + 3] as u32) << 24u32);
        let mut k1 = k.wrapping_mul(MURMUR_C1);
        k1 = (k1 << 15u32) | (k1 >> 17u32);
        k1 = k1.wrapping_mul(MURMUR_C2);
        h = h ^ k1;
        h = (h << 13u32) | (h >> 19u32);
        h = h.wrapping_mul(5).wrapping_add(MURMUR_N);
        i = i + 1;
    }

    let t = 4 * nblocks;
    let rem = len - t;
    if rem > 0 {
        let mut k1: u32 = 0;
        if rem >= 3 {
            k1 = k1 ^ ((key[t + 2] as u32) << 16u32);
        }
        if rem >= 2 {
            k1 = k1 ^ ((key[t + 1] as u32) << 8u32);
        }
        k1 = k1 ^ (key[t] as u32);
        proof {
            assert(k1 == tail_word(key@)) by {
                assert(0u32 ^ 0u32 == 0u32) by (bit_vector);
                let x = if rem >= 3 { (key@[t + 2] as u32) << 16u32 } else { 0u32 };
                let y = if rem >= 2 { (key@[t + 1] as u32) << 8u32 } else { 0u32 };
                let z = key@[t as int] as u32;
                assert(((0u32 ^ x) ^ y) ^ z == (x ^ y) ^ z) by (bit_vector);
            }
        }
        k1 = k1.wrapping_mul(MURMUR_C1);
        k1 = (k1 << 15u32) | (k1 >> 17u32);
        k1 = k1.wrapping_mul(MURMUR_C2);
        h = h ^ k1;
    }

    h = h ^ (len as u32);
    h = h ^ (h >> 16u32);
    h = h.wrapping_mul(MURMUR_F1);
    h = h ^ (h >> 13u32);
    h = h.wrapping_mul(MURMUR_F2);
    h = h ^ (h >> 16u32);
    h
}

} // verus!
