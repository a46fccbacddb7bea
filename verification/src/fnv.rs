//! The 32-bit FNV-1a hash, used to shorten type identifiers.
use vstd::prelude::*;

verus! {

/// FNV-1a offset basis.
pub const FNV_OFFSET_BASIS_32: u32 = 0x811c9dc5;
/// FNV-1a prime.
pub const FNV_PRIME_32: u32 = 0x01000193;

/// The FNV-1a hash of `bytes`: each byte in turn is xored into the hash,
/// which is then multiplied by the prime modulo 2^32.
pub open spec fn fnv1a(bytes: Seq<u8>) -> u32
    decreases bytes.len(),
{
    if bytes.len() == 0 {
        FNV_OFFSET_BASIS_32
    } else {
        let h = fnv1a(bytes.drop_last()) ^ (bytes.last() as u32);
        ((h as nat * FNV_PRIME_32 as nat) % 0x1_0000_0000nat) as u32
    }
}

/// How many leading bytes of a slice of `len` bytes are hashed: `limit`,
/// unless it is absent, zero or past the end.
pub open spec fn hashed_len(len: nat, limit: Option<usize>) -> nat {
    match limit {
        Some(v) => if v <= len && v > 0 { v as nat } else { len },
        None => len,
    }
}

/// The FNV-1a hash of the first `limit` bytes of `bytes`, or of all of them
/// when `limit` is absent, zero or past the end.
pub fn fnv1a_hash_32(bytes: &[u8], limit: Option<usize>) -> (r: u32)
    ensures
        r == fnv1a(bytes@.take(hashed_len(bytes@.len(), limit) as int)),
{
    let mut hash = FNV_OFFSET_BASIS_32;
    let len = match limit {
        Some(v) => {
            if v <= bytes.len() && v > 0 {
                v
            } else {
                bytes.len()
            }
        },
        None => bytes.len(),
    };
    let mut i: usize = 0;
    while i < len
        invariant
            len == hashed_len(bytes@.len(), limit),
            len <= bytes@.len(),
            i <= len,
            hash == fnv1a(bytes@.take(i as int)),
        decreases len - i,
    {
        proof {
            assert(bytes@.take(i + 1).drop_last() =~= bytes@.take(i as int));
        }
        hash ^= bytes[i] as u32;
        hash = hash.wrapping_mul(FNV_PRIME_32);
        i += 1;
    }
    hash
}

} // verus!
