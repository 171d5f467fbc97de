//! The XXH3 hashes that a BBF file stores, computed by the `xxhash-rust` crate.

use vstd::prelude::*;

verus! {

/// The XXH3-128 hash (seed 0, default secret) of a byte sequence.
pub uninterp spec fn xxh3_128_of(data: Seq<u8>) -> u128;

/// The XXH3-64 hash (seed 0, default secret) of a byte sequence.
pub uninterp spec fn xxh3_64_of(data: Seq<u8>) -> u64;

/// Calls `xxhash_rust::xxh3::xxh3_128`. Claimed: the result is the
/// XXH3-128 hash of the argument's bytes, the same for the same bytes.
#[verifier::external_body]
pub(crate) fn xxh3_128(data: &[u8]) -> (r: u128)
    ensures
        r == xxh3_128_of(data@),
{
    xxhash_rust::xxh3::xxh3_128(data)
}

/// Calls `xxhash_rust::xxh3::xxh3_64`. Claimed: the result is the XXH3-64
/// hash of the argument's bytes, the same for the same bytes. (The crate's
/// streaming `Xxh3` digest of several updates is this hash of their
/// concatenation.)
#[verifier::external_body]
pub(crate) fn xxh3_64(data: &[u8]) -> (r: u64)
    ensures
        r == xxh3_64_of(data@),
{
    xxhash_rust::xxh3::xxh3_64(data)
}

/// The low 64 bits of a 128-bit hash, as stored first in an asset entry.
pub open spec fn hash_lo(h: u128) -> u64 {
    (h & 0xFFFF_FFFF_FFFF_FFFFu128) as u64
}

/// The high 64 bits of a 128-bit hash, as stored second in an asset entry.
pub open spec fn hash_hi(h: u128) -> u64 {
    (h >> 64u128) as u64
}

/// Splits a 128-bit hash into its low and high halves.
pub fn split_hash(h: u128) -> (r: (u64, u64))
    ensures
        r.0 == hash_lo(h),
        r.1 == hash_hi(h),
{
    ((h & 0xFFFF_FFFF_FFFF_FFFFu128) as u64, (h >> 64u128) as u64)
}

} // verus!
