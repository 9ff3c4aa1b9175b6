//! Hash functions of the `xxhash-rust` and `crc32fast` crates.
use vstd::prelude::*;

verus! {

/// The XXH64 digest of `data` with `seed`.
pub uninterp spec fn spec_xxh64(data: Seq<u8>, seed: u64) -> u64;

/// The 128-bit XXH3 digest of `data`.
pub uninterp spec fn spec_xxh3_128(data: Seq<u8>) -> u128;

/// The CRC-32 checksum of `data`.
pub uninterp spec fn spec_crc32(data: Seq<u8>) -> u32;

/// Calls `xxhash_rust::xxh64::xxh64`; claims only that the digest is a
/// function of the input bytes and the seed.
#[verifier::external_body]
pub(crate) fn xxh64(data: &[u8], seed: u64) -> (r: u64)
    ensures
        r == spec_xxh64(data@, seed),
{
    xxhash_rust::xxh64::xxh64(data, seed)
}

/// Calls `xxhash_rust::xxh3::xxh3_128`; claims only that the digest is a
/// function of the input bytes.
#[verifier::external_body]
pub(crate) fn xxh3_128(data: &[u8]) -> (r: u128)
    ensures
        r == spec_xxh3_128(data@),
{
    xxhash_rust::xxh3::xxh3_128(data)
}

/// Calls `crc32fast::hash`; claims only that the checksum is a function of
/// the input bytes.
#[verifier::external_body]
pub(crate) fn crc32(data: &[u8]) -> (r: u32)
    ensures
        r == spec_crc32(data@),
{
    crc32fast::hash(data)
}

} // verus!
