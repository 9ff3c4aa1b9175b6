//! Which shard a key belongs to.
use vstd::prelude::*;
use vstd::string::StringSliceAdditionalSpecFns;
use crate::hash::{xxh64, spec_xxh64};

verus! {

/// The shard of the key bytes `k` among `shard_count` shards.
pub open spec fn shard_of(k: Seq<u8>, shard_count: u16) -> u16 {
    if shard_count <= 1 {
        0
    } else {
        (spec_xxh64(k, 0) % (shard_count as u64)) as u16
    }
}

/// The XXH64 digest of the key, seed 0, modulo the shard count; shard 0
/// when there is at most one shard.
pub fn shard_for_key(key: &str, shard_count: u16) -> (r: u16)
    ensures
        r == shard_of(key.spec_bytes(), shard_count),
        shard_count >= 1 ==> r < shard_count,
{
    if shard_count <= 1 {
        return 0;
    }
    (xxh64(key.as_bytes(), 0) % (shard_count as u64)) as u16
}

} // verus!
