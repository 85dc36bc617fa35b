//! Routing of keys to buckets.

use std::collections::hash_map::DefaultHasher;
use std::hash::Hasher;
use vstd::bytes::{spec_u64_to_le_bytes, u64_to_le_bytes};
use vstd::prelude::*;
use vstd::std_specs::hash::DefaultHasherAdditionalSpecFns;

verus! {

/// The hash of a key: what the default hasher makes of the eight bytes of
/// the key, least significant first.
pub open spec fn hash_of(key: usize) -> u64 {
    DefaultHasher::spec_finish(Seq::empty().push(spec_u64_to_le_bytes(key as u64)))
}

/// The bucket a key belongs to in a table of `nbuckets` buckets.
pub open spec fn bucket_of(key: usize, nbuckets: int) -> int
    recommends
        nbuckets > 0,
{
    (hash_of(key) as int) % nbuckets
}

/// Hashes a key.
pub fn hash_key(key: usize) -> (h: u64)
    ensures
        h == hash_of(key),
{
    let mut hasher = DefaultHasher::new();
    let bytes = u64_to_le_bytes(key as u64);
    hasher.write(bytes.as_slice());
    hasher.finish()
}

/// Routes a key to its bucket.
pub fn bucket_index(key: usize, nbuckets: usize) -> (index: usize)
    requires
        nbuckets > 0,
    ensures
        index == bucket_of(key, nbuckets as int),
        index < nbuckets,
{
    let h = hash_key(key);
    let n = nbuckets as u64;
    (h % n) as usize
}

} // verus!
