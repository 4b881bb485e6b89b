//! The hashing policy: one fixed hasher fed a seed and the key, so that a key's hash
//! depends on the seed and the key alone.
use std::hash::{BuildHasherDefault, DefaultHasher};
use vstd::prelude::*;

verus! {

/// The hash of a key under the library's hasher with the given seed.
pub uninterp spec fn key_hash(seed: u64, k: i64) -> u64;

/// Relies on `BuildHasher::hash_one` for `BuildHasherDefault<DefaultHasher>`, applied
/// to the pair `(seed, k)`: every `DefaultHasher` made by `default` is the same, so the
/// hash is a function of `seed` and `k`.
#[verifier::external_body]
pub(crate) fn hash_key(seed: u64, k: i64) -> (h: u64)
    ensures
        h == key_hash(seed, k),
{
    std::hash::BuildHasher::hash_one(&BuildHasherDefault::<DefaultHasher>::default(), (seed, k))
}

} // verus!
