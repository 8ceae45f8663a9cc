//! Hashes of keys.

use core::hash::{BuildHasher, Hash};
use vstd::prelude::*;

verus! {

/// `BuildHasher::hash_one` computes the hash of a key.
///
/// Which hash it is, and whether two calls agree, lies with the hasher and with the key's own
/// `Hash`, and is left open.
#[verifier::external_body]
pub(crate) fn hash_one<K: Hash, S: BuildHasher>(hasher: &S, key: &K) -> (hash: u64) {
    hasher.hash_one(key)
}

/// The hasher can compute the hash for the key.
pub closed spec fn hashes_to<K: Hash, S: BuildHasher>(hasher: S, key: K, hash: u64) -> bool {
    call_ensures(hash_one::<K, S>, (&hasher, &key), hash)
}

/// The hash of a key.
pub fn hash_key<K: Hash, S: BuildHasher>(hasher: &S, key: &K) -> (hash: u64)
    ensures
        hashes_to(*hasher, *key, hash),
{
    hash_one(hasher, key)
}

} // verus!
