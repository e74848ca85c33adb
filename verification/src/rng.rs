//! Seeds for randomized algorithms whose caller gives none.

use vstd::prelude::*;
use std::collections::hash_map::RandomState;
use std::hash::{BuildHasher, DefaultHasher, Hasher};

verus! {

/// `RandomState::new`: a hasher builder with fresh per-instance keys. Nothing
/// is claimed of the keys.
#[verifier::external_body]
fn fresh_keys() -> RandomState {
    RandomState::new()
}

/// `BuildHasher::build_hasher` on a `RandomState`: a hasher keyed by it.
/// Nothing is claimed of its state.
#[verifier::external_body]
fn keyed_hasher(keys: &RandomState) -> DefaultHasher {
    keys.build_hasher()
}

/// A nondeterministic 64-bit seed without an OS entropy source: the hash of
/// nothing under freshly keyed hasher. Consecutive calls give different
/// values; this is not cryptographic randomness.
pub fn entropy_seed() -> u64 {
    let keys = fresh_keys();
    let hasher = keyed_hasher(&keys);
    hasher.finish()
}

} // verus!
