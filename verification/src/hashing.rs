//! Hashing of keys with a caller-supplied hash strategy.

use vstd::prelude::*;
use std::hash::{BuildHasher, Hash, Hasher};
use hashbrown::DefaultHashBuilder;

verus! {

/// hashbrown's default hash strategy, carried through as it is.
#[verifier::external_type_specification]
#[verifier::external_body]
pub struct ExDefaultHashBuilder(DefaultHashBuilder);

/// `DefaultHashBuilder::default` of hashbrown: a strategy with a seed of its
/// own choosing. Nothing is claimed of it.
#[verifier::external_body]
pub(crate) fn default_hash_builder() -> (r: DefaultHashBuilder) {
    DefaultHashBuilder::default()
}

/// `BuildHasher::build_hasher` of std: a new hasher of the strategy `s`.
/// Nothing is claimed of the hasher.
#[verifier::external_body]
fn new_hasher<S: BuildHasher>(s: &S) -> (r: S::Hasher) {
    s.build_hasher()
}

/// `Hash::hash` of std: feeds `k` into `hasher`. Nothing is claimed of the
/// hasher's state afterwards.
#[verifier::external_body]
fn feed<Q: Hash + ?Sized, H: Hasher>(k: &Q, hasher: &mut H) {
    k.hash(hasher)
}

/// `Hasher::finish` of std: the hash of what was fed so far. Nothing is
/// claimed of the value: a strategy may be seeded anew in every process.
#[verifier::external_body]
fn digest<H: Hasher>(hasher: &H) -> (r: u64) {
    hasher.finish()
}

/// Hashes `k` with the strategy `s`.
///
/// The value depends on the strategy and on the key type's `Hash` impl, so
/// the library holds no statement about it: every function that files or
/// finds an entry under a hash is specified for an arbitrary `u64`.
pub fn hash_key<S, Q>(s: &S, k: &Q) -> (r: u64) where S: BuildHasher, Q: Hash + ?Sized {
    let mut hasher = new_hasher(s);
    feed(k, &mut hasher);
    digest(&hasher)
}

} // verus!
