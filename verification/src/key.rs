//! Key resolver: turns the bytes of a key into the identity under which it is accumulated.
//!
//! The identity is a fixed-seed, non-cryptographic content hash. Two different keys may
//! share one identity; the aggregator then accumulates them together.

use crate::scan::ByteSpan;
use rustc_hash::FxHasher;
use std::hash::Hasher;
use vstd::prelude::*;

verus! {

/// The digest that an `FxHasher` seeded with zero gives after one `write` of `name`.
///
/// rustc-hash fixes its multiplier and its mixing step when the program is built, from the
/// target's pointer width; within one build the digest depends on the bytes alone.
pub uninterp spec fn fx_hash(name: Seq<u8>) -> u64;

/// Calls `FxHasher::with_seed(0)`, `Hasher::write` and `Hasher::finish` of rustc-hash.
///
/// Trusted: the result is the digest that `fx_hash` names, so equal byte strings get equal
/// identities. Nothing is claimed about which number it is.
#[verifier::external_body]
pub(crate) fn hash_station_name(station_name: &[u8]) -> (hash: u64)
    ensures
        hash == fx_hash(station_name@),
{
    let mut hasher = FxHasher::with_seed(0);
    hasher.write(station_name);
    hasher.finish()
}

/// Resolves the key that `key` covers in `buf` to its accumulator identity.
pub fn resolve(buf: &[u8], key: ByteSpan) -> (id: u64)
    requires
        key.fits(buf@.len()),
    ensures
        id == fx_hash(key.of(buf@)),
{
    hash_station_name(key.bytes(buf))
}

} // verus!
