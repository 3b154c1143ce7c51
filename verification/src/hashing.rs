//! The keyed hash that places a key in a row, and the source of row seeds.

use std::collections::hash_map::DefaultHasher;
use std::collections::hash_map::RandomState;
use std::hash::BuildHasher;
use std::hash::Hasher;
use vstd::bytes::spec_u64_to_le_bytes;
use vstd::prelude::*;
use vstd::std_specs::hash::DefaultHasherAdditionalSpecFns;
use vstd::string::StringSliceAdditionalSpecFns;

verus! {

/// A key that the estimator can count: anything that stands for a string of
/// bytes. Two keys with the same bytes are the same key.
pub trait Key {
    /// The bytes that stand for the key.
    spec fn key_bytes(&self) -> Seq<u8>;

    /// Hands out the bytes that stand for the key.
    fn as_key_bytes(&self) -> (bytes: &[u8])
        ensures
            bytes@ == self.key_bytes(),
    ;
}

/// A string is counted by its UTF-8 encoding.
impl Key for str {
    open spec fn key_bytes(&self) -> Seq<u8> {
        self.spec_bytes()
    }

    fn as_key_bytes(&self) -> (bytes: &[u8]) {
        self.as_bytes()
    }
}

/// A slice of bytes is counted as it is.
impl Key for [u8] {
    open spec fn key_bytes(&self) -> Seq<u8> {
        self@
    }

    fn as_key_bytes(&self) -> (bytes: &[u8]) {
        self
    }
}

/// The digest of `key` behind `prefix`: what the default hasher yields after
/// it was fed the prefix and then the key.
pub open spec fn digest_of(prefix: Seq<u8>, key: Seq<u8>) -> u64 {
    DefaultHasher::spec_finish(seq![prefix, key])
}

/// The digest of `key` under `seed`: its digest behind the seed's eight
/// little-endian bytes.
pub open spec fn keyed_digest(seed: u64, key: Seq<u8>) -> u64 {
    digest_of(spec_u64_to_le_bytes(seed), key)
}

/// The counter of a row of `width` counters that `key` falls on under `seed`.
pub open spec fn slot_of(seed: u64, key: Seq<u8>, width: nat) -> int
    recommends
        width > 0,
{
    keyed_digest(seed, key) as int % width as int
}

/// The position of a key in a row lies inside the row.
pub proof fn lemma_slot_in_range(seed: u64, key: Seq<u8>, width: nat)
    requires
        width > 0,
    ensures
        0 <= slot_of(seed, key, width) < width,
{
    let d = keyed_digest(seed, key) as int;
    let w = width as int;
    assert(0 <= d % w < w) by (nonlinear_arith)
        requires
            d >= 0,
            w > 0,
    ;
}

/// Hashes `key` behind `prefix`.
pub fn digest(prefix: &[u8], key: &[u8]) -> (d: u64)
    ensures
        d == digest_of(prefix@, key@),
{
    let mut hasher = DefaultHasher::new();
    hasher.write(prefix);
    hasher.write(key);
    assert(hasher@ =~= seq![prefix@, key@]);
    hasher.finish()
}

/// Picks the counter of `key` in a row of `width` counters whose seed has
/// the bytes `prefix`.
pub fn slot(prefix: &[u8], key: &[u8], width: usize) -> (j: usize)
    requires
        width > 0,
    ensures
        j == digest_of(prefix@, key@) as int % width as int,
        j < width,
{
    let d = digest(prefix, key);
    (d % (width as u64)) as usize
}

/// A fresh hasher state of the standard library: `RandomState::new`, whose
/// keys come from the operating system's random source. Nothing is claimed
/// of the state.
pub assume_specification[ RandomState::new ]() -> (state: RandomState);

/// Draws one number from a hasher state: `BuildHasher::hash_one` on a
/// `RandomState`, applied to the byte zero. The digest depends on the
/// state's random keys, so nothing is claimed of it.
#[verifier::external_body]
fn state_digest(state: &RandomState) -> (d: u64) {
    state.hash_one(0u8)
}

/// A seed for one row, drawn afresh at each call.
pub(crate) fn fresh_seed() -> (seed: u64) {
    let state = RandomState::new();
    state_digest(&state)
}

} // verus!
