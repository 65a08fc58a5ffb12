//! Reproducible seeds: a child seed is a hash of its parent and a label, and
//! nothing else.

use vstd::prelude::*;
use fnv::FnvHasher;
use rand::rngs::SmallRng;
use rand::SeedableRng;
use std::hash::Hasher;

verus! {

#[verifier::external_type_specification]
#[verifier::external_body]
pub struct ExSmallRng(SmallRng);

/// The FNV prime for 64-bit hashes.
pub const FNV_PRIME: u64 = 0x100000001b3;

/// One round of FNV-1a: `byte` is mixed into `hash`, and the result is
/// multiplied by the FNV prime, modulo 2^64.
pub open spec fn fnv_round(hash: u64, byte: u8) -> u64 {
    (((hash ^ (byte as u64)) as int * FNV_PRIME as int) % 0x1_0000_0000_0000_0000) as u64
}

/// FNV-1a over `bytes`, started from `key`.
pub open spec fn fnv1a(key: u64, bytes: Seq<u8>) -> u64
    decreases bytes.len(),
{
    if bytes.len() == 0 {
        key
    } else {
        fnv_round(fnv1a(key, bytes.drop_last()), bytes.last())
    }
}

/// The eight bytes that are hashed before every label, so that a seed and
/// the seeds derived from it do not collide by accident.
pub open spec fn delimiter() -> Seq<u8> {
    seq![0xedu8, 0xee, 0x14, 0xfc, 0xea, 0x13, 0x60, 0xe1]
}

/// The seed that forking the seed `state` by `route` gives.
pub open spec fn forked(state: u64, route: Seq<u8>) -> u64 {
    fnv1a(fnv1a(state, delimiter()), route)
}

/// `FnvHasher::with_key(key)`, one `write` of `bytes`, and `finish`: the
/// FNV-1a hash of `bytes` started from `key`, as the hasher's `write` computes
/// it byte by byte.
#[verifier::external_body]
fn fnv_write(key: u64, bytes: &[u8]) -> (hash: u64)
    ensures
        hash == fnv1a(key, bytes@),
{
    let mut hasher = FnvHasher::with_key(key);
    hasher.write(bytes);
    hasher.finish()
}

/// `SmallRng::seed_from_u64(state)`. Which generator that is depends on the
/// platform, so nothing is claimed of it.
#[verifier::external_body]
fn small_rng(state: u64) -> SmallRng {
    SmallRng::seed_from_u64(state)
}

/// A seed: a point in a tree of seeds, each child reached from its parent by
/// a label.
#[derive(Debug)]
pub struct Seed {
    pub state: u64,
}

impl Seed {
    /// The delimiter as bytes.
    fn delimiter_bytes() -> (r: [u8; 8])
        ensures
            r@ == delimiter(),
    {
        [0xed, 0xee, 0x14, 0xfc, 0xea, 0x13, 0x60, 0xe1]
    }

    /// The root seed for `seed`.
    pub fn new(seed: &[u8]) -> (r: Self)
        ensures
            r.state == forked(0, seed@),
    {
        Seed { state: 0 }.fork(seed)
    }

    /// The child of this seed under the label `route`.
    pub fn fork(&self, route: &[u8]) -> (r: Self)
        ensures
            r.state == forked(self.state, route@),
    {
        let delimiter = Self::delimiter_bytes();
        let parent = fnv_write(self.state, delimiter.as_slice());
        Seed { state: fnv_write(parent, route) }
    }

    /// The number that the generator of this seed is started from.
    pub fn rng_key(&self) -> (r: u64)
        ensures
            r == fnv1a(self.state, delimiter()),
    {
        let delimiter = Self::delimiter_bytes();
        fnv_write(self.state, delimiter.as_slice())
    }

    /// A pseudo-random generator started from this seed.
    pub fn rng(self) -> SmallRng {
        small_rng(self.rng_key())
    }
}

/// Forking is a function of the parent and the label alone: forks of equal
/// parents by equal labels are equal, whenever and wherever they are made.
pub proof fn lemma_fork_deterministic(
    parent: Seed,
    twin: Seed,
    label: Seq<u8>,
    same_label: Seq<u8>,
)
    requires
        parent.state == twin.state,
        label == same_label,
    ensures
        forked(parent.state, label) == forked(twin.state, same_label),
{
}

} // verus!
