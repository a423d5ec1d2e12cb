//! The random-number handle the generator draws from: a seeded generator
//! passed in explicitly so that a fixed seed reproduces a fixed dungeon.

use vstd::prelude::*;

verus! {

#[verifier::external_type_specification]
#[verifier::external_body]
pub struct ExStdRng(rand::rngs::StdRng);

/// Relies on rand's `SeedableRng::seed_from_u64` for `StdRng`: builds a
/// generator whose stream is determined by the seed.
#[verifier::external_body]
fn std_rng_from_seed(seed: u64) -> (r: rand::rngs::StdRng) {
    <rand::rngs::StdRng as rand::SeedableRng>::seed_from_u64(seed)
}

/// Relies on rand's `Rng::gen_range`: returns a sample inside the given
/// inclusive range, and panics only on an empty range, which the
/// `requires` excludes. Nothing more is assumed of which value comes back.
#[verifier::external_body]
fn std_rng_range(rng: &mut rand::rngs::StdRng, lo: i32, hi: i32) -> (r: i32)
    requires
        lo <= hi,
    ensures
        lo <= r <= hi,
{
    rand::Rng::gen_range(rng, lo..=hi)
}

/// A seeded random-number source handed to the dungeon generator.
pub struct GameRng {
    inner: rand::rngs::StdRng,
}

impl GameRng {
    /// A generator whose draws are a fixed function of `seed`.
    pub fn from_seed(seed: u64) -> (r: GameRng) {
        GameRng { inner: std_rng_from_seed(seed) }
    }

    /// A draw from the inclusive range `lo..=hi`.
    pub fn range(&mut self, lo: i32, hi: i32) -> (r: i32)
        requires
            lo <= hi,
        ensures
            lo <= r <= hi,
    {
        std_rng_range(&mut self.inner, lo, hi)
    }

    /// A fair coin flip.
    pub fn coin(&mut self) -> bool {
        self.range(0, 1) == 1
    }
}

} // verus!
