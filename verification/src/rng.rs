//! Pseudo-randomness for the core search.
//!
//! The search draws from rand's `StdRng`, seeded once per invocation from a
//! caller-supplied 64-bit seed and never reseeded, so that a whole invocation
//! is a pure function of its inputs and the seed. The generator is modelled
//! by the position it has reached in its draw stream: [`rng_draw`] names the
//! stream, and every draw the library makes is derived in verified code from
//! the raw 64-bit draws.

use vstd::prelude::*;

verus! {

#[verifier::external_type_specification]
#[verifier::external_body]
pub struct ExStdRng(rand::rngs::StdRng);

/// The `index`-th 64-bit value drawn from rand's `StdRng` after seeding it
/// with `SeedableRng::seed_from_u64(seed)`.
///
/// `StdRng` is the ChaCha block cipher with 12 rounds, seeded through a
/// fixed integer expansion; its stream depends on the seed alone, on every
/// machine, so the draws may be named as a function of `(seed, index)`.
pub uninterp spec fn rng_draw(seed: u64, index: nat) -> u64;

/// rand's `StdRng` together with the ghost position it has reached in the
/// draw stream of its seed.
pub struct SearchRng {
    /// The generator itself; opaque to the contracts.
    pub inner: rand::rngs::StdRng,
    /// The seed the generator was built from.
    pub seed: Ghost<u64>,
    /// How many 64-bit values have been drawn so far.
    pub draws: Ghost<nat>,
}

/// Relies on rand's `SeedableRng::seed_from_u64` for `StdRng`: it builds the
/// generator whose stream [`rng_draw`] names, deterministically from `seed`.
/// Nothing is claimed of the value itself; [`SearchRng::next_u64`] states
/// what the stream holds.
#[verifier::external_body]
fn seed_std_rng(seed: u64) -> rand::rngs::StdRng {
    <rand::rngs::StdRng as rand::SeedableRng>::seed_from_u64(seed)
}

impl SearchRng {
    /// A generator at the start of the draw stream of `seed`.
    pub fn new(seed: u64) -> (r: SearchRng)
        ensures
            r.seed@ == seed,
            r.draws@ == 0,
    {
        SearchRng { inner: seed_std_rng(seed), seed: Ghost(seed), draws: Ghost(0nat) }
    }

    /// Relies on rand's `RngCore::next_u64` for `StdRng`: the next 64-bit
    /// value of the ChaCha12 stream, a pure function of the seed and of how
    /// many values have been drawn before it.
    #[verifier::external_body]
    pub(crate) fn next_u64(&mut self) -> (out: u64)
        ensures
            final(self).seed == old(self).seed,
            final(self).draws@ == old(self).draws@ + 1,
            out == rng_draw(old(self).seed@, old(self).draws@),
    {
        rand::RngCore::next_u64(&mut self.inner)
    }

    /// A fair coin: the lowest bit of the next draw.
    pub fn coin(&mut self) -> (out: bool)
        ensures
            final(self).seed == old(self).seed,
            final(self).draws@ == old(self).draws@ + 1,
            out == (rng_draw(old(self).seed@, old(self).draws@) % 2 == 1),
    {
        let d = self.next_u64();
        d % 2 == 1
    }

    /// A position below `n`: the next draw reduced modulo `n`.
    pub fn index(&mut self, n: usize) -> (out: usize)
        requires
            n > 0,
        ensures
            final(self).seed == old(self).seed,
            final(self).draws@ == old(self).draws@ + 1,
            out == rng_draw(old(self).seed@, old(self).draws@) as int % (n as int),
            out < n,
    {
        let d = self.next_u64();
        (d % (n as u64)) as usize
    }
}

} // verus!
