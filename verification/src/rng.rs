//! A seeded pseudo-random generator with an exact specification.
//!
//! The simulation draws every random pick from a linear congruential
//! generator, so a battle is a pure function of the roster and the seed and
//! runs can be reproduced.  Fresh entropy enters only through [`fresh_seed`].

use vstd::prelude::*;

verus! {

/// Multiplier of the linear congruential step.
pub const LCG_MUL: u64 = 6364136223846793005;

/// Increment of the linear congruential step.
pub const LCG_INC: u64 = 1442695040888963407;

/// The generator state after one linear congruential step.
pub open spec fn lcg_next(s: u64) -> u64 {
    (((s as int) * (LCG_MUL as int) + (LCG_INC as int)) % 0x1_0000_0000_0000_0000) as u64
}

/// The value in `[0, n)` drawn from generator state `s`.
pub open spec fn lcg_pick(s: u64, n: int) -> int
    recommends
        1 <= n,
{
    ((s >> 33) as int) % n
}

/// A seeded pseudo-random generator: same seed, same sequence of picks.
pub struct Lcg {
    pub state: u64,
}

impl Lcg {
    /// Starts a generator at the given seed.
    pub fn new(seed: u64) -> (r: Lcg)
        ensures
            r.state == seed,
    {
        Lcg { state: seed }
    }

    /// Advances the generator once and returns a value below `n`.
    pub fn next_below(&mut self, n: usize) -> (r: usize)
        requires
            1 <= n,
        ensures
            final(self).state == lcg_next(old(self).state),
            r as int == lcg_pick(final(self).state, n as int),
            r < n,
    {
        let prod: u128 = (self.state as u128) * (LCG_MUL as u128) + (LCG_INC as u128);
        let next: u64 = (prod % 0x1_0000_0000_0000_0000u128) as u64;
        assert(next == lcg_next(self.state)) by {
            assert(prod == (self.state as int) * (LCG_MUL as int) + (LCG_INC as int));
        };
        self.state = next;
        let shifted: u64 = next >> 33;
        let r64: u64 = shifted % (n as u64);
        assert(r64 as int == lcg_pick(next, n as int));
        assert(r64 < n as u64);
        r64 as usize
    }
}

/// Relies on `rand::random::<u64>`: a fresh value drawn from the thread-local
/// generator.  Nothing is promised of the value; every caller must work for
/// every outcome.
#[verifier::external_body]
pub fn fresh_seed() -> u64 {
    rand::random::<u64>()
}

} // verus!
