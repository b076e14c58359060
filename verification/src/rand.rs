//! A small deterministic generator of pseudo-random numbers.

use vstd::prelude::*;

verus! {

/// Multiplier of the generator.
pub const MULTIPLIER: u64 = 6364136223846793005;

/// Increment of the generator.
pub const INCREMENT: u64 = 1442695040888963407;

/// A linear congruential generator with a state of 64 bits.
#[derive(Clone, Copy, Debug)]
pub struct Random {
    pub state: u64,
}

/// The state that follows `s`.
pub open spec fn next_state(s: u64) -> u64 {
    ((s * MULTIPLIER + INCREMENT) % 0x1_0000_0000_0000_0000) as u64
}

/// The number that the generator gives out when it reaches state `s`: the
/// upper 31 bits of the state.
pub open spec fn output(s: u64) -> u64 {
    s / 0x2_0000_0000
}

/// The number between `lo` and `hi`, `hi` excluded, that the generator
/// gives out when it reaches state `s`.
pub open spec fn output_between(s: u64, lo: int, hi: int) -> int {
    lo + (output(s) as int) % (hi - lo)
}

impl Random {
    /// A generator that starts from `seed`.
    pub fn new(seed: u64) -> (r: Random)
        ensures
            r.state == seed,
    {
        Random { state: seed }
    }

    /// Moves on to the next state and gives out its number.
    pub fn gen_u64(&mut self) -> (r: u64)
        ensures
            final(self).state == next_state(old(self).state),
            r == output(final(self).state),
            r < 0x8000_0000,
    {
        let factor: u128 = self.state as u128;
        assert(factor * 6364136223846793005 <= 0xffff_ffff_ffff_ffff * 6364136223846793005)
            by (nonlinear_arith)
            requires
                factor <= 0xffff_ffff_ffff_ffff,
        ;
        let wide: u128 = factor * (MULTIPLIER as u128) + (INCREMENT as u128);
        self.state = (wide % 0x1_0000_0000_0000_0000) as u64;
        self.state / 0x2_0000_0000
    }

    /// Moves on to the next state and gives out a number between `lo` and
    /// `hi`, `hi` excluded.
    pub fn gen(&mut self, lo: usize, hi: usize) -> (r: usize)
        requires
            lo < hi,
        ensures
            final(self).state == next_state(old(self).state),
            r == output_between(final(self).state, lo as int, hi as int),
            lo <= r < hi,
    {
        let raw = self.gen_u64();
        let span: u64 = (hi - lo) as u64;
        lo + (raw % span) as usize
    }
}

} // verus!
