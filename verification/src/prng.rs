//! The pseudo-random stream from which boards are laid out.

use vstd::prelude::*;

verus! {

/// A xorshift generator over 64 bits.
pub struct Prng(pub u64);

/// One step of the generator: the state after the step, which is also the
/// number drawn.
pub open spec fn xorshift(s: u64) -> u64 {
    let a = s ^ (s << 13);
    let b = a ^ (a >> 7);
    b ^ (b << 17)
}

/// The `n`-th number drawn from a generator that starts in state `seed`;
/// the zeroth is the seed itself.
pub open spec fn nth_draw(seed: u64, n: int) -> u64
    decreases n,
{
    if n <= 0 {
        seed
    } else {
        xorshift(nth_draw(seed, n - 1))
    }
}

impl Prng {
    /// Draws the next number.
    pub fn next(&mut self) -> (r: u64)
        ensures
            final(self).0 == xorshift(old(self).0),
            r == final(self).0,
    {
        self.0 ^= self.0 << 13;
        self.0 ^= self.0 >> 7;
        self.0 ^= self.0 << 17;
        self.0
    }
}

} // verus!
