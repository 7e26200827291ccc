//! Pseudo-random number generation and showdown decisions for Monte Carlo runouts.
use vstd::prelude::*;

pub mod showdown;

pub use showdown::{deal_runout, lowest_score_players, showdown_outcome, ShowdownOutcome};

verus! {

/// One step of the 64-bit Xorshift generator (shifts 13, 7, 17).
pub open spec fn xorshift_step(x: u64) -> u64 {
    let a = x ^ (x << 13u64);
    let b = a ^ (a >> 7u64);
    b ^ (b << 17u64)
}

proof fn lemma_xorshift_nonzero(x: u64)
    by (bit_vector)
    requires
        x != 0,
    ensures
        (x ^ (x << 13u64)) ^ ((x ^ (x << 13u64)) >> 7u64) ^ (((x ^ (x << 13u64)) ^ ((x ^ (x
            << 13u64)) >> 7u64)) << 17u64) != 0,
{
}

/// Lightweight 64-bit Xorshift PRNG for non-allocating Monte Carlo runouts.
#[derive(Debug, Clone)]
pub struct FastPrng(pub u64);

impl FastPrng {
    /// Creates a generator from a seed; the zero seed, a fixed point of Xorshift, is
    /// replaced by a nonzero constant.
    pub fn new(seed: u64) -> (p: Self)
        ensures
            p.0 == if seed == 0 { 0xDEADBEEFCAFE1234u64 } else { seed },
            p.0 != 0,
    {
        FastPrng(if seed == 0 { 0xDEADBEEFCAFE1234 } else { seed })
    }

    /// Advances the state one Xorshift step and returns the new state.
    pub fn next_u64(&mut self) -> (r: u64)
        ensures
            r == xorshift_step(old(self).0),
            final(self).0 == r,
            old(self).0 != 0 ==> r != 0,
    {
        let mut x = self.0;
        x ^= x << 13;
        x ^= x >> 7;
        x ^= x << 17;
        proof {
            if old(self).0 != 0 {
                lemma_xorshift_nonzero(old(self).0);
            }
        }
        self.0 = x;
        x
    }
}

} // verus!
