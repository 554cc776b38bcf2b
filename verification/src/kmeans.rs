//! The deterministic random source of the k-means palette estimation.

use vstd::prelude::*;

verus! {

/// Multiplier of the linear congruential generator.
pub const LCG_MUL: u64 = 6364136223846793005;
/// Increment of the linear congruential generator.
pub const LCG_INC: u64 = 1442695040888963407;
/// Constant mixed into the user seed.
pub const SEED_MIX: u64 = 0x9E37_79B9_7F4A_7C15;

/// One step of the generator, modulo 2^64.
pub open spec fn lcg_next(s: u64) -> u64 {
    ((s * LCG_MUL + LCG_INC) % 0x1_0000_0000_0000_0000) as u64
}

/// Number of clusters for `n` data points when `k` are asked for: at most
/// `k`, and at most one per point.
pub fn cluster_count(k: usize, n: usize) -> (c: usize)
    ensures
        c == vstd::math::min(k as int, n as int),
{
    if k < n { k } else { n }
}

/// A 64-bit linear congruential generator.
pub struct Lcg {
    state: u64,
}

impl Lcg {
    pub closed spec fn state(&self) -> u64 {
        self.state
    }

    /// The generator for a user seed.
    pub fn seeded(seed: u32) -> (g: Lcg)
        ensures
            g.state() == (seed as u64) ^ SEED_MIX,
    {
        Lcg { state: (seed as u64) ^ SEED_MIX }
    }

    /// Advance the generator and return the top 53 bits of the new state,
    /// the mantissa of a uniform draw from `[0, 1)`.
    pub fn next_bits(&mut self) -> (r: u64)
        ensures
            final(self).state() == lcg_next(old(self).state()),
            r == final(self).state() / 2048,
            r < 0x20_0000_0000_0000,
    {
        let m = self.state.wrapping_mul(LCG_MUL);
        let s = m.wrapping_add(LCG_INC);
        proof {
            let x = self.state as int;
            assert(m == (x * LCG_MUL) % 0x1_0000_0000_0000_0000);
            vstd::arithmetic::div_mod::lemma_add_mod_noop(x * LCG_MUL, LCG_INC as int, 0x1_0000_0000_0000_0000);
            vstd::arithmetic::div_mod::lemma_small_mod(LCG_INC as nat, 0x1_0000_0000_0000_0000);
            vstd::arithmetic::div_mod::lemma_mod_twice(m as int + LCG_INC, 0x1_0000_0000_0000_0000);
        }
        self.state = s;
        assert(s >> 11 == s / 2048) by (bit_vector);
        s >> 11
    }
}

} // verus!
