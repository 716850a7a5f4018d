//! SplitMix64: a counter advanced by the golden-ratio gamma, scrambled by two
//! xor-shift-multiply rounds.
use vstd::prelude::*;

verus! {

/// The golden-ratio increment of the counter.
pub const GAMMA: u64 = 0x9E37_79B9_7F4A_7C15u64;

/// First mixing multiplier.
pub const MIX1: u64 = 0xBF58_476D_1CE4_E5B9u64;

/// Second mixing multiplier.
pub const MIX2: u64 = 0x94D0_49BB_1331_11EBu64;

/// Product modulo `2^64`.
pub open spec fn mul64(a: u64, b: u64) -> u64 {
    ((a as nat * b as nat) % 0x1_0000_0000_0000_0000nat) as u64
}

/// Sum modulo `2^64`.
pub open spec fn add64(a: u64, b: u64) -> u64 {
    ((a as nat + b as nat) % 0x1_0000_0000_0000_0000nat) as u64
}

/// The output scrambler applied to a counter value.
#[verifier::opaque]
pub open spec fn mix64(z0: u64) -> u64 {
    let z1 = mul64(z0 ^ (z0 >> 30u64), MIX1);
    let z2 = mul64(z1 ^ (z1 >> 27u64), MIX2);
    z2 ^ (z2 >> 31u64)
}

/// A SplitMix64 generator.
pub struct Rng {
    pub state: u64,
}

impl Rng {
    /// Seeds the generator; the counter starts at the seed.
    pub fn new(seed: u64) -> (r: Self)
        ensures
            r.state == seed,
    {
        Rng { state: seed }
    }

    /// Advances the counter by the gamma and returns the scrambled counter.
    pub fn next_u64(&mut self) -> (r: u64)
        ensures
            final(self).state == add64(old(self).state, GAMMA),
            r == mix64(final(self).state),
    {
        self.state = self.state.wrapping_add(GAMMA);
        proof {
            assert(self.state == add64(old(self).state, GAMMA));
        }
        proof {
            reveal(mix64);
        }
        let mut z = self.state;
        z = (z ^ (z >> 30)).wrapping_mul(MIX1);
        z = (z ^ (z >> 27)).wrapping_mul(MIX2);
        z ^ (z >> 31)
    }

    /// Draws an index in `[lo, hi)`: `lo` plus the next output modulo the width.
    pub fn range(&mut self, lo: usize, hi: usize) -> (r: usize)
        requires
            lo < hi,
        ensures
            r == lo + ((mix64(add64(old(self).state, GAMMA)) as usize) as int) % (hi - lo) as int,
            lo <= r < hi,
            final(self).state == add64(old(self).state, GAMMA),
    {
        lo + (self.next_u64() as usize) % (hi - lo)
    }
}

} // verus!
