//! The same linear congruential generator, drawing integers from half-open
//! intervals `[lo, hi)` of signed coordinates.
use crate::lcg::{lcg_step, lemma_wrapping_step, LCG_INC, LCG_MUL};
use vstd::prelude::*;

verus! {

/// The value that `range(lo, hi)` draws at state `s`: `lo` plus the next
/// state modulo the width.
pub open spec fn span_value(s: u64, lo: int, hi: int) -> int {
    lo + (lcg_step(s) as int) % (hi - lo)
}

/// A deterministic generator whose whole state is one 64-bit word.
pub struct Lcg(pub u64);

impl Lcg {
    /// Seeds the generator; the state is the seed itself.
    pub fn new(s: u64) -> (r: Self)
        ensures
            r.0 == s,
    {
        Lcg(s)
    }

    /// Advances the state one step and returns the new state.
    pub fn next(&mut self) -> (r: u64)
        ensures
            r == lcg_step(old(self).0),
            final(self).0 == r,
    {
        proof {
            lemma_wrapping_step(self.0);
        }
        self.0 = self.0.wrapping_mul(LCG_MUL).wrapping_add(LCG_INC);
        self.0
    }

    /// Draws an integer in `[lo, hi)`: `lo` plus the next state modulo the width.
    pub fn range(&mut self, lo: i32, hi: i32) -> (r: i32)
        requires
            lo < hi,
            hi as int - lo as int <= i32::MAX,
        ensures
            r == lo + (lcg_step(old(self).0) as int) % (hi as int - lo as int),
            lo <= r < hi,
            final(self).0 == lcg_step(old(self).0),
    {
        let w = hi - lo;
        let k = self.next() % (w as u64);
        lo + k as i32
    }
}

} // verus!
