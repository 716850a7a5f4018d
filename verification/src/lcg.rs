//! Linear congruential generator over 64-bit states.
use vstd::arithmetic::div_mod::*;
use vstd::prelude::*;

verus! {

/// Multiplier of the generator (Knuth's MMIX constant).
pub const LCG_MUL: u64 = 6364136223846793005u64;

/// Increment of the generator.
pub const LCG_INC: u64 = 1442695040888963407u64;

/// One step of the generator on the mathematical state: `(s * a + c) mod 2^64`.
pub open spec fn lcg_step(s: u64) -> u64 {
    ((s as int * LCG_MUL as int + LCG_INC as int) % 0x1_0000_0000_0000_0000int) as u64
}

/// The machine computation `s.wrapping_mul(a).wrapping_add(c)` is the step above.
pub proof fn lemma_wrapping_step(s: u64)
    ensures
        (s.wrapping_mul(LCG_MUL)).wrapping_add(LCG_INC) == lcg_step(s),
{
    let m = 0x1_0000_0000_0000_0000int;
    let p = s as int * LCG_MUL as int;
    let w = p % m;
    assert(s.wrapping_mul(LCG_MUL) == w);
    lemma_add_mod_noop(p, LCG_INC as int, m);
    lemma_small_mod(LCG_INC as nat, m as nat);
    lemma_mod_bound(p, m);
    lemma_mod_bound(w + LCG_INC as int, m);
    if w + LCG_INC as int > u64::MAX {
        lemma_mod_add_multiples_vanish(w + LCG_INC as int - m, m);
        lemma_small_mod((w + LCG_INC as int - m) as nat, m as nat);
    } else {
        lemma_small_mod((w + LCG_INC as int) as nat, m as nat);
    }
    lemma_mod_twice(w, m);
}

/// `2^e`.
pub open spec fn two_pow(e: nat) -> nat
    decreases e,
{
    if e == 0 {
        1
    } else {
        2 * two_pow((e - 1) as nat)
    }
}

/// How many low bits of `v` lie beyond the 24 significant bits that a
/// single-precision float keeps.
pub open spec fn excess_bits(v: nat) -> nat
    decreases v,
{
    if v < 0x100_0000 {
        0
    } else {
        1 + excess_bits(v / 2)
    }
}

/// The single-precision value nearest to the natural number `v`, ties to even
/// (the rounding that `as f32` and every f32 operation apply).
pub open spec fn round_single(v: nat) -> nat {
    let s = excess_bits(v);
    let p = two_pow(s);
    let q = v / p;
    let r = v % p;
    if s == 0 {
        v
    } else if r * 2 > p || (r * 2 == p && q % 2 == 1) {
        (q + 1) * p
    } else {
        q * p
    }
}

proof fn lemma_two_pow_pos(e: nat)
    ensures
        two_pow(e) >= 1,
    decreases e,
{
    if e > 0 {
        lemma_two_pow_pos((e - 1) as nat);
    }
}

proof fn lemma_two_pow_exceeds(e: nat)
    ensures
        e < two_pow(e),
    decreases e,
{
    if e > 0 {
        lemma_two_pow_exceeds((e - 1) as nat);
    }
}

/// Rounds `v` to the nearest value that has at most 24 significant bits, ties to even.
pub fn round_to_single(v: u128) -> (r: u128)
    requires
        v < 0x1_0000_0000_0000_0000_0000_0000u128,
    ensures
        r == round_single(v as nat),
        r <= 2 * v,
{
    let mut t: u128 = v;
    let mut p: u128 = 1;
    let mut s: u128 = 0;
    while t >= 0x100_0000
        invariant
            p >= 1,
            p == two_pow(s as nat),
            t == v / p,
            excess_bits(v as nat) == s + excess_bits(t as nat),
            v < 0x1_0000_0000_0000_0000_0000_0000u128,
            p <= v || s == 0,
            s < p,
        decreases t,
    {
        proof {
            lemma_fundamental_div_mod(v as int, p as int);
            lemma_mod_bound(v as int, p as int);
            assert(p * 2 <= v) by (nonlinear_arith)
                requires
                    v == p * t + v % p,
                    v % p >= 0,
                    t >= 0x100_0000,
                    p >= 1,
            ;
            lemma_div_denominator(v as int, p as int, 2);
            assert(excess_bits(t as nat) == 1 + excess_bits((t / 2) as nat));
            assert(two_pow((s + 1) as nat) == 2 * two_pow(s as nat));
            lemma_two_pow_exceeds(s as nat);
        }
        t = t / 2;
        p = p * 2;
        s = s + 1;
    }
    proof {
        assert(excess_bits(t as nat) == 0);
    }
    if s == 0 {
        return v;
    }
    proof {
        lemma_fundamental_div_mod(v as int, p as int);
        lemma_mod_bound(v as int, p as int);
        assert(t * p <= v) by (nonlinear_arith)
            requires
                v == p * t + v % p,
                v % p >= 0,
        ;
    }
    let r = v - t * p;
    proof {
        assert(r == v % p) by (nonlinear_arith)
            requires
                v == p * t + v % p,
                r == v - t * p,
        ;
    }
    proof {
        assert((t + 1) * p == t * p + p) by (nonlinear_arith);
        assert(excess_bits(v as nat) == s);
    }
    if r * 2 > p || (r * 2 == p && t % 2 == 1) {
        t * p + p
    } else {
        t * p
    }
}

/// `2^53` times the unit value `(state >> 11) as f32 / 2^53` that a state yields.
pub open spec fn unit_scaled(state: u64) -> nat {
    round_single((state / 2048) as nat)
}

/// What `below(n)` answers from a freshly drawn state: the single-precision
/// product of the unit value and `n`, truncated, and capped at `n - 1`.
pub open spec fn below_value(state: u64, n: u32) -> nat {
    let k = round_single(unit_scaled(state) * round_single(n as nat)) / 0x20_0000_0000_0000;
    if k < n - 1 {
        k
    } else {
        (n - 1) as nat
    }
}

/// The lowest bit of the state flips at every step: both constants are odd, so
/// the low bits alone follow a short period and must not be used for draws.
pub proof fn law_low_bit_alternates(s: u64)
    ensures
        lcg_step(s) % 2 != s % 2,
{
    let m = 0x1_0000_0000_0000_0000int;
    let x = s as int * LCG_MUL as int + LCG_INC as int;
    assert(x == 2 * (s as int * 3182068111923396502 + 721347520444481703) + s as int + 1);
    lemma_mod_multiples_vanish(s as int * 3182068111923396502 + 721347520444481703, s as int + 1, 2);
    lemma_mod_mod(x, 2, 0x8000_0000_0000_0000int);
    assert(lcg_step(s) as int == x % m);
}

/// A deterministic generator whose whole state is one 64-bit word.
pub struct Lcg(pub u64);

impl Lcg {
    /// Seeds the generator; the state is the seed itself.
    pub fn new(s: u64) -> (r: Self)
        ensures
            r.0 == s,
    {
        Lcg(s)
    }

    /// Advances the state one step and returns the new state.
    pub fn next(&mut self) -> (r: u64)
        ensures
            r == lcg_step(old(self).0),
            final(self).0 == r,
    {
        proof {
            lemma_wrapping_step(self.0);
        }
        self.0 = self.0.wrapping_mul(LCG_MUL).wrapping_add(LCG_INC);
        self.0
    }

    /// Draws an index in `0..n` as the next state modulo `n`.
    pub fn range(&mut self, n: usize) -> (r: usize)
        requires
            n > 0,
        ensures
            r == (lcg_step(old(self).0) as int) % (n as int),
            r < n,
            final(self).0 == lcg_step(old(self).0),
    {
        (self.next() % n as u64) as usize
    }

    /// A fair coin from the high bits: true when the unit value of the next
    /// state is below one half.
    pub fn boolean(&mut self) -> (b: bool)
        ensures
            b == (unit_scaled(lcg_step(old(self).0)) < 0x10_0000_0000_0000),
            final(self).0 == lcg_step(old(self).0),
    {
        let x = self.next();
        proof {
            assert(x >> 11u64 == x / 2048) by (bit_vector);
        }
        let u = round_to_single((x >> 11) as u128);
        u < 0x10_0000_0000_0000u128
    }

    /// An integer in `0..n` from the high bits: the unit value of the next
    /// state scaled by `n` and truncated.
    pub fn below(&mut self, n: u32) -> (r: u32)
        requires
            n > 0,
        ensures
            r == below_value(lcg_step(old(self).0), n),
            r < n,
            final(self).0 == lcg_step(old(self).0),
    {
        let x = self.next();
        proof {
            assert(x >> 11u64 == x / 2048) by (bit_vector);
        }
        let u = round_to_single((x >> 11) as u128);
        let m = round_to_single(n as u128);
        proof {
            assert(u * m <= 0x40_0000_0000_0000u128 * 0x2_0000_0000u128) by (nonlinear_arith)
                requires
                    u <= 0x40_0000_0000_0000u128,
                    m <= 0x2_0000_0000u128,
            ;
        }
        let q = round_to_single(u * m);
        let k = q / 0x20_0000_0000_0000u128;
        if k < (n - 1) as u128 {
            k as u32
        } else {
            n - 1
        }
    }
}

} // verus!
