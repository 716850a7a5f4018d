use dl_labs::lcg::{round_to_single, Lcg, LCG_INC, LCG_MUL};
use dl_labs::lcg_span::Lcg as SpanLcg;
use dl_labs::splitmix::Rng;

fn step(s: u64) -> u64 {
    s.wrapping_mul(6364136223846793005).wrapping_add(1442695040888963407)
}

fn float_unit(x: u64) -> f32 {
    (x >> 11) as f32 / (1u64 << 53) as f32
}

#[test]
fn lcg_constants_are_knuth_mmix() {
    assert_eq!(LCG_MUL, 6364136223846793005);
    assert_eq!(LCG_INC, 1442695040888963407);
}

#[test]
fn lcg_first_states_from_seed_42() {
    let mut r = Lcg::new(42);
    assert_eq!(r.0, 42);
    assert_eq!(r.next(), 10481999410520546993);
    assert_eq!(r.next(), 4159066171780167020);
    assert_eq!(r.next(), 7615522811268512075);
    assert_eq!(r.0, 7615522811268512075);
}

#[test]
fn lcg_range_is_next_state_modulo_n() {
    let mut r = Lcg::new(7);
    assert_eq!(r.range(10), 0);
    assert_eq!(r.0, 9098160460397411210);
    let mut a = Lcg::new(123);
    let mut s = 123u64;
    for n in 1..200usize {
        s = step(s);
        assert_eq!(a.range(n), (s % n as u64) as usize);
    }
}

#[test]
fn lcg_low_bit_alternates() {
    let mut r = Lcg::new(2024);
    let mut prev = r.0 & 1;
    for _ in 0..1000 {
        let b = r.next() & 1;
        assert_ne!(b, prev);
        prev = b;
    }
}

#[test]
fn boolean_agrees_with_single_precision_unit() {
    for seed in [0u64, 1, 11, 77, 303, 909, 555, 0xFFFF_FFFF_FFFF_FFFF] {
        let mut r = Lcg::new(seed);
        let mut s = seed;
        for _ in 0..5000 {
            s = step(s);
            assert_eq!(r.boolean(), float_unit(s) < 0.5);
            assert_eq!(r.0, s);
        }
    }
}

#[test]
fn below_agrees_with_single_precision_scaling() {
    for n in [1u32, 2, 3, 4, 5, 7, 10, 100, 1000, 65537, 16_777_217, u32::MAX] {
        let mut r = Lcg::new(n as u64 * 31 + 5);
        let mut s = r.0;
        for _ in 0..3000 {
            s = step(s);
            let expect = ((float_unit(s) * n as f32) as u32).min(n - 1);
            let got = r.below(n);
            assert_eq!(got, expect);
            assert!(got < n);
        }
    }
}

#[test]
fn below_four_covers_every_value() {
    let mut r = Lcg::new(11);
    let mut seen = [false; 4];
    for _ in 0..200 {
        seen[r.below(4) as usize] = true;
    }
    assert!(seen.iter().all(|&b| b));
}

#[test]
fn round_to_single_matches_f32_cast() {
    let mut s = 99u64;
    for _ in 0..20000 {
        s = step(s);
        for v in [s, s >> 11, s >> 20, s >> 40, s & 0xFFFF_FFFF] {
            assert_eq!(round_to_single(v as u128), (v as f32) as u128);
        }
    }
    // exact ties round to even
    assert_eq!(round_to_single(0x100_0001), 0x100_0000);
    assert_eq!(round_to_single(0x100_0003), 0x100_0004);
    assert_eq!(round_to_single(0xFF_FFFF), 0xFF_FFFF);
    assert_eq!(round_to_single(0), 0);
}

#[test]
fn span_range_from_seed_9() {
    let mut r = SpanLcg::new(9);
    assert_eq!(r.range(-5, 5), -1);
    let mut a = SpanLcg::new(4);
    let mut s = 4u64;
    for w in 1..60i32 {
        s = step(s);
        let v = a.range(-w, w);
        assert_eq!(v, -w + (s % (2 * w) as u64) as i32);
        assert!(-w <= v && v < w);
    }
}

#[test]
fn splitmix_reference_outputs_from_zero() {
    let mut r = Rng::new(0);
    assert_eq!(r.next_u64(), 0xe220a8397b1dcdaf);
    assert_eq!(r.next_u64(), 0x6e789e6aa1b965f4);
    assert_eq!(r.next_u64(), 0x06c45d188009454f);
    assert_eq!(r.state, 3u64.wrapping_mul(0x9E37_79B9_7F4A_7C15));
}

#[test]
fn splitmix_range_from_seed_1234() {
    let mut r = Rng::new(1234);
    assert_eq!(r.range(3, 10), 4);
}
