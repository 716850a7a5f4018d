use dl_labs::lcg::Lcg;
use dl_labs::metrics::{contains_label, held_out_breakdown};
use dl_labs::restore::{bar_target, denoise_target};

fn step(s: u64) -> u64 {
    s.wrapping_mul(6364136223846793005).wrapping_add(1442695040888963407)
}

struct Gen(u64);

impl Gen {
    fn range(&mut self, n: usize) -> usize {
        self.0 = step(self.0);
        (self.0 % n as u64) as usize
    }
}

fn bars_oracle(g: &mut Gen) -> Vec<u8> {
    let hr = 32;
    let mut m = vec![0u8; hr * hr];
    let bars = 2 + g.range(2);
    for _ in 0..bars {
        let w = 2 + g.range(3);
        if g.range(2) == 0 {
            let x0 = g.range(hr - w);
            for y in 0..hr {
                for x in x0..x0 + w {
                    m[y * hr + x] = 1;
                }
            }
        } else {
            let y0 = g.range(hr - w);
            for x in 0..hr {
                for y in y0..y0 + w {
                    m[y * hr + x] = 1;
                }
            }
        }
    }
    m
}

fn denoise_oracle(g: &mut Gen) -> Vec<u8> {
    let dn = 24;
    let mut m = vec![0u8; dn * dn];
    match g.range(3) {
        0 => {
            let x0 = 4 + g.range(dn - 9);
            for y in 0..dn {
                for x in x0..x0 + 4 {
                    m[y * dn + x] = 1;
                }
            }
        }
        1 => {
            let y0 = 4 + g.range(dn - 9);
            for x in 0..dn {
                for y in y0..y0 + 4 {
                    m[y * dn + x] = 1;
                }
            }
        }
        _ => {
            let x0 = 3 + g.range(dn - 13);
            let y0 = 3 + g.range(dn - 13);
            for y in y0..y0 + 9 {
                for x in x0..x0 + 9 {
                    m[y * dn + x] = 1;
                }
            }
        }
    }
    m
}

#[test]
fn bar_target_follows_the_sampler() {
    for seed in 0..300u64 {
        let mut r = Lcg::new(seed);
        let mut g = Gen(seed);
        assert_eq!(bar_target(&mut r), bars_oracle(&mut g));
        assert_eq!(r.0, g.0);
    }
}

#[test]
fn bar_target_sequence_from_seed_one() {
    let mut r = Lcg::new(1);
    let mut g = Gen(1);
    for _ in 0..160 {
        let m = bar_target(&mut r);
        assert_eq!(m.len(), 1024);
        assert!(m.iter().filter(|&&v| v == 1).count() >= 2 * 32);
        assert_eq!(m, bars_oracle(&mut g));
    }
}

#[test]
fn denoise_target_follows_the_sampler() {
    for seed in 0..300u64 {
        let mut r = Lcg::new(seed);
        let mut g = Gen(seed);
        let m = denoise_target(&mut r);
        assert_eq!(m, denoise_oracle(&mut g));
        assert_eq!(r.0, g.0);
        let ones = m.iter().filter(|&&v| v == 1).count();
        assert!(ones == 96 || ones == 81);
    }
}

#[test]
fn contains_label_finds_members_only() {
    let held = vec![0u32, 4, 8];
    assert!(contains_label(&held, 0));
    assert!(contains_label(&held, 8));
    assert!(!contains_label(&held, 3));
    assert!(!contains_label(&Vec::new(), 0));
}

#[test]
fn held_out_breakdown_splits_seen_and_unseen() {
    let held = vec![0u32, 4, 8];
    let labels = vec![0u32, 0, 1, 2, 4, 4, 8, 5];
    let pred = vec![0u32, 1, 1, 5, 7, 4, 6, 5];
    let b = held_out_breakdown(&pred, &labels, &held);
    assert_eq!((b.seen_ok, b.seen_n), (2, 3));
    assert_eq!((b.unseen_ok, b.unseen_n), (2, 5));
    // 0->1 keeps colour 0; 4->7 keeps shape 1; 8->6 keeps colour 2.
    assert_eq!(b.unseen_colour, 4);
    assert_eq!(b.unseen_shape, 3);
}
