use dl_labs::shapes::preview_mask;
use dl_labs::shapes::pool_batch;
use dl_labs::shapes::block_labels;
use dl_labs::lcg::Lcg;
use dl_labs::shapes::{
    caption_shape_mask, dataset_labels, draw_b_mask, draw_mask, draw_shape_mask, mask_from_rects,
    mode_mask, multilabel_layout, Rect,
};
use dl_labs::splitmix::Rng;

fn step(s: u64) -> u64 {
    s.wrapping_mul(6364136223846793005).wrapping_add(1442695040888963407)
}

fn rect_oracle(side: usize, x0: usize, x1: usize, y0: usize, y1: usize) -> Vec<u8> {
    let mut m = vec![0u8; side * side];
    for y in 0..side {
        for x in 0..side {
            if x0 <= x && x < x1 && y0 <= y && y < y1 {
                m[y * side + x] = 1;
            }
        }
    }
    m
}

#[test]
fn mask_from_rects_paints_union() {
    let rects = vec![
        Rect { x0: 0, x1: 2, y0: 0, y1: 1 },
        Rect { x0: 1, x1: 3, y0: 2, y1: 4 },
    ];
    let m = mask_from_rects(4, &rects);
    assert_eq!(m, vec![1, 1, 0, 0, 0, 0, 0, 0, 0, 1, 1, 0, 0, 1, 1, 0]);
    assert_eq!(mask_from_rects(3, &Vec::new()), vec![0u8; 9]);
}

#[test]
fn draw_mask_places_bars_and_blocks() {
    for seed in [1u64, 42, 2024, 99999] {
        let a = step(seed);
        let b = step(a);
        let mut r = Lcg::new(seed);
        let x0 = 4 + (a % 18) as usize;
        assert_eq!(draw_mask(0, &mut r), rect_oracle(28, x0, x0 + 3, 0, 28));
        assert_eq!(r.0, a);
        let mut r = Lcg::new(seed);
        assert_eq!(draw_mask(1, &mut r), rect_oracle(28, 0, 28, x0, x0 + 3));
        assert_eq!(r.0, a);
        let mut r = Lcg::new(seed);
        let bx = 3 + (a % 14) as usize;
        let by = 3 + (b % 14) as usize;
        let m = draw_mask(2, &mut r);
        assert_eq!(m, rect_oracle(28, bx, bx + 8, by, by + 8));
        assert_eq!(m.iter().filter(|&&v| v == 1).count(), 64);
        assert_eq!(r.0, b);
    }
}

#[test]
fn draw_shape_mask_uses_the_sixteen_grid() {
    let seed = 7u64;
    let a = step(seed);
    let b = step(a);
    let mut r = Lcg::new(seed);
    let x0 = 3 + (a % 9) as usize;
    assert_eq!(draw_shape_mask(0, &mut r), rect_oracle(16, x0, x0 + 3, 0, 16));
    let mut r = Lcg::new(seed);
    let bx = 2 + (a % 7) as usize;
    let by = 2 + (b % 7) as usize;
    assert_eq!(draw_shape_mask(2, &mut r), rect_oracle(16, bx, bx + 6, by, by + 6));
}

#[test]
fn caption_shape_mask_bars_are_four_wide() {
    let seed = 5u64;
    let a = step(seed);
    let b = step(a);
    let mut r = Lcg::new(seed);
    let y0 = (a % 12) as usize;
    let m = caption_shape_mask(1, &mut r);
    assert_eq!(m, rect_oracle(16, 0, 16, y0, y0 + 4));
    assert_eq!(m.iter().filter(|&&v| v == 1).count(), 64);
    let mut r = Lcg::new(seed);
    let bx = (a % 8) as usize;
    let by = (b % 8) as usize;
    assert_eq!(caption_shape_mask(2, &mut r), rect_oracle(16, bx, bx + 8, by, by + 8));
}

#[test]
fn draw_b_mask_shapes() {
    let diag = draw_b_mask(0);
    assert_eq!(diag.len(), 784);
    assert_eq!(diag.iter().filter(|&&v| v == 1).count(), 28 + 27);
    assert_eq!(diag[0], 1);
    assert_eq!(diag[1], 1);
    assert_eq!(diag[28], 0);
    let anti = draw_b_mask(1);
    assert_eq!(anti[27], 1);
    assert_eq!(anti[26], 1);
    assert_eq!(anti[0], 0);
    let cross = draw_b_mask(2);
    assert_eq!(cross.iter().filter(|&&v| v == 1).count(), 3 * 28 * 2 - 9);
    let disc = draw_b_mask(3);
    let mut n = 0;
    for y in 0..28i32 {
        for x in 0..28i32 {
            let on = (x - 14) * (x - 14) + (y - 14) * (y - 14) <= 36;
            assert_eq!(disc[(y * 28 + x) as usize] == 1, on);
            if on {
                n += 1;
            }
        }
    }
    assert_eq!(n, 113);
}

#[test]
fn mode_masks_are_bars_at_two_seven_twelve() {
    assert_eq!(mode_mask(0), rect_oracle(16, 2, 5, 0, 16));
    assert_eq!(mode_mask(1), rect_oracle(16, 7, 10, 0, 16));
    assert_eq!(mode_mask(2), rect_oracle(16, 12, 15, 0, 16));
    assert_eq!(mode_mask(3), rect_oracle(16, 0, 16, 2, 5));
    assert_eq!(mode_mask(4), rect_oracle(16, 0, 16, 7, 10));
    assert_eq!(mode_mask(5), rect_oracle(16, 0, 16, 12, 15));
}

#[test]
fn dataset_labels_cycle_through_classes() {
    let ys = dataset_labels(4, 3);
    assert_eq!(ys, vec![0, 1, 2, 0, 1, 2, 0, 1, 2, 0, 1, 2]);
    assert!(dataset_labels(0, 5).is_empty());
    assert!(dataset_labels(5, 0).is_empty());
}

fn sm_next(r: &mut Rng) -> u64 {
    r.next_u64()
}

#[test]
fn multilabel_layout_matches_float_coins() {
    for seed in 0..200u64 {
        let mut oracle = Rng::new(seed * 7919 + 1);
        let mut lib = Rng::new(seed * 7919 + 1);
        let f = |v: u64| (v >> 40) as f32 / (1u64 << 24) as f32;
        let h = f(sm_next(&mut oracle)) < 0.5;
        let v = f(sm_next(&mut oracle)) < 0.5;
        let b = f(sm_next(&mut oracle)) < 0.25;
        let mut m = vec![0u8; 256];
        if h {
            let r = 2 + (sm_next(&mut oracle) as usize) % 11;
            for yy in r..r + 2 {
                for x in 0..16 {
                    m[yy * 16 + x] = 1;
                }
            }
        }
        if v {
            let c = 2 + (sm_next(&mut oracle) as usize) % 11;
            for y in 0..16 {
                for xx in c..c + 2 {
                    m[y * 16 + xx] = 1;
                }
            }
        }
        if b {
            let by = (sm_next(&mut oracle) as usize) % 12;
            let bx = (sm_next(&mut oracle) as usize) % 12;
            for y in by..by + 4 {
                for x in bx..bx + 4 {
                    m[y * 16 + x] = 1;
                }
            }
        }
        let s = multilabel_layout(&mut lib);
        assert_eq!(s.hbar, h);
        assert_eq!(s.vbar, v);
        assert_eq!(s.block, b);
        assert_eq!(s.mask, m);
        assert_eq!(lib.state, oracle.state);
    }
}

#[test]
fn block_labels_repeat_each_class() {
    assert_eq!(block_labels(3, 2), vec![0, 0, 1, 1, 2, 2]);
    assert!(block_labels(0, 4).is_empty());
    assert!(block_labels(4, 0).is_empty());
    let ys = block_labels(9, 5);
    for c in 0..9u32 {
        assert_eq!(ys.iter().filter(|&&y| y == c).count(), 5);
    }
}

#[test]
fn pool_batch_draws_indices_and_modes() {
    let mut r = Lcg::new(77);
    let (idx, modes) = pool_batch(240, 64, 6, &mut r);
    let mut s = 77u64;
    assert_eq!(idx.len(), 64);
    for k in 0..64 {
        s = step(s);
        assert_eq!(idx[k], (s % 240) as usize);
        assert_eq!(modes[k], idx[k] % 6);
    }
    assert_eq!(r.0, s);
    let (e, m) = pool_batch(5, 0, 6, &mut r);
    assert!(e.is_empty() && m.is_empty());
}

#[test]
fn balanced_sets_have_equal_class_counts() {
    let ys = dataset_labels(7, 4);
    for c in 0..4u32 {
        assert_eq!(ys.iter().filter(|&&y| y == c).count(), 7);
    }
}

#[test]
fn preview_mask_matches_the_drawn_picture() {
    let sz = 128usize;
    let (o, w) = (sz * 4 / 10, sz / 9);
    assert_eq!(preview_mask(0, sz), rect_oracle(sz, o, o + w, 0, sz));
    assert_eq!(preview_mask(1, sz), rect_oracle(sz, 0, sz, o, o + w));
    assert_eq!(preview_mask(2, sz), rect_oracle(sz, 32, 96, 32, 96));
    assert_eq!(preview_mask(0, sz).iter().filter(|&&v| v == 1).count(), 14 * 128);
}
