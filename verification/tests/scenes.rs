use dl_labs::face_scene::{face_background, place_faces};
use dl_labs::scenes::GtBox;
use dl_labs::detection::{grid_targets, responsible_cell};
use dl_labs::lcg_span::Lcg;
use dl_labs::region::region_grow;
use dl_labs::scenes::{
    place_instances, paint_boxes, paint_label_mask, place_boxes, place_objects, sample_label_shapes, BoxSceneParams,
    LabeledRect,
};

fn yolo_params() -> BoxSceneParams {
    BoxSceneParams {
        n_lo: 1,
        n_hi: 4,
        max_tries: 80,
        sq_lo: 10,
        sq_hi: 15,
        bw_lo: 18,
        bw_hi: 27,
        bh_lo: 6,
        bh_hi: 9,
        min_sep: 14,
    }
}

fn crowded_params() -> BoxSceneParams {
    BoxSceneParams {
        n_lo: 2,
        n_hi: 5,
        max_tries: 120,
        sq_lo: 8,
        sq_hi: 17,
        bw_lo: 12,
        bw_hi: 31,
        bh_lo: 5,
        bh_hi: 10,
        min_sep: 13,
    }
}

// The rejection sampler written out plainly, as a reference.
fn boxes_oracle(p: BoxSceneParams, rng: &mut Lcg) -> Vec<(u32, i32, i32, i32, i32)> {
    let n = rng.range(p.n_lo, p.n_hi);
    let mut out: Vec<(u32, i32, i32, i32, i32)> = Vec::new();
    let mut tries = 0;
    while (out.len() as i32) < n && tries < p.max_tries {
        tries += 1;
        let cls = rng.range(0, 2);
        let (w, h) = if cls == 0 {
            let s = rng.range(p.sq_lo, p.sq_hi);
            (s, s)
        } else {
            let w = rng.range(p.bw_lo, p.bw_hi);
            let h = rng.range(p.bh_lo, p.bh_hi);
            (w, h)
        };
        let cx = rng.range(w / 2 + 1, 48 - w / 2 - 1);
        let cy = rng.range(h / 2 + 1, 48 - h / 2 - 1);
        if out.iter().any(|g| (g.1 - cx).abs() < p.min_sep && (g.2 - cy).abs() < p.min_sep) {
            continue;
        }
        out.push((cls as u32, cx, cy, w, h));
    }
    out
}

#[test]
fn place_boxes_follows_the_rejection_sampler() {
    for p in [yolo_params(), crowded_params()] {
        for seed in 0..300u64 {
            let mut a = Lcg::new(seed);
            let mut b = Lcg::new(seed);
            let got = place_boxes(p, &mut a);
            let want = boxes_oracle(p, &mut b);
            let got_t: Vec<(u32, i32, i32, i32, i32)> = got.iter().map(|g| (g.cls, g.cx, g.cy, g.w, g.h)).collect();
            assert_eq!(got_t, want);
            assert_eq!(a.0, b.0);
            assert!(!got.is_empty() && got.len() < p.n_hi as usize);
            for i in 0..got.len() {
                for j in i + 1..got.len() {
                    let (gi, gj) = (got[i], got[j]);
                    assert!((gi.cx - gj.cx).abs() >= p.min_sep || (gi.cy - gj.cy).abs() >= p.min_sep);
                }
            }
        }
    }
}

#[test]
fn paint_boxes_fills_each_box() {
    let p = yolo_params();
    let mut r = Lcg::new(3);
    let boxes = place_boxes(p, &mut r);
    let m = paint_boxes(p, &boxes);
    assert_eq!(m.len(), 48 * 48);
    for y in 0..48i32 {
        for x in 0..48i32 {
            let on = boxes.iter().any(|g| {
                let x0 = g.cx - g.w / 2;
                let y0 = g.cy - g.h / 2;
                x0 <= x && x < x0 + g.w && y0 <= y && y < y0 + g.h
            });
            assert_eq!(m[(y * 48 + x) as usize] == 1, on);
        }
    }
}

fn label_shapes_oracle(rng: &mut Lcg) -> Vec<(u32, i32, i32, i32, i32)> {
    let n = rng.range(2, 4);
    let mut shapes = Vec::new();
    let mut tries = 0;
    while (shapes.len() as i32) < n && tries < 60 {
        tries += 1;
        let cls = rng.range(1, 4);
        let (w, h) = match cls {
            1 => (rng.range(3, 6), rng.range(12, 21)),
            2 => (rng.range(12, 21), rng.range(3, 6)),
            _ => {
                let s = rng.range(8, 13);
                (s, s)
            }
        };
        let x0 = rng.range(1, 28 - w - 1);
        let y0 = rng.range(1, 28 - h - 1);
        shapes.push((cls as u32, x0, y0, w, h));
    }
    shapes
}

#[test]
fn sample_label_shapes_follows_the_sampler() {
    for seed in 0..300u64 {
        let mut a = Lcg::new(seed);
        let mut b = Lcg::new(seed);
        let got = sample_label_shapes(&mut a);
        let want = label_shapes_oracle(&mut b);
        let got_t: Vec<(u32, i32, i32, i32, i32)> = got.iter().map(|s| (s.cls, s.x0, s.y0, s.w, s.h)).collect();
        assert_eq!(got_t, want);
        assert_eq!(a.0, b.0);
        assert!(got.len() == 2 || got.len() == 3);
    }
}

#[test]
fn paint_label_mask_later_shapes_win() {
    let shapes = vec![
        LabeledRect { cls: 1, x0: 2, y0: 2, w: 4, h: 4 },
        LabeledRect { cls: 3, x0: 4, y0: 4, w: 3, h: 3 },
        LabeledRect { cls: 2, x0: 26, y0: 0, w: 5, h: 1 },
    ];
    let m = paint_label_mask(&shapes);
    assert_eq!(m.len(), 784);
    assert_eq!(m[2 * 28 + 2], 1);
    assert_eq!(m[4 * 28 + 4], 3);
    assert_eq!(m[5 * 28 + 5], 3);
    assert_eq!(m[3 * 28 + 5], 1);
    assert_eq!(m[6 * 28 + 6], 3);
    assert_eq!(m[7 * 28 + 7], 0);
    assert_eq!(m[26], 2);
    assert_eq!(m[27], 2);
    assert_eq!(m[28], 0);
    assert_eq!(m.iter().filter(|&&v| v == 1).count(), 16 - 4);
    assert_eq!(m.iter().filter(|&&v| v == 3).count(), 9);
    assert_eq!(m.iter().filter(|&&v| v == 2).count(), 2);
    assert!(paint_label_mask(&Vec::new()).iter().all(|&v| v == 0));
}

fn objects_oracle(rng: &mut Lcg) -> Vec<(i32, i32, i32, i32, u32)> {
    let n = rng.range(2, 5);
    let mut objs: Vec<(i32, i32, i32, i32, u32)> = Vec::new();
    let mut tries = 0;
    while (objs.len() as i32) < n && tries < 60 {
        tries += 1;
        let w = rng.range(6, 12);
        let h = rng.range(6, 12);
        let x0 = rng.range(1, 28 - w - 1);
        let y0 = rng.range(1, 28 - h - 1);
        let (x1, y1) = (x0 + w - 1, y0 + h - 1);
        let overlap = objs.iter().any(|o| x0 <= o.2 + 2 && x1 >= o.0 - 2 && y0 <= o.3 + 2 && y1 >= o.1 - 2);
        if overlap {
            continue;
        }
        let color = rng.range(0, 4) as u32;
        objs.push((x0, y0, x1, y1, color));
    }
    objs
}

#[test]
fn place_objects_follows_the_sampler() {
    for seed in 0..300u64 {
        let mut a = Lcg::new(seed);
        let mut b = Lcg::new(seed);
        let got = place_objects(&mut a);
        let want = objects_oracle(&mut b);
        let got_t: Vec<(i32, i32, i32, i32, u32)> = got.iter().map(|o| (o.x0, o.y0, o.x1, o.y1, o.color)).collect();
        assert_eq!(got_t, want);
        assert_eq!(a.0, b.0);
        for o in &got {
            assert_eq!(o.cx, (o.x0 + o.x1) / 2);
            assert_eq!(o.cy, (o.y0 + o.y1) / 2);
        }
    }
}

// A 28 x 28 RGB picture: grey background, a red 6 x 5 block at (4..10, 3..8),
// a second red block at (15..20, 15..20), and a green block touching the first.
fn test_picture() -> Vec<u8> {
    let mut img = vec![0u8; 3 * 784];
    for i in 0..784 {
        img[3 * i] = 60;
        img[3 * i + 1] = 60;
        img[3 * i + 2] = 60;
    }
    let mut paint = |x0: usize, x1: usize, y0: usize, y1: usize, c: [u8; 3]| {
        for y in y0..y1 {
            for x in x0..x1 {
                let i = y * 28 + x;
                img[3 * i] = c[0];
                img[3 * i + 1] = c[1];
                img[3 * i + 2] = c[2];
            }
        }
    };
    paint(4, 10, 3, 8, [220, 40, 40]);
    paint(15, 20, 15, 20, [215, 45, 40]);
    paint(10, 13, 3, 8, [40, 200, 40]);
    img
}

#[test]
fn region_grow_takes_the_clicked_block_only() {
    let img = test_picture();
    let m = region_grow(&img, (6, 5), 45 * 45, None);
    assert_eq!(m.len(), 784);
    assert_eq!(m.iter().filter(|&&b| b).count(), 30);
    for y in 0..28 {
        for x in 0..28 {
            assert_eq!(m[y * 28 + x], (4..10).contains(&x) && (3..8).contains(&y));
        }
    }
}

#[test]
fn region_grow_box_prompt_clips_the_region() {
    let img = test_picture();
    let m = region_grow(&img, (6, 5), 45 * 45, Some([5, 4, 7, 6]));
    assert_eq!(m.iter().filter(|&&b| b).count(), 9);
    let outside = region_grow(&img, (6, 5), 45 * 45, Some([0, 0, 1, 1]));
    assert!(outside.iter().all(|&b| !b));
}

#[test]
fn region_grow_tight_threshold_keeps_only_the_seed_colour() {
    let img = test_picture();
    let m = region_grow(&img, (6, 5), 1, None);
    assert_eq!(m.iter().filter(|&&b| b).count(), 30);
    let none = region_grow(&img, (6, 5), 0, None);
    assert_eq!(none.iter().filter(|&&b| b).count(), 1);
    assert!(none[5 * 28 + 6]);
}

#[test]
fn region_grow_wide_threshold_floods_everything_connected() {
    let img = test_picture();
    let m = region_grow(&img, (0, 0), 1_000_000, None);
    assert!(m.iter().all(|&b| b));
    let small = region_grow(&img, (0, 0), 45 * 45, None);
    assert_eq!(small.iter().filter(|&&b| b).count(), 784 - 30 - 25 - 15);
    for (a, b) in small.iter().zip(m.iter()) {
        assert!(!*a || *b);
    }
}

#[test]
fn grid_targets_mark_responsible_cells() {
    assert_eq!(responsible_cell(0, 0), 0);
    assert_eq!(responsible_cell(47, 47), 35);
    assert_eq!(responsible_cell(15, 8), 7);
    assert_eq!(responsible_cell(60, 3), 5);
    let boxes = vec![
        GtBox { cls: 0, cx: 12, cy: 20, w: 10, h: 10 },
        GtBox { cls: 1, cx: 40, cy: 5, w: 20, h: 6 },
        GtBox { cls: 1, cx: 13, cy: 22, w: 20, h: 6 },
    ];
    let t = grid_targets(&boxes, 2);
    assert_eq!(t.cells, vec![13, 5, 13]);
    assert_eq!(t.obj.iter().filter(|&&b| b).count(), 2);
    assert!(t.obj[13] && t.obj[5]);
    assert_eq!(t.cls.len(), 72);
    assert!(t.cls[13] && t.cls[36 + 13] && t.cls[36 + 5]);
    assert!(!t.cls[5]);
    assert_eq!(t.cls.iter().filter(|&&b| b).count(), 3);
}

#[test]
fn face_scene_follows_the_sampler() {
    for seed in 0..100u64 {
        let mut a = Lcg::new(seed);
        let mut b = Lcg::new(seed);
        let px = face_background(&mut a);
        let base = b.range(12, 46);
        let mut want = Vec::new();
        for _ in 0..48 * 48 {
            let v = (base + b.range(0, 26)).clamp(0, 255);
            let blue = (v + b.range(-6, 7)).clamp(0, 255);
            want.push(v as u8);
            want.push(v as u8);
            want.push(blue as u8);
        }
        assert_eq!(px, want);
        assert_eq!(a.0, b.0);
        let faces = place_faces(&mut a);
        let n = b.range(1, 3);
        let mut oracle: Vec<(i32, i32, i32, i32)> = Vec::new();
        let mut tries = 0;
        while (oracle.len() as i32) < n && tries < 60 {
            tries += 1;
            let w = b.range(14, 23) as f32;
            let h = w * 1.25;
            let hw = (w / 2.0) as i32 + 2;
            let hh = (h / 2.0) as i32 + 2;
            let cx = b.range(hw, 48 - hw) as f32;
            let cy = b.range(hh, 48 - hh) as f32;
            if oracle.iter().any(|f| (f.0 as f32 - cx).abs() < 16.0 && (f.1 as f32 - cy).abs() < 16.0) {
                continue;
            }
            let sk = b.range(175, 236);
            oracle.push((cx as i32, cy as i32, w as i32, sk));
        }
        let got: Vec<(i32, i32, i32, i32)> = faces.iter().map(|f| (f.cx, f.cy, f.w, f.skin)).collect();
        assert_eq!(got, oracle);
        assert_eq!(a.0, b.0);
    }
}

fn instances_oracle(rng: &mut Lcg) -> Vec<(u32, i32, i32, i32, i32)> {
    let n = rng.range(2, 5);
    let mut insts: Vec<(u32, i32, i32, i32, i32)> = Vec::new();
    let mut tries = 0;
    while (insts.len() as i32) < n && tries < 80 {
        tries += 1;
        let cls = rng.range(0, 3);
        let (hw, hh) = match cls {
            0 | 1 => {
                let r = rng.range(5, 9);
                (r, r)
            }
            _ => {
                let a = rng.range(6, 10);
                let b = rng.range(6, 10);
                (a, b)
            }
        };
        let cx = rng.range(hw + 1, 48 - hw - 1);
        let cy = rng.range(hh + 1, 48 - hh - 1);
        if insts.iter().any(|o| (o.1 - cx).abs() < 16 && (o.2 - cy).abs() < 16) {
            continue;
        }
        insts.push((cls as u32, cx, cy, hw, hh));
    }
    insts
}

#[test]
fn place_instances_follows_the_sampler() {
    for seed in 0..300u64 {
        let mut a = Lcg::new(seed);
        let mut b = Lcg::new(seed);
        let got = place_instances(&mut a);
        let want = instances_oracle(&mut b);
        let got_t: Vec<(u32, i32, i32, i32, i32)> = got.iter().map(|g| (g.cls, g.cx, g.cy, g.hw, g.hh)).collect();
        assert_eq!(got_t, want);
        assert_eq!(a.0, b.0);
        assert!(!got.is_empty() && got.len() <= 4);
    }
}
