use dl_labs::caption::{class_name, prompt};
use dl_labs::gesture::{match_gesture, N_GESTURES};
use dl_labs::palette::{gen_content, gen_reference, ST};
use dl_labs::roi::{crop_resize_mask, paste_mask, pixel_box, PixelBox, IMG, M};

#[test]
fn prompts_of_the_nine_classes() {
    assert_eq!(prompt(0), [1, 2, 3, 4, 7]);
    assert_eq!(prompt(4), [1, 2, 3, 5, 8]);
    assert_eq!(prompt(8), [1, 2, 3, 6, 9]);
    for a in 0..9 {
        for b in 0..9 {
            assert_eq!(prompt(a) == prompt(b), a == b);
        }
    }
}

#[test]
fn class_names_join_colour_and_shape() {
    assert_eq!(class_name(0), "红竖条");
    assert_eq!(class_name(4), "绿横条");
    assert_eq!(class_name(8), "蓝方块");
    assert_eq!(class_name(5), "绿方块");
}

#[test]
fn gestures_are_recognised_by_pattern() {
    assert_eq!(N_GESTURES, 5);
    assert_eq!(match_gesture([false, false, false, false, false]), 0);
    assert_eq!(match_gesture([true, true, true, true, true]), 1);
    assert_eq!(match_gesture([false, true, false, false, false]), 2);
    assert_eq!(match_gesture([false, true, true, false, false]), 3);
    assert_eq!(match_gesture([true, false, false, false, false]), 4);
    assert_eq!(match_gesture([true, true, false, false, false]), -1);
    assert_eq!(match_gesture([false, false, false, false, true]), -1);
}

#[test]
fn content_picture_matches_float_formula() {
    let v = gen_content();
    assert_eq!(v.len(), 3 * ST * ST);
    for y in 0..ST {
        for x in 0..ST {
            let i = (y * ST + x) * 3;
            let block = (10..24).contains(&x) && (12..26).contains(&y) || (38..56).contains(&x) && (34..52).contains(&y);
            let t = y as f32 / ST as f32;
            let want = if block {
                [235u8, 235, 240]
            } else {
                [25u8, (40.0 + 70.0 * t) as u8, (120.0 + 100.0 * t) as u8]
            };
            assert_eq!([v[i], v[i + 1], v[i + 2]], want);
        }
    }
    assert_eq!(&v[0..3], &[25, 40, 120]);
    assert_eq!(&v[(63 * 64) * 3..(63 * 64) * 3 + 3], &[25, 108, 218]);
}

#[test]
fn reference_picture_matches_float_formula() {
    let v = gen_reference();
    assert_eq!(v.len(), 3 * ST * ST);
    for y in 0..ST {
        for x in 0..ST {
            let i = (y * ST + x) * 3;
            let t = x as f32 / ST as f32;
            let want = [
                (200.0 + 40.0 * t).min(255.0) as u8,
                (90.0 + 120.0 * t) as u8,
                (30.0 + 40.0 * (1.0 - t)) as u8,
            ];
            assert_eq!([v[i], v[i + 1], v[i + 2]], want);
        }
    }
    assert_eq!(&v[0..3], &[200, 90, 70]);
}

#[test]
fn pixel_box_clamps_and_keeps_a_pixel() {
    let b = pixel_box(3, 4, 13, 24);
    assert_eq!((b.x0, b.y0, b.w, b.h), (3, 4, 10, 20));
    let b = pixel_box(-5, -2, 60, 70);
    assert_eq!((b.x0, b.y0, b.w, b.h), (0, 0, 48, 48));
    let b = pixel_box(47, 47, 47, 10);
    assert_eq!((b.x0, b.y0, b.w, b.h), (47, 47, 1, 1));
    let b = pixel_box(20, 30, 20, 30);
    assert_eq!((b.w, b.h), (1, 1));
}

fn box_mask(x0: usize, x1: usize, y0: usize, y1: usize) -> Vec<bool> {
    let mut m = vec![false; IMG * IMG];
    for y in y0..y1 {
        for x in x0..x1 {
            m[y * IMG + x] = true;
        }
    }
    m
}

#[test]
fn crop_resize_mask_nearest_neighbour() {
    let mask = box_mask(10, 24, 10, 24);
    let b = PixelBox { x0: 10, y0: 10, w: 14, h: 14 };
    let o = crop_resize_mask(&mask, b);
    assert_eq!(o.len(), M * M);
    assert!(o.iter().all(|&v| v == 1));
    let wide = PixelBox { x0: 3, y0: 10, w: 28, h: 14 };
    let o = crop_resize_mask(&mask, wide);
    for oy in 0..M {
        for ox in 0..M {
            let sx = (3 + ox * 28 / M).min(IMG - 1);
            let sy = (10 + oy * 14 / M).min(IMG - 1);
            assert_eq!(o[oy * M + ox] == 1, mask[sy * IMG + sx]);
        }
    }
    assert_eq!(o[0], 0);
    assert_eq!(o[7], 1);
}

#[test]
fn paste_mask_stretches_into_the_box() {
    let small = vec![1u32; M * M];
    let b = PixelBox { x0: 5, y0: 6, w: 10, h: 3 };
    let full = paste_mask(&small, b);
    assert_eq!(full, box_mask(5, 15, 6, 9));
    let mut half = vec![0u32; M * M];
    for y in 0..M {
        for x in 0..M / 2 {
            half[y * M + x] = 1;
        }
    }
    let b = PixelBox { x0: 0, y0: 0, w: 48, h: 48 };
    let full = paste_mask(&half, b);
    for y in 0..IMG {
        for x in 0..IMG {
            assert_eq!(full[y * IMG + x], (x * M / 48) < M / 2);
        }
    }
}

#[test]
fn paste_then_crop_round_trips_a_full_box() {
    let mut small = vec![0u32; M * M];
    for i in 0..M * M {
        if (i / M + i % M) % 3 == 0 {
            small[i] = 1;
        }
    }
    let b = PixelBox { x0: 10, y0: 10, w: 28, h: 28 };
    let full = paste_mask(&small, b);
    assert_eq!(crop_resize_mask(&full, b), small);
}
