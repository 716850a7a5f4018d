use dl_labs::faces::{
    draw_attribute_face, draw_liveness_face, first_index, gallery_indices, kind_recall, live_kind,
    live_label, pair_counts, probe_flags, LiveKind,
};
use dl_labs::lcg::Lcg;

fn step(s: u64) -> u64 {
    s.wrapping_mul(6364136223846793005).wrapping_add(1442695040888963407)
}

fn unit(s: u64) -> f32 {
    (s >> 11) as f32 / (1u64 << 53) as f32
}

#[test]
fn live_kinds_of_the_four_draws() {
    assert_eq!(live_kind(0), LiveKind::Real);
    assert_eq!(live_kind(1), LiveKind::Real);
    assert_eq!(live_kind(2), LiveKind::Print);
    assert_eq!(live_kind(3), LiveKind::Screen);
    assert_eq!(live_label(LiveKind::Real), 1);
    assert_eq!(live_label(LiveKind::Print), 0);
    assert_eq!(live_label(LiveKind::Screen), 0);
}

#[test]
fn liveness_draws_follow_the_float_generator() {
    let mut r = Lcg::new(11);
    let mut s = 11u64;
    for _ in 0..500 {
        let f = draw_liveness_face(&mut r);
        s = step(s);
        let k = ((unit(s) * 4.0) as u32).min(3);
        let want = if k < 2 {
            LiveKind::Real
        } else if k == 2 {
            LiveKind::Print
        } else {
            LiveKind::Screen
        };
        assert_eq!(f.live, want);
        s = step(s);
        assert_eq!(f.glasses, unit(s) < 0.5);
        s = step(s);
        assert_eq!(f.smile, unit(s) < 0.5);
        s = step(s);
        assert_eq!(f.hat, unit(s) < 0.5);
        assert_eq!(r.0, s);
    }
}

#[test]
fn attribute_draws_are_three_coins_on_a_live_face() {
    let mut r = Lcg::new(303);
    let mut s = 303u64;
    for _ in 0..500 {
        let f = draw_attribute_face(&mut r);
        assert_eq!(f.live, LiveKind::Real);
        s = step(s);
        assert_eq!(f.glasses, unit(s) < 0.5);
        s = step(s);
        assert_eq!(f.smile, unit(s) < 0.5);
        s = step(s);
        assert_eq!(f.hat, unit(s) < 0.5);
    }
}

#[test]
fn recall_per_kind_and_totals_partition_the_set() {
    let kinds = vec![
        LiveKind::Real,
        LiveKind::Print,
        LiveKind::Real,
        LiveKind::Screen,
        LiveKind::Screen,
        LiveKind::Real,
    ];
    let ys = vec![1, 0, 1, 0, 0, 1];
    let pred = vec![1, 0, 0, 1, 0, 1];
    assert_eq!(kind_recall(&kinds, &pred, &ys, LiveKind::Real), (2, 3));
    assert_eq!(kind_recall(&kinds, &pred, &ys, LiveKind::Print), (1, 1));
    assert_eq!(kind_recall(&kinds, &pred, &ys, LiveKind::Screen), (1, 2));
    let total: usize = [LiveKind::Real, LiveKind::Print, LiveKind::Screen]
        .iter()
        .map(|&k| kind_recall(&kinds, &pred, &ys, k).1)
        .sum();
    assert_eq!(total, kinds.len());
}

#[test]
fn pair_counts_of_a_small_set() {
    let labels = vec![0u32, 0, 1, 1, 1, 2];
    assert_eq!(pair_counts(&labels), (4, 11));
    assert_eq!(pair_counts(&Vec::new()), (0, 0));
    assert_eq!(pair_counts(&vec![7]), (0, 0));
    let many: Vec<u32> = (0..96).map(|i| i / 12).collect();
    let (same, diff) = pair_counts(&many);
    assert_eq!(same, 8 * 66);
    assert_eq!(same + diff, 96 * 95 / 2);
}

#[test]
fn first_index_and_gallery() {
    let labels = vec![2u32, 0, 1, 0, 2, 1];
    assert_eq!(first_index(&labels, 0), Some(1));
    assert_eq!(first_index(&labels, 2), Some(0));
    assert_eq!(first_index(&labels, 5), None);
    assert_eq!(gallery_indices(&labels, 3), vec![1, 2, 0]);
    assert!(gallery_indices(&labels, 0).is_empty());
}

#[test]
fn probes_are_all_but_the_enrolled_samples() {
    let labels = vec![2u32, 0, 1, 0, 2, 1, 1];
    assert_eq!(probe_flags(&labels), vec![false, false, false, true, true, true, true]);
    let g = gallery_indices(&labels, 3);
    let flags = probe_flags(&labels);
    for (i, &f) in flags.iter().enumerate() {
        assert_eq!(f, g[labels[i] as usize] != i);
    }
}
