use dl_labs::detection::{leaked_count, nms_keep, shuffled_order, split_by_scene};
use dl_labs::lcg::Lcg;
use dl_labs::metrics::{
    class_histogram, confusion_counts, count, mask_iou_counts, match_count, segmentation_counts,
};

fn step(s: u64) -> u64 {
    s.wrapping_mul(6364136223846793005).wrapping_add(1442695040888963407)
}

#[test]
fn count_of_a_mask() {
    assert_eq!(count(&vec![true, false, true, true]), 3);
    assert_eq!(count(&Vec::new()), 0);
}

#[test]
fn mask_iou_counts_on_two_masks() {
    let a = vec![true, true, false, false, true];
    let b = vec![false, true, true, false, true];
    assert_eq!(mask_iou_counts(&a, &b), (2, 4));
    let (i, u) = mask_iou_counts(&a, &a);
    assert_eq!(i, u);
    assert_eq!(mask_iou_counts(&vec![false; 3], &vec![false; 3]), (0, 0));
}

#[test]
fn match_count_over_the_shorter_list() {
    assert_eq!(match_count(&vec![1, 2, 3, 4], &vec![1, 0, 3]), 2);
    assert_eq!(match_count(&vec![], &vec![1]), 0);
}

#[test]
fn confusion_counts_add_up() {
    let pred = vec![true, true, false, false, true, false];
    let gt = vec![true, false, true, false, true, false];
    let c = confusion_counts(&pred, &gt);
    assert_eq!((c.tp, c.fp, c.fn_, c.tn), (2, 1, 1, 2));
    assert_eq!(c.tp + c.fp + c.fn_ + c.tn, pred.len());
}

#[test]
fn class_histogram_counts_each_label() {
    let h = class_histogram(&vec![0, 2, 2, 1, 2, 0], 4);
    assert_eq!(h, vec![2, 1, 3, 0]);
    assert_eq!(h.iter().sum::<usize>(), 6);
}

#[test]
fn segmentation_counts_per_class() {
    let pred = vec![0, 1, 1, 2, 3, 3];
    let gt = vec![0, 1, 2, 2, 3, 0];
    let s = segmentation_counts(&pred, &gt, 4);
    assert_eq!(s.correct, 4);
    assert_eq!(s.total, 6);
    assert_eq!(s.inter, vec![1, 1, 1, 1]);
    assert_eq!(s.union, vec![2, 2, 2, 2]);
    assert_eq!(s.inter.iter().sum::<usize>(), s.correct);
}

#[test]
fn nms_keeps_first_and_drops_suppressed_of_same_class() {
    // 0 suppresses 1 (same class); 0 overlaps 2 but 2 has another class;
    // 1 would suppress 3, but 1 is gone, so 3 stays.
    let cls = vec![0usize, 0, 1, 0];
    let mut sup = vec![vec![false; 4]; 4];
    sup[0][1] = true;
    sup[0][2] = true;
    sup[1][3] = true;
    assert_eq!(nms_keep(&cls, &sup), vec![0, 2, 3]);
    assert!(nms_keep(&Vec::new(), &Vec::new()).is_empty());
    let all = vec![vec![true; 3]; 3];
    assert_eq!(nms_keep(&vec![5, 5, 5], &all), vec![0]);
    assert_eq!(nms_keep(&vec![5, 6, 7], &all), vec![0, 1, 2]);
}

#[test]
fn shuffled_order_is_the_fisher_yates_pass() {
    for n in [0usize, 1, 2, 5, 17, 100] {
        let mut r = Lcg::new(42);
        let got = shuffled_order(n, &mut r);
        let mut want: Vec<usize> = (0..n).collect();
        let mut s = 42u64;
        for i in (1..n).rev() {
            s = step(s);
            let j = (s % (i as u64 + 1)) as usize;
            want.swap(i, j);
        }
        assert_eq!(got, want);
        assert_eq!(r.0, s);
        let mut sorted = got.clone();
        sorted.sort();
        assert_eq!(sorted, (0..n).collect::<Vec<usize>>());
    }
}

#[test]
fn split_by_scene_has_no_leak() {
    let scene = vec![0usize, 0, 1, 1, 2, 2, 3, 3, 4, 4];
    let (tr, va) = split_by_scene(&scene, 3);
    assert_eq!(tr, vec![0, 1, 2, 3, 4, 5]);
    assert_eq!(va, vec![6, 7, 8, 9]);
    assert_eq!(leaked_count(&scene, &tr, &va), 0);
}

#[test]
fn random_split_leaks_scenes() {
    let scene = vec![0usize, 0, 1, 1, 2, 2];
    let tr = vec![0usize, 2, 4];
    let va = vec![1usize, 3, 5];
    assert_eq!(leaked_count(&scene, &tr, &va), 3);
    assert_eq!(leaked_count(&scene, &vec![0, 1], &vec![2, 3, 4]), 0);
    assert_eq!(leaked_count(&scene, &vec![0, 2], &vec![1, 5]), 1);
}
