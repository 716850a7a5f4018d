//! Bookkeeping around a detector: greedy non-maximum suppression over
//! detections already sorted by score, the shuffled order of a random
//! train/validation split, the split by scene, and the count of validation
//! frames whose scene also occurs in training.
use crate::lcg::{lcg_step, Lcg};
use crate::metrics::{count_if, lemma_count_if_ext};
use crate::scenes::GtBox;
use vstd::prelude::*;

verus! {

/// The keep/drop decisions of greedy suppression over the first `n`
/// detections (in score order): a detection is kept exactly when no earlier
/// kept detection of the same class suppresses it.
pub open spec fn nms_flags(cls: Seq<usize>, sup: Seq<Seq<bool>>, n: nat) -> Seq<bool>
    decreases n,
{
    if n == 0 {
        Seq::empty()
    } else {
        let f = nms_flags(cls, sup, (n - 1) as nat);
        let k = n - 1;
        f.push(!exists|j: int| 0 <= j < k && f[j] && cls[j] == cls[k] && #[trigger] sup[j][k])
    }
}

/// The rows of a matrix as sequences.
pub open spec fn rows(m: Seq<Vec<bool>>) -> Seq<Seq<bool>> {
    m.map_values(|r: Vec<bool>| r@)
}

/// The keep flags of greedy suppression over all detections.
pub open spec fn nms_kept(cls: Seq<usize>, sup: Seq<Vec<bool>>) -> Seq<bool> {
    nms_flags(cls, rows(sup), cls.len())
}

proof fn lemma_nms_flags_prefix(cls: Seq<usize>, sup: Seq<Seq<bool>>, m: nat, n: nat)
    requires
        m <= n,
    ensures
        nms_flags(cls, sup, n).len() == n,
        forall|k: int| 0 <= k < m ==> nms_flags(cls, sup, m)[k] == #[trigger] nms_flags(cls, sup, n)[k],
    decreases n,
{
    if n > 0 {
        if m < n {
            lemma_nms_flags_prefix(cls, sup, m, (n - 1) as nat);
        } else {
            lemma_nms_flags_prefix(cls, sup, (n - 1) as nat, (n - 1) as nat);
        }
    }
}

/// Greedy class-aware suppression. `cls[i]` is the class of detection `i`
/// (detections sorted by decreasing score) and `sup[i][j]`, for `i < j`, says
/// whether detection `i` overlaps detection `j` beyond the threshold. Returns
/// the indices of the kept detections, in increasing order.
pub fn nms_keep(cls: &Vec<usize>, sup: &Vec<Vec<bool>>) -> (keep: Vec<usize>)
    requires
        sup.len() == cls.len(),
        forall|i: int| 0 <= i < sup.len() ==> #[trigger] sup@[i].len() == cls.len(),
    ensures
        forall|t: int| 0 <= t < keep.len() ==> #[trigger] keep@[t] < cls.len(),
        forall|t: int, u: int| 0 <= t < u < keep.len() ==> keep@[t] < keep@[u],
        forall|t: int|
            0 <= t < keep.len() ==> nms_kept(cls@, sup@)[#[trigger] keep@[t] as int],
        forall|k: int|
            0 <= k < cls.len() && #[trigger] nms_kept(cls@, sup@)[k]
                ==> keep@.contains(k as usize),
        // the characterising property of greedy suppression
        forall|k: int|
            0 <= k < cls.len() ==> (#[trigger] nms_kept(cls@, sup@)[k] <==> !exists|j: int|
                0 <= j < k && nms_kept(cls@, sup@)[j]
                    && cls@[j] == cls@[k] && sup@[j]@[k]),
        cls.len() > 0 ==> keep.len() > 0 && keep@[0] == 0,
{
    let n = cls.len();
    let ghost sp = rows(sup@);
    let mut removed: Vec<bool> = Vec::new();
    let mut k: usize = 0;
    while k < n
        invariant
            k <= n,
            removed.len() == k,
            forall|j: int| 0 <= j < k ==> !removed@[j],
        decreases n - k,
    {
        removed.push(false);
        k = k + 1;
    }
    let mut keep: Vec<usize> = Vec::new();
    let mut i: usize = 0;
    while i < n
        invariant
            i <= n,
            n == cls.len(),
            sup.len() == n,
            forall|r: int| 0 <= r < n ==> #[trigger] sup@[r].len() == n,
            sp == rows(sup@),
            removed.len() == n,
            nms_flags(cls@, sp, i as nat).len() == i,
            forall|k2: int| 0 <= k2 < i ==> removed@[k2] == !#[trigger] nms_flags(cls@, sp, i as nat)[k2],
            forall|j: int|
                i <= j < n ==> removed@[j] == exists|k2: int|
                    0 <= k2 < i && nms_flags(cls@, sp, i as nat)[k2] && cls@[k2] == cls@[j]
                        && #[trigger] sp[k2][j],
            forall|t: int| 0 <= t < keep.len() ==> #[trigger] keep@[t] < i,
            forall|t: int, u: int| 0 <= t < u < keep.len() ==> keep@[t] < keep@[u],
            forall|t: int| 0 <= t < keep.len() ==> nms_flags(cls@, sp, i as nat)[#[trigger] keep@[t] as int],
            forall|k2: int| 0 <= k2 < i && #[trigger] nms_flags(cls@, sp, i as nat)[k2] ==> keep@.contains(k2 as usize),
        decreases n - i,
    {
        let ghost f = nms_flags(cls@, sp, i as nat);
        let ghost f2 = nms_flags(cls@, sp, (i + 1) as nat);
        proof {
            assert(f2 == f.push(!removed@[i as int]));
        }
        if !removed[i] {
            let ghost keep0 = keep@;
            keep.push(i);
            assert(sup@[i as int].len() == n);
            let ghost r0 = removed@;
            let mut j: usize = i + 1;
            while j < n
                invariant
                    i < j <= n,
                    i < n,
                    sup@[i as int].len() == n,
                    n == cls.len(),
                    sup.len() == n,
                    forall|r: int| 0 <= r < n ==> #[trigger] sup@[r].len() == n,
                    sp == rows(sup@),
                    removed.len() == n,
                    forall|j2: int| 0 <= j2 < j ==> #[trigger] removed@[j2] == (r0[j2] || (j2 > i && cls@[j2] == cls@[i as int] && sp[i as int][j2])),
                    forall|j2: int| j <= j2 < n ==> #[trigger] removed@[j2] == r0[j2],
                    r0.len() == n,
                decreases n - j,
            {
                if !removed[j] && cls[j] == cls[i] && sup[i][j] {
                    removed.set(j, true);
                }
                j = j + 1;
            }
            proof {
                assert forall|k2: int| 0 <= k2 < i + 1 && #[trigger] f2[k2] implies keep@.contains(k2 as usize) by {
                    if k2 < i {
                        assert(keep0.contains(k2 as usize));
                        let t = choose|t: int| 0 <= t < keep0.len() && keep0[t] == k2 as usize;
                        assert(keep@[t] == k2 as usize);
                    } else {
                        assert(keep@[keep0.len() as int] == i);
                    }
                }
                assert forall|j2: int| i + 1 <= j2 < n implies removed@[j2] == exists|k2: int|
                    0 <= k2 < i + 1 && f2[k2] && cls@[k2] == cls@[j2] && #[trigger] sp[k2][j2] by {
                    assert(sp[i as int] == sup@[i as int]@);
                    if removed@[j2] && !r0[j2] {
                        assert(f2[i as int] && cls@[i as int] == cls@[j2] && sp[i as int][j2]);
                    }
                    if r0[j2] {
                        let k2 = choose|k2: int| 0 <= k2 < i && f[k2] && cls@[k2] == cls@[j2] && #[trigger] sp[k2][j2];
                        assert(f2[k2]);
                    }
                }
            }
        } else {
            proof {
                assert forall|k2: int| 0 <= k2 < i + 1 && #[trigger] f2[k2] implies keep@.contains(k2 as usize) by {
                    assert(f2[k2] == f[k2]);
                }
                assert forall|j2: int| i + 1 <= j2 < n implies removed@[j2] == exists|k2: int|
                    0 <= k2 < i + 1 && f2[k2] && cls@[k2] == cls@[j2] && #[trigger] sp[k2][j2] by {
                    if removed@[j2] {
                        let k2 = choose|k2: int| 0 <= k2 < i && f[k2] && cls@[k2] == cls@[j2] && #[trigger] sp[k2][j2];
                        assert(f2[k2]);
                    }
                }
            }
        }
        i = i + 1;
    }
    proof {
        let f = nms_flags(cls@, sp, n as nat);
        assert forall|k2: int| 0 <= k2 < n implies (#[trigger] f[k2] <==> !exists|j: int|
            0 <= j < k2 && f[j] && cls@[j] == cls@[k2] && sup@[j]@[k2]) by {
            lemma_nms_flags_prefix(cls@, sp, (k2 + 1) as nat, n as nat);
            let g = nms_flags(cls@, sp, k2 as nat);
            let h = nms_flags(cls@, sp, (k2 + 1) as nat);
            lemma_nms_flags_prefix(cls@, sp, k2 as nat, (k2 + 1) as nat);
            assert(f[k2] == h[k2]);
            assert(h[k2] == !exists|j: int| 0 <= j < k2 && g[j] && cls@[j] == cls@[k2] && #[trigger] sp[j][k2]);
            if exists|j: int| 0 <= j < k2 && f[j] && cls@[j] == cls@[k2] && sup@[j]@[k2] {
                let j = choose|j: int| 0 <= j < k2 && f[j] && cls@[j] == cls@[k2] && sup@[j]@[k2];
                assert(h[j] == f[j]);
                assert(g[j] == h[j]);
                assert(sp[j] == sup@[j]@);
                assert(g[j] && cls@[j] == cls@[k2] && sp[j][k2]);
            }
            if exists|j: int| 0 <= j < k2 && g[j] && cls@[j] == cls@[k2] && #[trigger] sp[j][k2] {
                let j = choose|j: int| 0 <= j < k2 && g[j] && cls@[j] == cls@[k2] && #[trigger] sp[j][k2];
                assert(h[j] == f[j]);
                assert(g[j] == h[j]);
                assert(sp[j] == sup@[j]@);
                assert(f[j] && cls@[j] == cls@[k2] && sup@[j]@[k2]);
            }
        }
        if n > 0 {
            lemma_nms_flags_prefix(cls@, sp, 1, n as nat);
            assert(f[0]);
            assert(keep@.contains(0usize));
        }
    }
    keep
}

/// `s` with the entries at `i` and `j` exchanged.
pub open spec fn swap_seq(s: Seq<usize>, i: int, j: int) -> Seq<usize> {
    s.update(i, s[j]).update(j, s[i])
}

/// `0, 1, ..., n - 1`.
pub open spec fn identity_order(n: nat) -> Seq<usize> {
    Seq::new(n, |k: int| k as usize)
}

/// The Fisher-Yates pass that walks `i` down to 1, drawing
/// `j = next state mod (i + 1)` and exchanging positions `i` and `j`.
pub open spec fn shuffle_from(order: Seq<usize>, state: u64, i: int) -> Seq<usize>
    decreases i,
{
    if i <= 0 {
        order
    } else {
        let st = lcg_step(state);
        let j = (st as int) % (i + 1);
        shuffle_from(swap_seq(order, i, j), st, i - 1)
    }
}

/// The state after `k` steps.
pub open spec fn lcg_iter(state: u64, k: int) -> u64
    decreases k,
{
    if k <= 0 {
        state
    } else {
        lcg_iter(lcg_step(state), k - 1)
    }
}

/// The entries are exactly `0..n`, each once.
pub open spec fn is_permutation_of_range(s: Seq<usize>, n: nat) -> bool {
    &&& s.len() == n
    &&& forall|k: int| 0 <= k < n ==> #[trigger] s[k] < n
    &&& forall|a: int, b: int| 0 <= a < b < n ==> s[a] != s[b]
}

/// Shuffles the indices `0..n` with a Fisher-Yates pass driven by `rng`.
pub fn shuffled_order(n: usize, rng: &mut Lcg) -> (order: Vec<usize>)
    ensures
        order@ == shuffle_from(identity_order(n as nat), old(rng).0, n - 1),
        is_permutation_of_range(order@, n as nat),
        final(rng).0 == lcg_iter(old(rng).0, n - 1),
{
    let mut order: Vec<usize> = Vec::new();
    let mut k: usize = 0;
    while k < n
        invariant
            k <= n,
            order@ == identity_order(k as nat),
        decreases n - k,
    {
        order.push(k);
        k = k + 1;
        proof {
            assert(order@ =~= identity_order(k as nat));
        }
    }
    if n == 0 {
        return order;
    }
    let ghost s0 = rng.0;
    let mut i: usize = n - 1;
    while i > 0
        invariant
            i < n,
            shuffle_from(order@, rng.0, i as int) == shuffle_from(identity_order(n as nat), s0, n - 1),
            lcg_iter(rng.0, i as int) == lcg_iter(s0, n - 1),
            is_permutation_of_range(order@, n as nat),
        decreases i,
    {
        let ghost o0 = order@;
        let j = (rng.next() % (i as u64 + 1)) as usize;
        let a = order[i];
        let b = order[j];
        order.set(i, b);
        order.set(j, a);
        proof {
            assert(order@ == swap_seq(o0, i as int, j as int));
            assert forall|x: int, y: int| 0 <= x < y < n implies order@[x] != order@[y] by {
                let sx = if x == i { j as int } else if x == j { i as int } else { x };
                let sy = if y == i { j as int } else if y == j { i as int } else { y };
                assert(order@[x] == o0[sx]);
                assert(order@[y] == o0[sy]);
                assert(sx != sy);
                if sx < sy {
                    assert(o0[sx] != o0[sy]);
                } else {
                    assert(o0[sy] != o0[sx]);
                }
            }
        }
        i = i - 1;
    }
    order
}

/// Indices `k < n` in increasing order whose scene is `>= start` (`val`) or
/// `< start` (not `val`).
pub open spec fn group_part(scene: Seq<usize>, start: usize, val: bool, n: nat) -> Seq<usize>
    decreases n,
{
    if n == 0 {
        Seq::empty()
    } else {
        let r = group_part(scene, start, val, (n - 1) as nat);
        if (scene[n - 1] >= start) == val {
            r.push((n - 1) as usize)
        } else {
            r
        }
    }
}

/// Splits frames by scene: frames of scenes below `start` train, the others
/// validate, so no scene appears on both sides.
pub fn split_by_scene(scene: &Vec<usize>, start: usize) -> (r: (Vec<usize>, Vec<usize>))
    ensures
        r.0@ == group_part(scene@, start, false, scene.len() as nat),
        r.1@ == group_part(scene@, start, true, scene.len() as nat),
        r.0.len() + r.1.len() == scene.len(),
        forall|t: int| 0 <= t < r.0.len() ==> #[trigger] r.0@[t] < scene.len() && scene@[r.0@[t] as int] < start,
        forall|t: int| 0 <= t < r.1.len() ==> #[trigger] r.1@[t] < scene.len() && scene@[r.1@[t] as int] >= start,
{
    let mut tr: Vec<usize> = Vec::new();
    let mut va: Vec<usize> = Vec::new();
    let mut k: usize = 0;
    while k < scene.len()
        invariant
            k <= scene.len(),
            tr@ == group_part(scene@, start, false, k as nat),
            va@ == group_part(scene@, start, true, k as nat),
            tr.len() + va.len() == k,
            forall|t: int| 0 <= t < tr.len() ==> #[trigger] tr@[t] < k && scene@[tr@[t] as int] < start,
            forall|t: int| 0 <= t < va.len() ==> #[trigger] va@[t] < k && scene@[va@[t] as int] >= start,
        decreases scene.len() - k,
    {
        if scene[k] < start {
            tr.push(k);
        } else {
            va.push(k);
        }
        k = k + 1;
    }
    (tr, va)
}

/// A validation frame leaks when some training frame shows the same scene.
pub open spec fn leaks(scene: Seq<usize>, tr: Seq<usize>, v: usize) -> bool {
    exists|t: int| 0 <= t < tr.len() && scene[tr[t] as int] == scene[v as int]
}

/// Number of validation frames whose scene also occurs among the training frames.
pub fn leaked_count(scene: &Vec<usize>, tr: &Vec<usize>, va: &Vec<usize>) -> (r: usize)
    requires
        forall|t: int| 0 <= t < tr.len() ==> #[trigger] tr@[t] < scene.len(),
        forall|t: int| 0 <= t < va.len() ==> #[trigger] va@[t] < scene.len(),
    ensures
        r == count_if(va.len() as int, |k: int| leaks(scene@, tr@, va@[k])),
{
    let mut r: usize = 0;
    let mut k: usize = 0;
    while k < va.len()
        invariant
            k <= va.len(),
            forall|t: int| 0 <= t < tr.len() ==> #[trigger] tr@[t] < scene.len(),
            forall|t: int| 0 <= t < va.len() ==> #[trigger] va@[t] < scene.len(),
            r == count_if(k as int, |k2: int| leaks(scene@, tr@, va@[k2])),
            r <= k,
        decreases va.len() - k,
    {
        let sv = scene[va[k]];
        let mut found = false;
        let mut t: usize = 0;
        while t < tr.len()
            invariant
                t <= tr.len(),
                k < va.len(),
                sv == scene@[va@[k as int] as int],
                forall|t2: int| 0 <= t2 < tr.len() ==> #[trigger] tr@[t2] < scene.len(),
                found == exists|t2: int| 0 <= t2 < t && scene@[tr@[t2] as int] == sv,
            decreases tr.len() - t,
        {
            if scene[tr[t]] == sv {
                found = true;
            }
            t = t + 1;
        }
        if found {
            r = r + 1;
        }
        k = k + 1;
    }
    r
}

/// Splitting by scene leaves nothing to leak: no validation frame shares its
/// scene with a training frame.
pub proof fn law_scene_split_has_no_leak(scene: Seq<usize>, tr: Seq<usize>, va: Seq<usize>, start: usize)
    requires
        forall|t: int| 0 <= t < tr.len() ==> scene[#[trigger] tr[t] as int] < start,
        forall|t: int| 0 <= t < va.len() ==> scene[#[trigger] va[t] as int] >= start,
    ensures
        count_if(va.len() as int, |k: int| leaks(scene, tr, va[k])) == 0,
{
    assert forall|k: int| 0 <= k < va.len() implies #[trigger] leaks(scene, tr, va[k]) == false by {
        if leaks(scene, tr, va[k]) {
            let t = choose|t: int| 0 <= t < tr.len() && scene[tr[t] as int] == scene[va[k] as int];
            assert(scene[tr[t] as int] < start);
            assert(scene[va[k] as int] >= start);
        }
    }
    lemma_count_if_ext(va.len() as int, |k: int| leaks(scene, tr, va[k]), |k: int| false);
    lemma_count_false(va.len() as int);
}

proof fn lemma_count_false(n: int)
    ensures
        count_if(n, |k: int| false) == 0,
    decreases n,
{
    if n > 0 {
        lemma_count_false(n - 1);
    }
}


/// Cells per side of the detection grid over a 48 x 48 scene.
pub const GRID: usize = 6;

/// The grid cell, in row-major order, whose 8 x 8 pixel square holds the
/// centre `(cx, cy)`; centres beyond the last row or column fall in it.
pub open spec fn cell_index(cx: int, cy: int) -> int {
    let row = if cy / 8 < 5 { cy / 8 } else { 5 };
    let col = if cx / 8 < 5 { cx / 8 } else { 5 };
    row * 6 + col
}

/// The cell responsible for a box centred at `(cx, cy)`.
pub fn responsible_cell(cx: i32, cy: i32) -> (c: usize)
    requires
        cx >= 0,
        cy >= 0,
    ensures
        c == cell_index(cx as int, cy as int),
        c < GRID * GRID,
{
    let row = if cy / 8 < 5 { (cy / 8) as usize } else { 5 };
    let col = if cx / 8 < 5 { (cx / 8) as usize } else { 5 };
    row * GRID + col
}

/// Where the boxes of one scene land on the grid: the responsible cell of
/// each box, the cells holding some box, and for each class `c` and cell the
/// flag at `c * 36 + cell` that a box of class `c` lands there.
pub struct GridTargets {
    pub cells: Vec<usize>,
    pub obj: Vec<bool>,
    pub cls: Vec<bool>,
}

/// Some box of `boxes` has class `c` (any class when `c` is `None`) and lands in `cell`.
pub open spec fn lands(boxes: Seq<GtBox>, cell: int, c: Option<u32>) -> bool {
    exists|k: int|
        0 <= k < boxes.len() && cell_index(boxes[k].cx as int, boxes[k].cy as int) == cell && match c {
            Some(cc) => boxes[k].cls == cc,
            None => true,
        }
}

/// The training targets of one scene on the detection grid.
pub fn grid_targets(boxes: &Vec<GtBox>, nc: u32) -> (t: GridTargets)
    requires
        nc <= 16,
        forall|k: int|
            0 <= k < boxes.len() ==> (#[trigger] boxes@[k]).cx >= 0 && boxes@[k].cy >= 0 && boxes@[k].cls < nc,
    ensures
        t.cells.len() == boxes.len(),
        forall|k: int|
            0 <= k < boxes.len() ==> #[trigger] t.cells@[k] == cell_index(boxes@[k].cx as int, boxes@[k].cy as int),
        t.obj.len() == GRID * GRID,
        forall|cell: int| 0 <= cell < GRID * GRID ==> #[trigger] t.obj@[cell] == lands(boxes@, cell, None),
        t.cls.len() == nc * GRID * GRID,
        forall|c: int, cell: int|
            0 <= c < nc && 0 <= cell < GRID * GRID ==> #[trigger] t.cls@[c * 36 + cell] == lands(
                boxes@,
                cell,
                Some(c as u32),
            ),
{
    let mut cells: Vec<usize> = Vec::new();
    let mut obj: Vec<bool> = Vec::new();
    let mut cls: Vec<bool> = Vec::new();
    let mut i: usize = 0;
    while i < GRID * GRID
        invariant
            i <= GRID * GRID,
            obj.len() == i,
            forall|j: int| 0 <= j < i ==> !obj@[j],
        decreases GRID * GRID - i,
    {
        obj.push(false);
        i = i + 1;
    }
    let n = nc as usize * GRID * GRID;
    i = 0;
    while i < n
        invariant
            i <= n,
            cls.len() == i,
            forall|j: int| 0 <= j < i ==> !cls@[j],
        decreases n - i,
    {
        cls.push(false);
        i = i + 1;
    }
    let mut k: usize = 0;
    while k < boxes.len()
        invariant
            k <= boxes.len(),
            nc <= 16,
            n == nc * 36,
            forall|j: int|
                0 <= j < boxes.len() ==> (#[trigger] boxes@[j]).cx >= 0 && boxes@[j].cy >= 0 && boxes@[j].cls < nc,
            cells.len() == k,
            forall|j: int|
                0 <= j < k ==> #[trigger] cells@[j] == cell_index(boxes@[j].cx as int, boxes@[j].cy as int),
            obj.len() == 36,
            forall|cell: int| 0 <= cell < 36 ==> #[trigger] obj@[cell] == lands(boxes@.subrange(0, k as int), cell, None),
            cls.len() == n,
            forall|c: int, cell: int|
                0 <= c < nc && 0 <= cell < 36 ==> #[trigger] cls@[c * 36 + cell] == lands(
                    boxes@.subrange(0, k as int),
                    cell,
                    Some(c as u32),
                ),
        decreases boxes.len() - k,
    {
        let g = boxes[k];
        let cell = responsible_cell(g.cx, g.cy);
        cells.push(cell);
        obj.set(cell, true);
        let at = g.cls as usize * GRID * GRID + cell;
        proof {
            assert(at < n) by (nonlinear_arith)
                requires
                    at == g.cls * 36 + cell,
                    g.cls < nc,
                    cell < 36,
                    n == nc * 36,
            ;
        }
        cls.set(at, true);
        proof {
            let before = boxes@.subrange(0, k as int);
            let after = boxes@.subrange(0, k as int + 1);
            assert(after =~= before.push(g));
            assert forall|c2: int| 0 <= c2 < 36 implies #[trigger] obj@[c2] == lands(after, c2, None) by {
                if lands(before, c2, None) {
                    let w = choose|w: int|
                        0 <= w < before.len() && cell_index(before[w].cx as int, before[w].cy as int) == c2 && match None::<u32> {
                            Some(cc) => before[w].cls == cc,
                            None => true,
                        };
                    assert(after[w] == before[w]);
                }
                if c2 == cell {
                    assert(after[k as int] == g);
                }
                if lands(after, c2, None) && c2 != cell {
                    let w = choose|w: int|
                        0 <= w < after.len() && cell_index(after[w].cx as int, after[w].cy as int) == c2 && match None::<u32> {
                            Some(cc) => after[w].cls == cc,
                            None => true,
                        };
                    assert(w < k);
                    assert(after[w] == before[w]);
                }
            }
            assert forall|c: int, c2: int|
                0 <= c < nc && 0 <= c2 < 36 implies #[trigger] cls@[c * 36 + c2] == lands(after, c2, Some(c as u32)) by {
                assert(c * 36 + c2 == at <==> (c == g.cls && c2 == cell)) by (nonlinear_arith)
                    requires
                        at == g.cls * 36 + cell,
                        0 <= c2 < 36,
                        0 <= cell < 36,
                        0 <= c,
                        0 <= g.cls,
                ;
                if lands(before, c2, Some(c as u32)) {
                    let w = choose|w: int|
                        0 <= w < before.len() && cell_index(before[w].cx as int, before[w].cy as int) == c2 && match Some(c as u32) {
                            Some(cc) => before[w].cls == cc,
                            None => true,
                        };
                    assert(after[w] == before[w]);
                }
                if c == g.cls && c2 == cell {
                    assert(after[k as int] == g);
                }
                if lands(after, c2, Some(c as u32)) && !(c == g.cls && c2 == cell) {
                    let w = choose|w: int|
                        0 <= w < after.len() && cell_index(after[w].cx as int, after[w].cy as int) == c2 && match Some(c as u32) {
                            Some(cc) => after[w].cls == cc,
                            None => true,
                        };
                    assert(w < k);
                    assert(after[w] == before[w]);
                }
            }
        }
        k = k + 1;
    }
    proof {
        assert(boxes@.subrange(0, boxes.len() as int) =~= boxes@);
    }
    GridTargets { cells, obj, cls }
}

} // verus!
