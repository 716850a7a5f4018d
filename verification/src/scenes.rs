//! Layouts of the synthetic scenes: labelled rectangles of a segmentation
//! sample and their label mask, separated rectangles of an interactive
//! segmentation scene, and separated boxes of a detection scene.
use crate::lcg::lcg_step;
use crate::lcg_span::{span_value, Lcg};
use crate::shapes::{rects_mask, Rect, mask_from_rects};
use vstd::prelude::*;

verus! {

/// A rectangle `[x0, x0 + w) x [y0, y0 + h)` carrying a class label.
#[derive(Clone, Copy)]
pub struct LabeledRect {
    pub cls: u32,
    pub x0: i32,
    pub y0: i32,
    pub w: i32,
    pub h: i32,
}

/// Side of a segmentation sample.
pub const SEG_SIDE: usize = 28;

/// The labelled rectangle holds pixel `(x, y)`.
pub open spec fn holds(r: LabeledRect, x: int, y: int) -> bool {
    r.x0 <= x < r.x0 + r.w && r.y0 <= y < r.y0 + r.h
}

/// The label of pixel `(x, y)` after painting the first `k` rectangles in
/// order: the label of the last of them that holds it, 0 (background) if none.
pub open spec fn label_at(shapes: Seq<LabeledRect>, k: int, x: int, y: int) -> u32
    decreases k,
{
    if k <= 0 {
        0
    } else if holds(shapes[k - 1], x, y) {
        shapes[k - 1].cls
    } else {
        label_at(shapes, k - 1, x, y)
    }
}

/// Paints labelled rectangles in order on a 28 x 28 label mask, later ones
/// over earlier ones, background 0; parts off the grid are dropped.
pub fn paint_label_mask(shapes: &Vec<LabeledRect>) -> (mask: Vec<u32>)
    ensures
        mask@ == Seq::new(
            (SEG_SIDE * SEG_SIDE) as nat,
            |i: int| label_at(shapes@, shapes.len() as int, i % 28, i / 28),
        ),
{
    let mut mask: Vec<u32> = Vec::new();
    let mut i: usize = 0;
    while i < SEG_SIDE * SEG_SIDE
        invariant
            i <= SEG_SIDE * SEG_SIDE,
            mask.len() == i,
            forall|j: int|
                0 <= j < i ==> #[trigger] mask@[j] == label_at(shapes@, shapes.len() as int, j % 28, j / 28),
        decreases SEG_SIDE * SEG_SIDE - i,
    {
        let x = (i % SEG_SIDE) as i64;
        let y = (i / SEG_SIDE) as i64;
        let mut cur: u32 = 0;
        let mut k: usize = 0;
        while k < shapes.len()
            invariant
                k <= shapes.len(),
                x == i % 28,
                y == i / 28,
                cur == label_at(shapes@, k as int, x as int, y as int),
            decreases shapes.len() - k,
        {
            let r = shapes[k];
            if r.x0 as i64 <= x && x < r.x0 as i64 + r.w as i64 && r.y0 as i64 <= y && y < r.y0 as i64
                + r.h as i64 {
                cur = r.cls;
            }
            k = k + 1;
        }
        mask.push(cur);
        i = i + 1;
    }
    proof {
        assert(mask@ =~= Seq::new(
            (SEG_SIDE * SEG_SIDE) as nat,
            |i: int| label_at(shapes@, shapes.len() as int, i % 28, i / 28),
        ));
    }
    mask
}

/// A rectangle of a segmentation sample has the size of its class (vertical
/// bar 3..=5 by 12..=20, horizontal bar 12..=20 by 3..=5, square block 8..=12)
/// and keeps a one-pixel margin inside the 28 x 28 grid.
pub open spec fn seg_shape_ok(r: LabeledRect) -> bool {
    &&& 1 <= r.cls <= 3
    &&& r.cls == 1 ==> 3 <= r.w <= 5 && 12 <= r.h <= 20
    &&& r.cls == 2 ==> 12 <= r.w <= 20 && 3 <= r.h <= 5
    &&& r.cls == 3 ==> 8 <= r.w <= 12 && r.w == r.h
    &&& 1 <= r.x0 && r.x0 + r.w <= 26
    &&& 1 <= r.y0 && r.y0 + r.h <= 26
}

/// The labelled shape drawn from state `s`, and the state after it: the class
/// in `1..4`, the size of that class, then the corner.
pub open spec fn label_shape_draw(s: u64) -> (LabeledRect, u64) {
    let cls = span_value(s, 1, 4);
    let s1 = lcg_step(s);
    let w = if cls == 1 {
        span_value(s1, 3, 6)
    } else if cls == 2 {
        span_value(s1, 12, 21)
    } else {
        span_value(s1, 8, 13)
    };
    let s2 = lcg_step(s1);
    let h = if cls == 1 {
        span_value(s2, 12, 21)
    } else if cls == 2 {
        span_value(s2, 3, 6)
    } else {
        w
    };
    let s3 = if cls == 3 { s2 } else { lcg_step(s2) };
    let x0 = span_value(s3, 1, SEG_SIDE - w - 1);
    let s4 = lcg_step(s3);
    let y0 = span_value(s4, 1, SEG_SIDE - h - 1);
    (LabeledRect { cls: cls as u32, x0: x0 as i32, y0: y0 as i32, w: w as i32, h: h as i32 }, lcg_step(s4))
}

/// The shapes drawn from state `s` when `k` more are wanted, and the final state.
pub open spec fn label_shapes_loop(k: nat, s: u64) -> (Seq<LabeledRect>, u64)
    decreases k,
{
    if k == 0 {
        (Seq::empty(), s)
    } else {
        let (r, s1) = label_shape_draw(s);
        let (rest, s2) = label_shapes_loop((k - 1) as nat, s1);
        (seq![r] + rest, s2)
    }
}

/// The shapes of a segmentation sample drawn from state `s`, and the final
/// state: a count in `2..4`, then that many shapes.
pub open spec fn label_shapes_run(s: u64) -> (Seq<LabeledRect>, u64) {
    label_shapes_loop(span_value(s, 2, 4) as nat, lcg_step(s))
}

/// Draws the two or three labelled shapes of a segmentation sample.
pub fn sample_label_shapes(rng: &mut Lcg) -> (shapes: Vec<LabeledRect>)
    ensures
        (shapes@, final(rng).0) == label_shapes_run(old(rng).0),
        2 <= shapes.len() <= 3,
        forall|k: int| 0 <= k < shapes.len() ==> seg_shape_ok(#[trigger] shapes@[k]),
{
    let ghost s0 = rng.0;
    let n = rng.range(2, 4);
    let mut shapes: Vec<LabeledRect> = Vec::new();
    proof {
        assert(shapes@ + label_shapes_run(s0).0 =~= label_shapes_run(s0).0);
    }
    let mut tries: i32 = 0;
    while (shapes.len() as i32) < n && tries < 60
        invariant
            2 <= n <= 3,
            0 <= tries <= 60,
            shapes.len() == tries,
            shapes.len() <= n,
            forall|k: int| 0 <= k < shapes.len() ==> seg_shape_ok(#[trigger] shapes@[k]),
            ({
                let (rest, fin) = label_shapes_loop((n - shapes.len()) as nat, rng.0);
                shapes@ + rest == label_shapes_run(s0).0 && fin == label_shapes_run(s0).1
            }),
        decreases 60 - tries,
    {
        let ghost before = shapes@;
        let ghost st = rng.0;
        tries = tries + 1;
        let cls = rng.range(1, 4);
        let (w, h) = if cls == 1 {
            let w = rng.range(3, 6);
            let h = rng.range(12, 21);
            (w, h)
        } else if cls == 2 {
            let w = rng.range(12, 21);
            let h = rng.range(3, 6);
            (w, h)
        } else {
            let s = rng.range(8, 13);
            (s, s)
        };
        let x0 = rng.range(1, SEG_SIDE as i32 - w - 1);
        let y0 = rng.range(1, SEG_SIDE as i32 - h - 1);
        shapes.push(LabeledRect { cls: cls as u32, x0, y0, w, h });
        proof {
            let (r, s1) = label_shape_draw(st);
            assert(shapes@[shapes.len() - 1] == r);
            assert(rng.0 == s1);
            let (rest, fin) = label_shapes_loop((n - before.len()) as nat, st);
            let (rest2, fin2) = label_shapes_loop((n - shapes.len()) as nat, rng.0);
            assert(rest == seq![r] + rest2);
            assert(shapes@ + rest2 =~= before + rest);
        }
    }
    proof {
        let (rest, fin) = label_shapes_loop(0, rng.0);
        assert(shapes@ + rest =~= shapes@);
    }
    shapes
}

/// A rectangle `[x0, x1] x [y0, y1]` (inclusive) of an interactive
/// segmentation scene, its click point and its colour index.
#[derive(Clone, Copy)]
pub struct SceneObj {
    pub x0: i32,
    pub y0: i32,
    pub x1: i32,
    pub y1: i32,
    pub cx: i32,
    pub cy: i32,
    pub color: u32,
}

/// Two objects are at least two background pixels apart.
pub open spec fn apart(a: SceneObj, b: SceneObj) -> bool {
    !(b.x0 <= a.x1 + 2 && b.x1 >= a.x0 - 2 && b.y0 <= a.y1 + 2 && b.y1 >= a.y0 - 2)
}

/// Every two objects of the list are apart.
#[verifier::opaque]
pub open spec fn all_apart(s: Seq<SceneObj>) -> bool {
    forall|a: int, b: int| 0 <= a < b < s.len() ==> apart(s[a], s[b])
}

/// Every two boxes of the list are separated.
#[verifier::opaque]
pub open spec fn all_separated(s: Seq<GtBox>, sep: int) -> bool {
    forall|a: int, b: int| 0 <= a < b < s.len() ==> separated(s[a], s[b], sep)
}

/// An object of a 28 x 28 interactive scene: 6..=11 pixels on each side, one
/// pixel of margin, click point at its centre, one of four colours.
pub open spec fn scene_obj_ok(o: SceneObj) -> bool {
    &&& 1 <= o.x0 && o.x0 + 5 <= o.x1 && o.x1 <= o.x0 + 10 && o.x1 <= 25
    &&& 1 <= o.y0 && o.y0 + 5 <= o.y1 && o.y1 <= o.y0 + 10 && o.y1 <= 25
    &&& o.cx == (o.x0 + o.x1) / 2
    &&& o.cy == (o.y0 + o.y1) / 2
    &&& o.color < 4
}

/// The candidate rectangle keeps two pixels of background to every object.
fn clear_of(objs: &Vec<SceneObj>, x0: i32, y0: i32, x1: i32, y1: i32) -> (r: bool)
    requires
        forall|j: int| 0 <= j < objs.len() ==> scene_obj_ok(#[trigger] objs@[j]),
    ensures
        r == clear_of_all(objs@, x0, y0, x1, y1),
{
    let mut k: usize = 0;
    while k < objs.len()
        invariant
            k <= objs.len(),
            forall|j: int| 0 <= j < objs.len() ==> scene_obj_ok(#[trigger] objs@[j]),
            forall|j: int|
                0 <= j < k ==> apart(#[trigger] objs@[j], SceneObj { x0, y0, x1, y1, cx: 0, cy: 0, color: 0 }),
        decreases objs.len() - k,
    {
        let o = objs[k];
        if x0 <= o.x1 + 2 && x1 >= o.x0 - 2 && y0 <= o.y1 + 2 && y1 >= o.y0 - 2 {
            proof {
                assert(!apart(objs@[k as int], SceneObj { x0, y0, x1, y1, cx: 0, cy: 0, color: 0 }));
            }
            return false;
        }
        k = k + 1;
    }
    true
}

/// The candidate rectangle `[x0, x1] x [y0, y1]` is apart from every object.
pub open spec fn clear_of_all(objs: Seq<SceneObj>, x0: i32, y0: i32, x1: i32, y1: i32) -> bool {
    forall|j: int|
        0 <= j < objs.len() ==> apart(#[trigger] objs[j], SceneObj { x0, y0, x1, y1, cx: 0, cy: 0, color: 0 })
}

/// The candidate rectangle drawn from state `s` as `(x0, y0, x1, y1)`, and the
/// state after it: width and height in `6..12`, then the corner.
pub open spec fn obj_rect_draw(s: u64) -> (i32, i32, i32, i32, u64) {
    let w = span_value(s, 6, 12);
    let s1 = lcg_step(s);
    let h = span_value(s1, 6, 12);
    let s2 = lcg_step(s1);
    let x0 = span_value(s2, 1, 28 - w - 1);
    let s3 = lcg_step(s2);
    let y0 = span_value(s3, 1, 28 - h - 1);
    (x0 as i32, y0 as i32, (x0 + w - 1) as i32, (y0 + h - 1) as i32, lcg_step(s3))
}

/// The object of a placed rectangle: its centre and the colour drawn at `s`.
pub open spec fn finished_obj(s: u64, x0: i32, y0: i32, x1: i32, y1: i32) -> SceneObj {
    SceneObj { x0, y0, x1, y1, cx: ((x0 + x1) / 2) as i32, cy: ((y0 + y1) / 2) as i32, color: span_value(s, 0, 4) as u32 }
}

/// The rejection loop of an interactive scene from `objs` after `tries`
/// candidates at state `s`, aiming for `n` objects: the objects at the end
/// and the final state.
pub open spec fn objects_loop(n: int, objs: Seq<SceneObj>, tries: int, s: u64) -> (Seq<SceneObj>, u64)
    decreases 60 - tries,
{
    if objs.len() < n && tries < 60 {
        let (x0, y0, x1, y1, s1) = obj_rect_draw(s);
        if clear_of_all(objs, x0, y0, x1, y1) {
            objects_loop(n, objs.push(finished_obj(s1, x0, y0, x1, y1)), tries + 1, lcg_step(s1))
        } else {
            objects_loop(n, objs, tries + 1, s1)
        }
    } else {
        (objs, s)
    }
}

/// The objects of an interactive scene drawn from state `s`, and the final
/// state: a target count in `2..5`, then the rejection loop.
pub open spec fn objects_run(s: u64) -> (Seq<SceneObj>, u64) {
    objects_loop(span_value(s, 2, 5), Seq::empty(), 0, lcg_step(s))
}

proof fn lemma_push_apart(before: Seq<SceneObj>, o: SceneObj)
    requires
        all_apart(before),
        forall|j: int|
            0 <= j < before.len() ==> apart(#[trigger] before[j], SceneObj { x0: o.x0, y0: o.y0, x1: o.x1, y1: o.y1, cx: 0, cy: 0, color: 0 }),
    ensures
        all_apart(before.push(o)),
{
    reveal(all_apart);
    let after = before.push(o);
    assert forall|a: int, b: int| 0 <= a < b < after.len() implies apart(after[a], after[b]) by {
        if b == after.len() - 1 {
            assert(apart(before[a], SceneObj { x0: o.x0, y0: o.y0, x1: o.x1, y1: o.y1, cx: 0, cy: 0, color: 0 }));
        } else {
            assert(after[a] == before[a]);
            assert(after[b] == before[b]);
        }
    }
}

/// Draws the size and corner of a candidate object.
fn draw_obj_rect(rng: &mut Lcg) -> (r: (i32, i32, i32, i32))
    ensures
        1 <= r.0 && r.0 + 5 <= r.2 && r.2 <= r.0 + 10 && r.2 <= 25,
        1 <= r.1 && r.1 + 5 <= r.3 && r.3 <= r.1 + 10 && r.3 <= 25,
        (r.0, r.1, r.2, r.3, final(rng).0) == obj_rect_draw(old(rng).0),
{
    let w = rng.range(6, 12);
    let h = rng.range(6, 12);
    let x0 = rng.range(1, 28 - w - 1);
    let y0 = rng.range(1, 28 - h - 1);
    (x0, y0, x0 + w - 1, y0 + h - 1)
}

/// Gives a placed rectangle its centre and a drawn colour.
fn finish_obj(rng: &mut Lcg, x0: i32, y0: i32, x1: i32, y1: i32) -> (o: SceneObj)
    requires
        1 <= x0 && x0 + 5 <= x1 && x1 <= x0 + 10 && x1 <= 25,
        1 <= y0 && y0 + 5 <= y1 && y1 <= y0 + 10 && y1 <= 25,
    ensures
        scene_obj_ok(o),
        o == finished_obj(old(rng).0, x0, y0, x1, y1),
        final(rng).0 == lcg_step(old(rng).0),
{
    let color = rng.range(0, 4) as u32;
    SceneObj { x0, y0, x1, y1, cx: (x0 + x1) / 2, cy: (y0 + y1) / 2, color }
}

/// Places two to four objects on a 28 x 28 scene by rejection sampling:
/// a candidate too close to an earlier object is dropped.
pub fn place_objects(rng: &mut Lcg) -> (objs: Vec<SceneObj>)
    ensures
        (objs@, final(rng).0) == objects_run(old(rng).0),
        1 <= objs.len() <= 4,
        forall|k: int| 0 <= k < objs.len() ==> scene_obj_ok(#[trigger] objs@[k]),
        forall|a: int, b: int| 0 <= a < b < objs.len() ==> apart(objs@[a], objs@[b]),
{
    let ghost s0 = rng.0;
    let side = 28i32;
    let n = rng.range(2, 5);
    let mut objs: Vec<SceneObj> = Vec::new();
    proof {
        reveal(all_apart);
    }
    let mut tries: i32 = 0;
    while (objs.len() as i32) < n && tries < 60
        invariant
            2 <= n <= 4,
            0 <= tries <= 60,
            side == 28,
            objs.len() <= n,
            objs.len() <= tries,
            tries > 0 ==> objs.len() >= 1,
            forall|k: int| 0 <= k < objs.len() ==> scene_obj_ok(#[trigger] objs@[k]),
            all_apart(objs@),
            objects_loop(n as int, objs@, tries as int, rng.0) == objects_run(s0),
        decreases 60 - tries,
    {
        tries = tries + 1;
        let (x0, y0, x1, y1) = draw_obj_rect(rng);
        let overlap = !clear_of(&objs, x0, y0, x1, y1);
        if !overlap {
            let o = finish_obj(rng, x0, y0, x1, y1);
            let ghost before = objs@;
            objs.push(o);
            proof {
                lemma_push_apart(before, o);
            }
        }
    }
    proof {
        reveal(all_apart);
    }
    objs
}

/// A ground-truth box of a detection scene: class, integer centre, width and
/// height.
#[derive(Clone, Copy)]
pub struct GtBox {
    pub cls: u32,
    pub cx: i32,
    pub cy: i32,
    pub w: i32,
    pub h: i32,
}

/// How many boxes, of which sizes and how far apart a detection scene draws:
/// a target count in `[n_lo, n_hi)`, at most `max_tries` candidates, squares
/// of side `[sq_lo, sq_hi)`, bars of width `[bw_lo, bw_hi)` and height
/// `[bh_lo, bh_hi)`, centres at least `min_sep` apart along some axis.
#[derive(Clone, Copy)]
pub struct BoxSceneParams {
    pub n_lo: i32,
    pub n_hi: i32,
    pub max_tries: i32,
    pub sq_lo: i32,
    pub sq_hi: i32,
    pub bw_lo: i32,
    pub bw_hi: i32,
    pub bh_lo: i32,
    pub bh_hi: i32,
    pub min_sep: i32,
}

/// Side of a detection scene.
pub const DET_SIDE: i32 = 48;

/// The parameters describe boxes that fit the 48 x 48 scene.
pub open spec fn params_ok(p: BoxSceneParams) -> bool {
    &&& 1 <= p.n_lo < p.n_hi <= 100
    &&& 1 <= p.max_tries <= 10000
    &&& 1 <= p.sq_lo < p.sq_hi <= 40
    &&& 1 <= p.bw_lo < p.bw_hi <= 40
    &&& 1 <= p.bh_lo < p.bh_hi <= 40
    &&& 0 <= p.min_sep <= 48
}

/// The centres of two boxes are at least `sep` apart along some axis.
pub open spec fn separated(a: GtBox, b: GtBox, sep: int) -> bool {
    a.cx - b.cx >= sep || b.cx - a.cx >= sep || a.cy - b.cy >= sep || b.cy - a.cy >= sep
}

/// A box of the scene: class 0 is a square, class 1 a bar, with the drawn
/// sizes, and its centre leaves at least one pixel beyond the half sizes.
pub open spec fn gt_box_ok(p: BoxSceneParams, g: GtBox) -> bool {
    &&& g.cls < 2
    &&& g.cls == 0 ==> p.sq_lo <= g.w < p.sq_hi && g.h == g.w
    &&& g.cls == 1 ==> p.bw_lo <= g.w < p.bw_hi && p.bh_lo <= g.h < p.bh_hi
    &&& g.w / 2 + 1 <= g.cx < DET_SIDE - g.w / 2 - 1
    &&& g.h / 2 + 1 <= g.cy < DET_SIDE - g.h / 2 - 1
}

/// The candidate centre is at least `sep` from every box centre along some axis.
fn far_from(boxes: &Vec<GtBox>, cx: i32, cy: i32, sep: i32) -> (r: bool)
    requires
        forall|j: int| 0 <= j < boxes.len() ==> 0 <= #[trigger] boxes@[j].cx < DET_SIDE && 0 <= boxes@[j].cy < DET_SIDE,
        0 <= cx < DET_SIDE,
        0 <= cy < DET_SIDE,
    ensures
        r == far_from_all(boxes@, cx, cy, sep as int),
{
    let mut k: usize = 0;
    while k < boxes.len()
        invariant
            k <= boxes.len(),
            forall|j: int| 0 <= j < boxes.len() ==> 0 <= #[trigger] boxes@[j].cx < DET_SIDE && 0 <= boxes@[j].cy < DET_SIDE,
            0 <= cx < DET_SIDE,
            0 <= cy < DET_SIDE,
            forall|j: int|
                0 <= j < k ==> separated(#[trigger] boxes@[j], GtBox { cls: 0, cx, cy, w: 0, h: 0 }, sep as int),
        decreases boxes.len() - k,
    {
        let g = boxes[k];
        let dx = if g.cx > cx { g.cx - cx } else { cx - g.cx };
        let dy = if g.cy > cy { g.cy - cy } else { cy - g.cy };
        if dx < sep && dy < sep {
            proof {
                assert(!separated(boxes@[k as int], GtBox { cls: 0, cx, cy, w: 0, h: 0 }, sep as int));
            }
            return false;
        }
        k = k + 1;
    }
    true
}

/// The candidate centre `(cx, cy)` is at least `sep` from every box centre
/// along some axis.
pub open spec fn far_from_all(boxes: Seq<GtBox>, cx: i32, cy: i32, sep: int) -> bool {
    forall|j: int|
        0 <= j < boxes.len() ==> separated(
            #[trigger] boxes[j],
            GtBox { cls: 0, cx, cy, w: 0, h: 0 },
            sep,
        )
}

proof fn lemma_push_separated(before: Seq<GtBox>, g: GtBox, sep: int)
    requires
        all_separated(before, sep),
        forall|j: int|
            0 <= j < before.len() ==> separated(#[trigger] before[j], GtBox { cls: 0, cx: g.cx, cy: g.cy, w: 0, h: 0 }, sep),
    ensures
        all_separated(before.push(g), sep),
{
    reveal(all_separated);
    let after = before.push(g);
    assert forall|a: int, b: int| 0 <= a < b < after.len() implies separated(after[a], after[b], sep) by {
        if b == after.len() - 1 {
            assert(separated(before[a], GtBox { cls: 0, cx: g.cx, cy: g.cy, w: 0, h: 0 }, sep));
        } else {
            assert(after[a] == before[a]);
            assert(after[b] == before[b]);
        }
    }
}

/// The candidate box drawn from state `s`, and the state after it: the class
/// in `0..2`, a square side or a bar width and height, then the centre.
pub open spec fn box_draw(p: BoxSceneParams, s: u64) -> (GtBox, u64) {
    let s1 = lcg_step(s);
    let cls = span_value(s, 0, 2);
    let s2 = lcg_step(s1);
    let w = if cls == 0 { span_value(s1, p.sq_lo as int, p.sq_hi as int) } else { span_value(s1, p.bw_lo as int, p.bw_hi as int) };
    let s3 = if cls == 0 { s2 } else { lcg_step(s2) };
    let h = if cls == 0 { w } else { span_value(s2, p.bh_lo as int, p.bh_hi as int) };
    let cx = span_value(s3, w / 2 + 1, DET_SIDE - w / 2 - 1);
    let s4 = lcg_step(s3);
    let cy = span_value(s4, h / 2 + 1, DET_SIDE - h / 2 - 1);
    (GtBox { cls: cls as u32, cx: cx as i32, cy: cy as i32, w: w as i32, h: h as i32 }, lcg_step(s4))
}

/// Draws a candidate box: class, size of that class, centre.
fn draw_box(p: BoxSceneParams, rng: &mut Lcg) -> (g: GtBox)
    requires
        params_ok(p),
    ensures
        gt_box_ok(p, g),
        (g, final(rng).0) == box_draw(p, old(rng).0),
{
    let cls = rng.range(0, 2);
    let (w, h) = if cls == 0 {
        let s = rng.range(p.sq_lo, p.sq_hi);
        (s, s)
    } else {
        let w = rng.range(p.bw_lo, p.bw_hi);
        let h = rng.range(p.bh_lo, p.bh_hi);
        (w, h)
    };
    let hw = w / 2;
    let hh = h / 2;
    let cx = rng.range(hw + 1, DET_SIDE - hw - 1);
    let cy = rng.range(hh + 1, DET_SIDE - hh - 1);
    GtBox { cls: cls as u32, cx, cy, w, h }
}

/// The rejection loop of a detection scene from `boxes` after `tries`
/// candidates at state `s`, aiming for `n` boxes: the boxes at the end and the
/// final state.
pub open spec fn boxes_loop(p: BoxSceneParams, n: int, boxes: Seq<GtBox>, tries: int, s: u64) -> (Seq<GtBox>, u64)
    decreases p.max_tries - tries,
{
    if boxes.len() < n && tries < p.max_tries {
        let (g, s2) = box_draw(p, s);
        let next = if far_from_all(boxes, g.cx, g.cy, p.min_sep as int) { boxes.push(g) } else { boxes };
        boxes_loop(p, n, next, tries + 1, s2)
    } else {
        (boxes, s)
    }
}

/// The boxes of a detection scene drawn from state `s`, and the final state:
/// a target count in `[n_lo, n_hi)`, then the rejection loop.
pub open spec fn boxes_run(p: BoxSceneParams, s: u64) -> (Seq<GtBox>, u64) {
    boxes_loop(p, span_value(s, p.n_lo as int, p.n_hi as int), Seq::empty(), 0, lcg_step(s))
}

/// Places the boxes of a detection scene by rejection sampling: a candidate
/// whose centre is closer than `min_sep` to an earlier centre along both axes
/// is dropped.
pub fn place_boxes(p: BoxSceneParams, rng: &mut Lcg) -> (boxes: Vec<GtBox>)
    requires
        params_ok(p),
    ensures
        (boxes@, final(rng).0) == boxes_run(p, old(rng).0),
        1 <= boxes.len() < p.n_hi,
        forall|k: int| 0 <= k < boxes.len() ==> gt_box_ok(p, #[trigger] boxes@[k]),
        forall|a: int, b: int| 0 <= a < b < boxes.len() ==> separated(boxes@[a], boxes@[b], p.min_sep as int),
{
    let ghost s0 = rng.0;
    let n = rng.range(p.n_lo, p.n_hi);
    let mut boxes: Vec<GtBox> = Vec::new();
    proof {
        reveal(all_separated);
    }
    let mut tries: i32 = 0;
    while (boxes.len() as i32) < n && tries < p.max_tries
        invariant
            params_ok(p),
            p.n_lo <= n < p.n_hi,
            0 <= tries <= p.max_tries,
            boxes.len() <= n,
            boxes.len() <= tries,
            tries > 0 ==> boxes.len() >= 1,
            forall|k: int| 0 <= k < boxes.len() ==> gt_box_ok(p, #[trigger] boxes@[k]),
            all_separated(boxes@, p.min_sep as int),
            boxes_loop(p, n as int, boxes@, tries as int, rng.0) == boxes_run(p, s0),
        decreases p.max_tries - tries,
    {
        tries = tries + 1;
        let cand = draw_box(p, rng);
        let cx = cand.cx;
        let cy = cand.cy;
        let close = !far_from(&boxes, cx, cy, p.min_sep);
        if !close {
            let ghost before = boxes@;
            let g = cand;
            boxes.push(g);
            proof {
                lemma_push_separated(before, g, p.min_sep as int);
            }
        }
    }
    proof {
        reveal(all_separated);
    }
    boxes
}

/// The pixel rectangle a box is painted on: `w` by `h` pixels from
/// `(cx - w / 2, cy - h / 2)`.
pub open spec fn box_rect(g: GtBox) -> Rect {
    Rect {
        x0: (g.cx - g.w / 2) as usize,
        x1: (g.cx - g.w / 2 + g.w) as usize,
        y0: (g.cy - g.h / 2) as usize,
        y1: (g.cy - g.h / 2 + g.h) as usize,
    }
}

/// The 48 x 48 mask of the painted boxes of a scene.
pub fn paint_boxes(p: BoxSceneParams, boxes: &Vec<GtBox>) -> (m: Vec<u8>)
    requires
        params_ok(p),
        forall|k: int| 0 <= k < boxes.len() ==> gt_box_ok(p, #[trigger] boxes@[k]),
    ensures
        m@ == rects_mask(48, boxes@.map_values(|g: GtBox| box_rect(g))),
{
    let mut rects: Vec<Rect> = Vec::new();
    let mut k: usize = 0;
    while k < boxes.len()
        invariant
            k <= boxes.len(),
            params_ok(p),
            forall|j: int| 0 <= j < boxes.len() ==> gt_box_ok(p, #[trigger] boxes@[j]),
            rects@ == boxes@.subrange(0, k as int).map_values(|g: GtBox| box_rect(g)),
        decreases boxes.len() - k,
    {
        let g = boxes[k];
        let x0 = (g.cx - g.w / 2) as usize;
        let y0 = (g.cy - g.h / 2) as usize;
        rects.push(Rect { x0, x1: x0 + g.w as usize, y0, y1: y0 + g.h as usize });
        k = k + 1;
        proof {
            assert(rects@ =~= boxes@.subrange(0, k as int).map_values(|g: GtBox| box_rect(g)));
        }
    }
    proof {
        assert(boxes@.subrange(0, boxes.len() as int) =~= boxes@);
    }
    mask_from_rects(48, &rects)
}

/// An instance of a mask scene: class (0 disc, 1 diamond, 2 triangle),
/// integer centre and half extents.
#[derive(Clone, Copy)]
pub struct InstBox {
    pub cls: u32,
    pub cx: i32,
    pub cy: i32,
    pub hw: i32,
    pub hh: i32,
}

/// An instance lies on the 48 x 48 scene with a pixel of margin; discs and
/// diamonds have equal half extents in `5..9`, triangles half extents in `6..10`.
pub open spec fn inst_ok(g: InstBox) -> bool {
    &&& g.cls < 3
    &&& g.cls < 2 ==> 5 <= g.hw < 9 && g.hh == g.hw
    &&& g.cls == 2 ==> 6 <= g.hw < 10 && 6 <= g.hh < 10
    &&& g.hw + 1 <= g.cx < DET_SIDE - g.hw - 1
    &&& g.hh + 1 <= g.cy < DET_SIDE - g.hh - 1
}

/// The candidate instance drawn from state `s`, and the state after it.
pub open spec fn inst_draw(s: u64) -> (InstBox, u64) {
    let cls = span_value(s, 0, 3);
    let s1 = lcg_step(s);
    let hw = if cls < 2 { span_value(s1, 5, 9) } else { span_value(s1, 6, 10) };
    let s2 = lcg_step(s1);
    let hh = if cls < 2 { hw } else { span_value(s2, 6, 10) };
    let s3 = if cls < 2 { s2 } else { lcg_step(s2) };
    let cx = span_value(s3, hw + 1, DET_SIDE - hw - 1);
    let s4 = lcg_step(s3);
    let cy = span_value(s4, hh + 1, DET_SIDE - hh - 1);
    (InstBox { cls: cls as u32, cx: cx as i32, cy: cy as i32, hw: hw as i32, hh: hh as i32 }, lcg_step(s4))
}

/// The candidate centre is at least 16 pixels from every instance centre
/// along some axis.
pub open spec fn far_from_insts(insts: Seq<InstBox>, cx: i32, cy: i32) -> bool {
    forall|j: int|
        0 <= j < insts.len() ==> {
            let g = #[trigger] insts[j];
            g.cx - cx >= 16 || cx - g.cx >= 16 || g.cy - cy >= 16 || cy - g.cy >= 16
        }
}

/// The rejection loop of a mask scene from `insts` after `tries` candidates
/// at state `s`, aiming for `n` instances.
pub open spec fn instances_loop(n: int, insts: Seq<InstBox>, tries: int, s: u64) -> (Seq<InstBox>, u64)
    decreases 80 - tries,
{
    if insts.len() < n && tries < 80 {
        let (g, s2) = inst_draw(s);
        let next = if far_from_insts(insts, g.cx, g.cy) { insts.push(g) } else { insts };
        instances_loop(n, next, tries + 1, s2)
    } else {
        (insts, s)
    }
}

/// The instances of a mask scene drawn from state `s`, and the final state:
/// a target count in `2..5`, then the rejection loop.
pub open spec fn instances_run(s: u64) -> (Seq<InstBox>, u64) {
    instances_loop(span_value(s, 2, 5), Seq::empty(), 0, lcg_step(s))
}

fn draw_inst(rng: &mut Lcg) -> (g: InstBox)
    ensures
        inst_ok(g),
        (g, final(rng).0) == inst_draw(old(rng).0),
{
    let cls = rng.range(0, 3);
    let (hw, hh) = if cls < 2 {
        let r = rng.range(5, 9);
        (r, r)
    } else {
        let a = rng.range(6, 10);
        let b = rng.range(6, 10);
        (a, b)
    };
    let cx = rng.range(hw + 1, DET_SIDE - hw - 1);
    let cy = rng.range(hh + 1, DET_SIDE - hh - 1);
    InstBox { cls: cls as u32, cx, cy, hw, hh }
}

fn far_from_inst(insts: &Vec<InstBox>, cx: i32, cy: i32) -> (r: bool)
    requires
        forall|j: int| 0 <= j < insts.len() ==> inst_ok(#[trigger] insts@[j]),
        0 <= cx < DET_SIDE,
        0 <= cy < DET_SIDE,
    ensures
        r == far_from_insts(insts@, cx, cy),
{
    let mut k: usize = 0;
    while k < insts.len()
        invariant
            k <= insts.len(),
            forall|j: int| 0 <= j < insts.len() ==> inst_ok(#[trigger] insts@[j]),
            0 <= cx < DET_SIDE,
            0 <= cy < DET_SIDE,
            far_from_insts(insts@.subrange(0, k as int), cx, cy),
        decreases insts.len() - k,
    {
        let g = insts[k];
        let dx = if g.cx > cx { g.cx - cx } else { cx - g.cx };
        let dy = if g.cy > cy { g.cy - cy } else { cy - g.cy };
        if dx < 16 && dy < 16 {
            return false;
        }
        proof {
            assert forall|j: int| 0 <= j < k + 1 implies {
                let h = #[trigger] insts@.subrange(0, k as int + 1)[j];
                h.cx - cx >= 16 || cx - h.cx >= 16 || h.cy - cy >= 16 || cy - h.cy >= 16
            } by {
                if j < k {
                    assert(insts@.subrange(0, k as int + 1)[j] == insts@.subrange(0, k as int)[j]);
                }
            }
        }
        k = k + 1;
    }
    proof {
        assert(insts@.subrange(0, insts.len() as int) =~= insts@);
    }
    true
}

/// Places two to four instances of a mask scene by rejection sampling: a
/// candidate within 16 pixels of a placed centre along both axes is dropped.
pub fn place_instances(rng: &mut Lcg) -> (insts: Vec<InstBox>)
    ensures
        (insts@, final(rng).0) == instances_run(old(rng).0),
        1 <= insts.len() <= 4,
        forall|k: int| 0 <= k < insts.len() ==> inst_ok(#[trigger] insts@[k]),
        forall|b: int|
            0 <= b < insts.len() ==> far_from_insts(#[trigger] insts@.subrange(0, b), insts@[b].cx, insts@[b].cy),
{
    let ghost s0 = rng.0;
    let n = rng.range(2, 5);
    let mut insts: Vec<InstBox> = Vec::new();
    let mut tries: i32 = 0;
    while (insts.len() as i32) < n && tries < 80
        invariant
            2 <= n <= 4,
            0 <= tries <= 80,
            insts.len() <= n,
            insts.len() <= tries,
            tries > 0 ==> insts.len() >= 1,
            forall|k: int| 0 <= k < insts.len() ==> inst_ok(#[trigger] insts@[k]),
            forall|b: int|
                0 <= b < insts.len() ==> far_from_insts(#[trigger] insts@.subrange(0, b), insts@[b].cx, insts@[b].cy),
            instances_loop(n as int, insts@, tries as int, rng.0) == instances_run(s0),
        decreases 80 - tries,
    {
        tries = tries + 1;
        let g = draw_inst(rng);
        if far_from_inst(&insts, g.cx, g.cy) {
            let ghost before = insts@;
            insts.push(g);
            proof {
                assert forall|b: int| 0 <= b < insts.len() implies far_from_insts(
                    #[trigger] insts@.subrange(0, b),
                    insts@[b].cx,
                    insts@[b].cy,
                ) by {
                    if b < before.len() {
                        assert(insts@.subrange(0, b) =~= before.subrange(0, b));
                    } else {
                        assert(insts@.subrange(0, b) =~= before);
                    }
                }
            }
        }
    }
    insts
}

} // verus!
