//! Binary masks of the synthetic shapes the training sets are drawn from:
//! bars, blocks, diagonals, crosses and discs on a square grid. A mask holds
//! one byte per pixel, 1 on the shape and 0 elsewhere, in row-major order.
use crate::lcg::{lcg_step, Lcg};
use crate::metrics::{count_if, lemma_count_if_ext};
use crate::splitmix::{add64, mix64, Rng, GAMMA};
use vstd::prelude::*;

verus! {

/// A half-open pixel rectangle `[x0, x1) x [y0, y1)`.
#[derive(Clone, Copy)]
pub struct Rect {
    pub x0: usize,
    pub x1: usize,
    pub y0: usize,
    pub y1: usize,
}

/// The rectangle holds the pixel `(x, y)`.
pub open spec fn covers(r: Rect, x: int, y: int) -> bool {
    r.x0 <= x < r.x1 && r.y0 <= y < r.y1
}

/// Some rectangle of the list holds the pixel `(x, y)`.
pub open spec fn covered(rects: Seq<Rect>, x: int, y: int) -> bool {
    exists|k: int| 0 <= k < rects.len() && covers(#[trigger] rects[k], x, y)
}

/// The mask of a `side` x `side` grid on which exactly the pixels held by some
/// rectangle are set.
pub open spec fn rects_mask(side: nat, rects: Seq<Rect>) -> Seq<u8> {
    Seq::new(
        side * side,
        |i: int|
            if covered(rects, i % (side as int), i / (side as int)) {
                1u8
            } else {
                0u8
            },
    )
}

/// Paints the union of `rects` on a `side` x `side` grid.
pub fn mask_from_rects(side: usize, rects: &Vec<Rect>) -> (m: Vec<u8>)
    requires
        side < 0x1_0000,
    ensures
        m@ == rects_mask(side as nat, rects@),
{
    proof {
        assert(side * side <= 0xFFFF * 0xFFFF) by (nonlinear_arith)
            requires
                side < 0x1_0000,
        ;
    }
    let n = side * side;
    let mut m: Vec<u8> = Vec::new();
    let mut i: usize = 0;
    while i < n
        invariant
            i <= n,
            n == side * side,
            m.len() == i,
            forall|j: int|
                0 <= j < i ==> #[trigger] m@[j] == if covered(rects@, j % (side as int), j / (side as int)) {
                    1u8
                } else {
                    0u8
                },
        decreases n - i,
    {
        let x = i % side;
        let y = i / side;
        let mut hit = false;
        let mut k: usize = 0;
        while k < rects.len()
            invariant
                k <= rects.len(),
                x == i % side,
                y == i / side,
                hit == exists|k2: int| 0 <= k2 < k && covers(#[trigger] rects@[k2], x as int, y as int),
            decreases rects.len() - k,
        {
            let r = rects[k];
            if r.x0 <= x && x < r.x1 && r.y0 <= y && y < r.y1 {
                hit = true;
            }
            k = k + 1;
        }
        m.push(if hit { 1 } else { 0 });
        i = i + 1;
    }
    proof {
        assert(m@ =~= rects_mask(side as nat, rects@));
    }
    m
}

/// Where bars and blocks may fall on a grid: a bar of class 0 (vertical) or 1
/// (horizontal) has width `bar_width` and starts at `bar_offset` plus a draw
/// modulo `bar_span`; a block (any other class) has side `block_side` and
/// corners at `block_offset` plus two draws modulo `block_span`.
#[derive(Clone, Copy)]
pub struct ShapeLayout {
    pub side: usize,
    pub bar_offset: usize,
    pub bar_span: usize,
    pub bar_width: usize,
    pub block_offset: usize,
    pub block_span: usize,
    pub block_side: usize,
}

/// The layout keeps every shape on the grid.
pub open spec fn layout_ok(l: ShapeLayout) -> bool {
    &&& 0 < l.side < 0x1_0000
    &&& 0 < l.bar_span
    &&& 0 < l.block_span
    &&& l.bar_offset + l.bar_span - 1 + l.bar_width <= l.side
    &&& l.block_offset + l.block_span - 1 + l.block_side <= l.side
}

/// The rectangle of a shape of `class` drawn from generator state `s`.
pub open spec fn layout_rect(l: ShapeLayout, class: usize, s: u64) -> Rect {
    let a = lcg_step(s);
    let b = lcg_step(a);
    if class == 0 {
        let x0 = (l.bar_offset + (a as int) % (l.bar_span as int)) as usize;
        Rect { x0, x1: (x0 + l.bar_width) as usize, y0: 0, y1: l.side }
    } else if class == 1 {
        let y0 = (l.bar_offset + (a as int) % (l.bar_span as int)) as usize;
        Rect { x0: 0, x1: l.side, y0, y1: (y0 + l.bar_width) as usize }
    } else {
        let x0 = (l.block_offset + (a as int) % (l.block_span as int)) as usize;
        let y0 = (l.block_offset + (b as int) % (l.block_span as int)) as usize;
        Rect { x0, x1: (x0 + l.block_side) as usize, y0, y1: (y0 + l.block_side) as usize }
    }
}

/// The generator state after drawing a shape of `class` from state `s`.
pub open spec fn layout_state(class: usize, s: u64) -> u64 {
    if class <= 1 {
        lcg_step(s)
    } else {
        lcg_step(lcg_step(s))
    }
}

/// Draws the position of a bar or block of `class` and returns its mask.
pub fn shape_mask(l: ShapeLayout, class: usize, rng: &mut Lcg) -> (m: Vec<u8>)
    requires
        layout_ok(l),
    ensures
        m@ == rects_mask(l.side as nat, seq![layout_rect(l, class, old(rng).0)]),
        final(rng).0 == layout_state(class, old(rng).0),
{
    let ghost s = rng.0;
    let r = if class == 0 {
        let x0 = l.bar_offset + rng.range(l.bar_span);
        Rect { x0, x1: x0 + l.bar_width, y0: 0, y1: l.side }
    } else if class == 1 {
        let y0 = l.bar_offset + rng.range(l.bar_span);
        Rect { x0: 0, x1: l.side, y0, y1: y0 + l.bar_width }
    } else {
        let x0 = l.block_offset + rng.range(l.block_span);
        let y0 = l.block_offset + rng.range(l.block_span);
        Rect { x0, x1: x0 + l.block_side, y0, y1: y0 + l.block_side }
    };
    let mut rects: Vec<Rect> = Vec::new();
    rects.push(r);
    proof {
        assert(rects@ =~= seq![layout_rect(l, class, s)]);
    }
    mask_from_rects(l.side, &rects)
}

/// The 28 x 28 layout of the classification sets: bars of width 3 starting at
/// 4..=21, blocks of side 8 with corners at 3..=16.
pub open spec fn classify_layout() -> ShapeLayout {
    ShapeLayout {
        side: 28,
        bar_offset: 4,
        bar_span: 18,
        bar_width: 3,
        block_offset: 3,
        block_span: 14,
        block_side: 8,
    }
}

/// A vertical bar (class 0), horizontal bar (class 1) or block (otherwise)
/// on a 28 x 28 grid, placed by `rng`.
pub fn draw_mask(class: usize, rng: &mut Lcg) -> (m: Vec<u8>)
    ensures
        m@ == rects_mask(28, seq![layout_rect(classify_layout(), class, old(rng).0)]),
        final(rng).0 == layout_state(class, old(rng).0),
{
    let l = ShapeLayout {
        side: 28,
        bar_offset: 4,
        bar_span: 18,
        bar_width: 3,
        block_offset: 3,
        block_span: 14,
        block_side: 8,
    };
    shape_mask(l, class, rng)
}

/// The 16 x 16 layout of the autoencoder sets: bars of width 3 starting at
/// 3..=11, blocks of side 6 with corners at 2..=8.
pub open spec fn autoencoder_layout() -> ShapeLayout {
    ShapeLayout {
        side: 16,
        bar_offset: 3,
        bar_span: 9,
        bar_width: 3,
        block_offset: 2,
        block_span: 7,
        block_side: 6,
    }
}

/// A vertical bar, horizontal bar or block on a 16 x 16 grid, placed by `rng`.
pub fn draw_shape_mask(class: usize, rng: &mut Lcg) -> (m: Vec<u8>)
    ensures
        m@ == rects_mask(16, seq![layout_rect(autoencoder_layout(), class, old(rng).0)]),
        final(rng).0 == layout_state(class, old(rng).0),
{
    let l = ShapeLayout {
        side: 16,
        bar_offset: 3,
        bar_span: 9,
        bar_width: 3,
        block_offset: 2,
        block_span: 7,
        block_side: 6,
    };
    shape_mask(l, class, rng)
}

/// The 16 x 16 layout of the image-text sets: bars of width 4 starting at
/// 0..=11, blocks of side 8 with corners at 0..=7.
pub open spec fn caption_layout() -> ShapeLayout {
    ShapeLayout {
        side: 16,
        bar_offset: 0,
        bar_span: 12,
        bar_width: 4,
        block_offset: 0,
        block_span: 8,
        block_side: 8,
    }
}

/// The shape part of a captioned image: a bar or block on a 16 x 16 grid.
pub fn caption_shape_mask(shape: usize, rng: &mut Lcg) -> (m: Vec<u8>)
    ensures
        m@ == rects_mask(16, seq![layout_rect(caption_layout(), shape, old(rng).0)]),
        final(rng).0 == layout_state(shape, old(rng).0),
{
    let l = ShapeLayout {
        side: 16,
        bar_offset: 0,
        bar_span: 12,
        bar_width: 4,
        block_offset: 0,
        block_span: 8,
        block_side: 8,
    };
    shape_mask(l, shape, rng)
}

/// The shape of a preview picture of `class` on a `side` x `side` grid: a
/// vertical bar of width `side / 9` from column `4 side / 10` (class 0), the
/// same bar lying down (class 1), or the centred block from `side / 4` to
/// `3 side / 4` (otherwise).
pub open spec fn preview_rect(class: usize, side: usize) -> Rect {
    let o = side * 4 / 10;
    let w = side / 9;
    if class == 0 {
        Rect { x0: o as usize, x1: (o + w) as usize, y0: 0, y1: side }
    } else if class == 1 {
        Rect { x0: 0, x1: side, y0: o as usize, y1: (o + w) as usize }
    } else {
        Rect { x0: side / 4, x1: (side * 3 / 4) as usize, y0: side / 4, y1: (side * 3 / 4) as usize }
    }
}

/// The mask of the preview picture of `class`.
pub fn preview_mask(class: usize, side: usize) -> (m: Vec<u8>)
    requires
        side < 0x1_0000,
    ensures
        m@ == rects_mask(side as nat, seq![preview_rect(class, side)]),
{
    let o = side * 4 / 10;
    let w = side / 9;
    let r = if class == 0 {
        Rect { x0: o, x1: o + w, y0: 0, y1: side }
    } else if class == 1 {
        Rect { x0: 0, x1: side, y0: o, y1: o + w }
    } else {
        Rect { x0: side / 4, x1: side * 3 / 4, y0: side / 4, y1: side * 3 / 4 }
    };
    let mut rects: Vec<Rect> = Vec::new();
    rects.push(r);
    proof {
        assert(rects@ =~= seq![preview_rect(class, side)]);
    }
    mask_from_rects(side, &rects)
}

/// The second shape family on a 28 x 28 grid: a falling diagonal two pixels
/// wide (class 0), a rising diagonal two pixels wide (class 1), a cross of
/// three-pixel bars through the centre (class 2), a disc of radius 6 about the
/// centre (otherwise).
pub open spec fn pattern_b(class: usize, x: int, y: int) -> bool {
    if class == 0 {
        x == y || x == y + 1
    } else if class == 1 {
        x + y == 27 || x + y == 26
    } else if class == 2 {
        (13 <= x <= 15) || (13 <= y <= 15)
    } else {
        (x - 14) * (x - 14) + (y - 14) * (y - 14) <= 36
    }
}

/// The mask of a shape of the second family.
pub fn draw_b_mask(class: usize) -> (m: Vec<u8>)
    ensures
        m@ == Seq::new(784, |i: int| if pattern_b(class, i % 28, i / 28) { 1u8 } else { 0u8 }),
{
    let mut m: Vec<u8> = Vec::new();
    let mut i: usize = 0;
    while i < 784
        invariant
            i <= 784,
            m.len() == i,
            forall|j: int| 0 <= j < i ==> #[trigger] m@[j] == if pattern_b(class, j % 28, j / 28) {
                1u8
            } else {
                0u8
            },
        decreases 784 - i,
    {
        let x = i % 28;
        let y = i / 28;
        let on = if class == 0 {
            x == y || x == y + 1
        } else if class == 1 {
            x + y == 27 || x + y == 26
        } else if class == 2 {
            (13 <= x && x <= 15) || (13 <= y && y <= 15)
        } else {
            let dx = x as i32 - 14;
            let dy = y as i32 - 14;
            proof {
                assert(0 <= dx * dx <= 196 && 0 <= dy * dy <= 196) by (nonlinear_arith)
                    requires
                        -14 <= dx <= 13,
                        -14 <= dy <= 13,
                ;
            }
            dx * dx + dy * dy <= 36
        };
        m.push(if on { 1 } else { 0 });
        i = i + 1;
    }
    proof {
        assert(m@ =~= Seq::new(784, |i: int| if pattern_b(class, i % 28, i / 28) { 1u8 } else { 0u8 }));
    }
    m
}

/// Column (modes 0..3) or row (modes 3..6) where the bar of a mode starts.
pub open spec fn mode_pos(m: usize) -> usize {
    let k = if m < 3 { m } else { (m - 3) as usize };
    if k == 0 {
        2
    } else if k == 1 {
        7
    } else {
        12
    }
}

/// The bar of a mode on a 16 x 16 grid, three pixels wide, cut at the border.
pub open spec fn mode_rect(m: usize) -> Rect {
    let p = mode_pos(m);
    let e = if p + 3 < 16 { (p + 3) as usize } else { 16usize };
    if m < 3 {
        Rect { x0: p, x1: e, y0: 0, y1: 16 }
    } else {
        Rect { x0: 0, x1: 16, y0: p, y1: e }
    }
}

/// The clean template of one of the six modes: vertical bars at columns 2, 7,
/// 12 and horizontal bars at rows 2, 7, 12.
pub fn mode_mask(m: usize) -> (r: Vec<u8>)
    requires
        m < 6,
    ensures
        r@ == rects_mask(16, seq![mode_rect(m)]),
{
    let k = if m < 3 { m } else { m - 3 };
    let p: usize = if k == 0 {
        2
    } else if k == 1 {
        7
    } else {
        12
    };
    let e = if p + 3 < 16 { p + 3 } else { 16 };
    let rect = if m < 3 {
        Rect { x0: p, x1: e, y0: 0, y1: 16 }
    } else {
        Rect { x0: 0, x1: 16, y0: p, y1: e }
    };
    let mut rects: Vec<Rect> = Vec::new();
    rects.push(rect);
    proof {
        assert(rects@ =~= seq![mode_rect(m)]);
    }
    mask_from_rects(16, &rects)
}

/// Labels of a balanced set laid out class after class, `per_class` rounds of
/// `0, 1, ..., nc - 1`.
pub fn dataset_labels(per_class: usize, nc: usize) -> (ys: Vec<u32>)
    requires
        per_class * nc <= usize::MAX,
        nc <= u32::MAX,
    ensures
        ys.len() == per_class * nc,
        forall|i: int| 0 <= i < ys.len() ==> #[trigger] ys@[i] == i % (nc as int),
{
    let mut ys: Vec<u32> = Vec::new();
    let mut k: usize = 0;
    while k < per_class
        invariant
            k <= per_class,
            per_class * nc <= usize::MAX,
            nc <= u32::MAX,
            ys.len() == k * nc,
            forall|i: int| 0 <= i < ys.len() ==> #[trigger] ys@[i] == i % (nc as int),
        decreases per_class - k,
    {
        proof {
            assert((k + 1) * nc <= per_class * nc) by (nonlinear_arith)
                requires
                    k < per_class,
            ;
            assert((k + 1) * nc == k * nc + nc) by (nonlinear_arith);
        }
        let mut c: usize = 0;
        while c < nc
            invariant
                c <= nc,
                nc <= u32::MAX,
                k * nc + nc <= usize::MAX,
                ys.len() == k * nc + c,
                forall|i: int| 0 <= i < ys.len() ==> #[trigger] ys@[i] == i % (nc as int),
            decreases nc - c,
        {
            proof {
                vstd::arithmetic::div_mod::lemma_mod_multiples_vanish(k as int, c as int, nc as int);
                vstd::arithmetic::div_mod::lemma_small_mod(c as nat, nc as nat);
                assert((k * nc + c) as int == nc * k + c) by (nonlinear_arith);
            }
            ys.push(c as u32);
            c = c + 1;
        }
        k = k + 1;
    }
    ys
}

/// A 16 x 16 multi-label sample: which of the three independent attributes
/// it shows, and the mask of their union.
pub struct MultiLabelSample {
    pub hbar: bool,
    pub vbar: bool,
    pub block: bool,
    pub mask: Vec<u8>,
}

/// The counter after one draw.
pub open spec fn sm_next(s: u64) -> u64 {
    add64(s, GAMMA)
}

/// A coin that shows heads with probability `2^-e` over 24 high bits: the
/// top 24 bits of the output, as a fraction of `2^24`, fall below `2^-e`.
pub open spec fn coin(out: u64, e: nat) -> bool {
    ((out / 0x100_0000_0000) as int) * (if e == 1 { 2int } else { 4int }) < 0x100_0000
}

/// The attributes, the rectangles drawn for them and the final counter of a
/// multi-label sample drawn from counter `s`.
pub open spec fn multilabel_spec(s: u64) -> (bool, bool, bool, Seq<Rect>, u64) {
    let h = coin(mix64(sm_next(s)), 1);
    let v = coin(mix64(sm_next(sm_next(s))), 1);
    let b = coin(mix64(sm_next(sm_next(sm_next(s)))), 2);
    let t0 = sm_next(sm_next(sm_next(s)));
    let t1 = if h { sm_next(t0) } else { t0 };
    let r = (2 + ((mix64(t1) as usize) as int) % 11) as usize;
    let rh = if h { seq![Rect { x0: 0, x1: 16, y0: r, y1: (r + 2) as usize }] } else { Seq::<Rect>::empty() };
    let t2 = if v { sm_next(t1) } else { t1 };
    let c = (2 + ((mix64(t2) as usize) as int) % 11) as usize;
    let rv = if v { seq![Rect { x0: c, x1: (c + 2) as usize, y0: 0, y1: 16 }] } else { Seq::<Rect>::empty() };
    let t3 = if b { sm_next(t2) } else { t2 };
    let by = ((mix64(t3) as usize) as int % 12) as usize;
    let t4 = if b { sm_next(t3) } else { t3 };
    let bx = ((mix64(t4) as usize) as int % 12) as usize;
    let rb = if b { seq![Rect { x0: bx, x1: (bx + 4) as usize, y0: by, y1: (by + 4) as usize }] } else { Seq::<Rect>::empty() };
    (h, v, b, rh + rv + rb, t4)
}

/// Draws the attributes of a multi-label sample (horizontal bar and vertical
/// bar each with probability 1/2, block with probability 1/4) and where they
/// lie, and returns them with the mask of their union.
pub fn multilabel_layout(rng: &mut Rng) -> (r: MultiLabelSample)
    ensures
        r.hbar == multilabel_spec(old(rng).state).0,
        r.vbar == multilabel_spec(old(rng).state).1,
        r.block == multilabel_spec(old(rng).state).2,
        r.mask@ == rects_mask(16, multilabel_spec(old(rng).state).3),
        final(rng).state == multilabel_spec(old(rng).state).4,
{
    let ghost s = rng.state;
    let o1 = rng.next_u64();
    assert(rng.state == sm_next(s));
    let hbar = (o1 >> 40) < 0x80_0000;
    let o2 = rng.next_u64();
    assert(rng.state == sm_next(sm_next(s)));
    let vbar = (o2 >> 40) < 0x80_0000;
    let o3 = rng.next_u64();
    assert(rng.state == sm_next(sm_next(sm_next(s))));
    let block = (o3 >> 40) < 0x40_0000;
    proof {
        assert(o1 >> 40u64 == o1 / 0x100_0000_0000) by (bit_vector);
        assert(o2 >> 40u64 == o2 / 0x100_0000_0000) by (bit_vector);
        assert(o3 >> 40u64 == o3 / 0x100_0000_0000) by (bit_vector);
    }
    let ghost spec = multilabel_spec(s);
    let ghost t0 = rng.state;
    let mut rects: Vec<Rect> = Vec::new();
    if hbar {
        let r = rng.range(2, 13);
        assert(rng.state == sm_next(t0));
        rects.push(Rect { x0: 0, x1: 16, y0: r, y1: r + 2 });
    }
    let ghost t1 = rng.state;
    if vbar {
        let c = rng.range(2, 13);
        assert(rng.state == sm_next(t1));
        rects.push(Rect { x0: c, x1: c + 2, y0: 0, y1: 16 });
    }
    let ghost t2 = rng.state;
    if block {
        let by = rng.range(0, 12);
        assert(rng.state == sm_next(t2));
        let bx = rng.range(0, 12);
        rects.push(Rect { x0: bx, x1: bx + 4, y0: by, y1: by + 4 });
    }
    proof {
        assert(spec.0 == hbar);
        assert(spec.1 == vbar);
        assert(spec.2 == block);
        assert(rects@ =~= spec.3);
    }
    let mask = mask_from_rects(16, &rects);
    MultiLabelSample { hbar, vbar, block, mask }
}

/// Labels of a set laid out class by class: `per` samples of class 0, then
/// `per` of class 1, and so on up to class `nc - 1`.
pub fn block_labels(nc: u32, per: usize) -> (ys: Vec<u32>)
    requires
        nc * per <= usize::MAX,
    ensures
        ys.len() == nc * per,
        forall|i: int| 0 <= i < ys.len() ==> #[trigger] ys@[i] == i / (per as int),
{
    let mut ys: Vec<u32> = Vec::new();
    let mut c: u32 = 0;
    while c < nc
        invariant
            c <= nc,
            nc * per <= usize::MAX,
            ys.len() == c * per,
            forall|i: int| 0 <= i < ys.len() ==> #[trigger] ys@[i] == i / (per as int),
        decreases nc - c,
    {
        proof {
            assert((c + 1) * per <= nc * per) by (nonlinear_arith)
                requires
                    c < nc,
            ;
            assert((c + 1) * per == c * per + per) by (nonlinear_arith);
        }
        let mut k: usize = 0;
        while k < per
            invariant
                k <= per,
                c < nc,
                c * per + per <= usize::MAX,
                ys.len() == c * per + k,
                forall|i: int| 0 <= i < ys.len() ==> #[trigger] ys@[i] == i / (per as int),
            decreases per - k,
        {
            proof {
                vstd::arithmetic::div_mod::lemma_fundamental_div_mod_converse(
                    (c * per + k) as int,
                    per as int,
                    c as int,
                    k as int,
                );
            }
            ys.push(c);
            k = k + 1;
        }
        c = c + 1;
    }
    ys
}

/// The pool indices that the next `k` draws of a GAN batch pick from a pool
/// of `n_pool` samples at state `s`, and the state after them.
pub open spec fn pool_draws(n_pool: nat, k: nat, s: u64) -> (Seq<usize>, u64)
    decreases k,
{
    if k == 0 {
        (Seq::empty(), s)
    } else {
        let st = lcg_step(s);
        let (rest, fin) = pool_draws(n_pool, (k - 1) as nat, st);
        (seq![((st as int) % (n_pool as int)) as usize] + rest, fin)
    }
}

/// Draws a batch of real samples from a pool laid out mode after mode,
/// `0, 1, ..., n_modes - 1, 0, 1, ...`: the drawn pool indices and the mode of
/// each.
pub fn pool_batch(n_pool: usize, batch: usize, n_modes: usize, rng: &mut Lcg) -> (r: (Vec<usize>, Vec<usize>))
    requires
        n_pool > 0,
        n_modes > 0,
    ensures
        (r.0@, final(rng).0) == pool_draws(n_pool as nat, batch as nat, old(rng).0),
        r.1.len() == batch,
        forall|k: int| 0 <= k < batch ==> #[trigger] r.1@[k] == r.0@[k] % n_modes,
        forall|k: int| 0 <= k < batch ==> #[trigger] r.0@[k] < n_pool,
{
    let ghost s0 = rng.0;
    let mut idx: Vec<usize> = Vec::new();
    let mut modes: Vec<usize> = Vec::new();
    let mut k: usize = 0;
    proof {
        assert(idx@ + pool_draws(n_pool as nat, batch as nat, s0).0 =~= pool_draws(n_pool as nat, batch as nat, s0).0);
    }
    while k < batch
        invariant
            k <= batch,
            n_pool > 0,
            n_modes > 0,
            idx.len() == k,
            modes.len() == k,
            forall|j: int| 0 <= j < k ==> #[trigger] modes@[j] == idx@[j] % n_modes,
            forall|j: int| 0 <= j < k ==> #[trigger] idx@[j] < n_pool,
            ({
                let (rest, fin) = pool_draws(n_pool as nat, (batch - k) as nat, rng.0);
                idx@ + rest == pool_draws(n_pool as nat, batch as nat, s0).0 && fin == pool_draws(
                    n_pool as nat,
                    batch as nat,
                    s0,
                ).1
            }),
        decreases batch - k,
    {
        let ghost before = idx@;
        let ghost st = rng.0;
        let i = rng.range(n_pool);
        idx.push(i);
        modes.push(i % n_modes);
        proof {
            let (rest, fin) = pool_draws(n_pool as nat, (batch - k) as nat, st);
            let (rest2, fin2) = pool_draws(n_pool as nat, (batch - k - 1) as nat, rng.0);
            assert(rest == seq![i] + rest2);
            assert(idx@ + rest2 =~= before + rest);
        }
        k = k + 1;
    }
    proof {
        let (rest, fin) = pool_draws(n_pool as nat, 0, rng.0);
        assert(idx@ + rest =~= idx@);
    }
    (idx, modes)
}

/// Whether position `i` of a set laid out round after round has class `c`.
pub open spec fn round_is(nc: int, c: int) -> spec_fn(int) -> bool {
    |i: int| i % nc == c
}

/// Whether position `i` of a set laid out block after block has class `c`.
pub open spec fn block_is(per: int, c: int) -> spec_fn(int) -> bool {
    |i: int| i / per == c
}

/// Counting the labels `i % nc` equal to `c` over `per` full rounds and `k`
/// more positions.
proof fn lemma_rounds_count(per: nat, nc: nat, c: nat, k: nat)
    requires
        c < nc,
        k <= nc,
    ensures
        count_if((per * nc + k) as int, round_is(nc as int, c as int)) == per + if k > c {
            1nat
        } else {
            0nat
        },
    decreases per, k,
{
    if k == 0 {
        if per > 0 {
            lemma_rounds_count((per - 1) as nat, nc, c, nc);
            assert(((per - 1) as nat) * nc + nc == per * nc) by (nonlinear_arith)
                requires
                    per > 0,
            ;
            assert(count_if((per * nc + k) as int, round_is(nc as int, c as int)) == per);
        } else {
            assert(per * nc == 0) by (nonlinear_arith)
                requires
                    per == 0,
            ;
        }
    } else {
        let n = (per * nc + k - 1) as int;
        lemma_rounds_count(per, nc, c, (k - 1) as nat);
        vstd::arithmetic::div_mod::lemma_fundamental_div_mod_converse(n, nc as int, per as int, (k - 1) as int);
        assert(n % (nc as int) == k - 1);
        assert((per * nc + k) as int == n + 1);
        assert(count_if(n + 1, round_is(nc as int, c as int)) == count_if(n, round_is(nc as int, c as int)) + if n % (nc as int) == c {
            1nat
        } else {
            0nat
        });
        assert(count_if(n, round_is(nc as int, c as int)) == per + if k - 1 > c { 1nat } else { 0nat });
    }
}

/// A set laid out round after round is balanced: each class `c < nc` gets
/// exactly `per_class` of the `per_class * nc` labels `i % nc`.
pub proof fn law_dataset_labels_balanced(per_class: nat, nc: nat, c: nat)
    requires
        c < nc,
    ensures
        count_if((per_class * nc) as int, round_is(nc as int, c as int)) == per_class,
{
    lemma_rounds_count(per_class, nc, c, 0);
}

/// Counting the labels `i / per` equal to `c` over the first `c2` blocks and
/// `k` more positions.
proof fn lemma_blocks_count(per: nat, c: nat, c2: nat, k: nat)
    requires
        per > 0,
        k <= per,
    ensures
        count_if((c2 * per + k) as int, block_is(per as int, c as int)) == if c < c2 {
            per
        } else if c == c2 {
            k
        } else {
            0
        },
    decreases c2, k,
{
    if k == 0 {
        if c2 > 0 {
            lemma_blocks_count(per, c, (c2 - 1) as nat, per);
            assert(((c2 - 1) as nat) * per + per == c2 * per) by (nonlinear_arith)
                requires
                    c2 > 0,
            ;
            assert(count_if((c2 * per + k) as int, block_is(per as int, c as int)) == if c < c2 {
                per
            } else if c == c2 {
                k
            } else {
                0
            });
        } else {
            assert(c2 * per == 0) by (nonlinear_arith)
                requires
                    c2 == 0,
            ;
        }
    } else {
        let n = (c2 * per + k - 1) as int;
        lemma_blocks_count(per, c, c2, (k - 1) as nat);
        vstd::arithmetic::div_mod::lemma_fundamental_div_mod_converse(n, per as int, c2 as int, (k - 1) as int);
        assert(n / (per as int) == c2);
        assert((c2 * per + k) as int == n + 1);
        assert(count_if(n + 1, block_is(per as int, c as int)) == count_if(n, block_is(per as int, c as int)) + if n / (per as int) == c {
            1nat
        } else {
            0nat
        });
        assert(count_if(n, block_is(per as int, c as int)) == if c < c2 { per } else if c == c2 { (k - 1) as nat } else { 0 });
    }
}

/// A set laid out class by class is balanced: each class `c < nc` gets
/// exactly `per` of the `nc * per` labels `i / per`.
pub proof fn law_block_labels_balanced(nc: nat, per: nat, c: nat)
    requires
        c < nc,
        per > 0,
    ensures
        count_if((nc * per) as int, block_is(per as int, c as int)) == per,
{
    lemma_blocks_count(per, c, nc, 0);
    assert(nc * per + 0 == nc * per);
}

/// Pixel `i` of a 28 x 28 grid is on the rising diagonal of the second family.
pub open spec fn rising_at() -> spec_fn(int) -> bool {
    |i: int| pattern_b(1, i % 28, i / 28)
}

/// Rising-diagonal pixels among the first `n` of the grid: two per full row,
/// plus those of the current row left of column `n % 28`.
spec fn rising_upto(n: int) -> int {
    let y = n / 28;
    let x = n % 28;
    2 * y + (if 0 <= 26 - y && 26 - y < x { 1int } else { 0int }) + (if 27 - y < x { 1int } else { 0int })
}

proof fn lemma_rising_count(n: int)
    requires
        0 <= n <= 783,
    ensures
        count_if(n, rising_at()) == rising_upto(n),
    decreases n,
{
    if n > 0 {
        let m = n - 1;
        lemma_rising_count(m);
        let y = m / 28;
        let x = m % 28;
        assert(m == 28 * y + x && 0 <= x < 28);
        if x < 27 {
            assert(n / 28 == y && n % 28 == x + 1) by (nonlinear_arith)
                requires
                    n == 28 * y + x + 1,
                    0 <= x < 27,
            ;
        } else {
            assert(n / 28 == y + 1 && n % 28 == 0) by (nonlinear_arith)
                requires
                    n == 28 * y + 28,
            ;
        }
        assert(rising_at()(m) == (x + y == 27 || x + y == 26));
    }
}

/// The rising diagonal of the second family is the falling diagonal mirrored
/// left to right; no row holds more than two of its pixels; and it has
/// exactly 28 + 27 = 55 pixels.
pub proof fn law_rising_diagonal_shape(x: int, y: int, x1: int, x2: int, x3: int)
    ensures
        0 <= x < 28 && 0 <= y < 28 ==> pattern_b(1, x, y) == pattern_b(0, 27 - x, y),
        0 <= y < 28 && 0 <= x1 < x2 < x3 < 28 ==> !(pattern_b(1, x1, y) && pattern_b(1, x2, y) && pattern_b(
            1,
            x3,
            y,
        )),
        count_if(784, |i: int| pattern_b(1, i % 28, i / 28)) == 55,
{
    lemma_rising_count(783);
    assert(783int / 28 == 27 && 783int % 28 == 27);
    assert(!rising_at()(783));
    assert(count_if(784, rising_at()) == 55);
    lemma_count_if_ext(784, rising_at(), |i: int| pattern_b(1, i % 28, i / 28));
}

/// Pixel `(x, y)` of the mask of one rectangle `r` on a `side` x `side` grid is
/// set exactly when `r` holds it.
proof fn lemma_one_rect_pixel(side: nat, r: Rect, x: int, y: int)
    requires
        side > 0,
        0 <= x < side,
        0 <= y < side,
    ensures
        rects_mask(side, seq![r]).len() == side * side,
        (rects_mask(side, seq![r])[y * side + x] == 1) == (r.x0 <= x < r.x1 && r.y0 <= y < r.y1),
{
    let i = y * side + x;
    vstd::arithmetic::div_mod::lemma_fundamental_div_mod_converse(i, side as int, y, x);
    assert(0 <= i < side * side) by (nonlinear_arith)
        requires
            i == y * side + x,
            0 <= x < side,
            0 <= y < side,
    ;
    let rs = seq![r];
    if covers(r, x, y) {
        assert(covers(rs[0], x, y));
    }
}

/// The `n` x `n` mask `m` is exactly the columns `x0 .. x0 + w` over the full
/// height.
pub open spec fn is_column_band(m: Seq<u8>, n: int, x0: int, w: int) -> bool {
    forall|x: int, y: int| 0 <= x < n && 0 <= y < n ==> (#[trigger] m[y * n + x] == 1) == (x0 <= x < x0 + w)
}

/// The `n` x `n` mask `m` is exactly the rows `y0 .. y0 + w` over the full width.
pub open spec fn is_row_band(m: Seq<u8>, n: int, y0: int, w: int) -> bool {
    forall|x: int, y: int| 0 <= x < n && 0 <= y < n ==> (#[trigger] m[y * n + x] == 1) == (y0 <= y < y0 + w)
}

/// The `n` x `n` mask `m` is exactly the square of side `d` with corner `(x0, y0)`.
pub open spec fn is_square(m: Seq<u8>, n: int, x0: int, y0: int, d: int) -> bool {
    forall|x: int, y: int|
        0 <= x < n && 0 <= y < n ==> (#[trigger] m[y * n + x] == 1) == (x0 <= x < x0 + d && y0 <= y < y0 + d)
}

/// A drawn shape of a layout is what its class says: class 0 a vertical bar of
/// the layout's width over the full height, class 1 the same bar lying down,
/// any other class a square block of the layout's side; each starts within the
/// layout's allowed span.
pub proof fn law_layout_shape_is_bar_or_block(l: ShapeLayout, class: usize, s: u64)
    requires
        layout_ok(l),
    ensures
        ({
            let m = rects_mask(l.side as nat, seq![layout_rect(l, class, s)]);
            let n = l.side as int;
            &&& m.len() == n * n
            &&& class == 0 ==> exists|x0: int|
                l.bar_offset <= x0 < l.bar_offset + l.bar_span && #[trigger] is_column_band(m, n, x0, l.bar_width as int)
            &&& class == 1 ==> exists|y0: int|
                l.bar_offset <= y0 < l.bar_offset + l.bar_span && #[trigger] is_row_band(m, n, y0, l.bar_width as int)
            &&& class >= 2 ==> exists|x0: int, y0: int|
                l.block_offset <= x0 < l.block_offset + l.block_span && l.block_offset <= y0
                    < l.block_offset + l.block_span && #[trigger] is_square(m, n, x0, y0, l.block_side as int)
        }),
{
    let r = layout_rect(l, class, s);
    let m = rects_mask(l.side as nat, seq![r]);
    let n = l.side as int;
    let a = lcg_step(s);
    let b = lcg_step(a);
    assert(0 <= (a as int) % (l.bar_span as int) < l.bar_span);
    assert(0 <= (a as int) % (l.block_span as int) < l.block_span);
    assert(0 <= (b as int) % (l.block_span as int) < l.block_span);
    assert forall|x: int, y: int| 0 <= x < n && 0 <= y < n implies (#[trigger] m[y * n + x] == 1) == (r.x0 <= x
        < r.x1 && r.y0 <= y < r.y1) by {
        lemma_one_rect_pixel(l.side as nat, r, x, y);
    }
    lemma_one_rect_pixel(l.side as nat, r, 0, 0);
    if class == 0 {
        assert(is_column_band(m, n, r.x0 as int, l.bar_width as int));
    } else if class == 1 {
        assert(is_row_band(m, n, r.y0 as int, l.bar_width as int));
    } else {
        assert(is_square(m, n, r.x0 as int, r.y0 as int, l.block_side as int));
    }
}

/// The six mode templates are three-pixel bars five pixels apart: modes 0, 1, 2
/// are the columns from 2, 7 and 12, modes 3, 4, 5 the rows from 2, 7 and 12.
pub proof fn law_mode_templates(m: usize)
    requires
        m < 6,
    ensures
        rects_mask(16, seq![mode_rect(m)]).len() == 256,
        m < 3 ==> is_column_band(rects_mask(16, seq![mode_rect(m)]), 16, 2 + 5 * m, 3),
        m >= 3 ==> is_row_band(rects_mask(16, seq![mode_rect(m)]), 16, 2 + 5 * (m - 3), 3),
{
    let r = mode_rect(m);
    let mk = rects_mask(16, seq![r]);
    assert forall|x: int, y: int| 0 <= x < 16 && 0 <= y < 16 implies (#[trigger] mk[y * 16 + x] == 1) == (r.x0 <= x
        < r.x1 && r.y0 <= y < r.y1) by {
        lemma_one_rect_pixel(16, r, x, y);
    }
    lemma_one_rect_pixel(16, r, 0, 0);
}

/// The cross and the disc of the second family are centred on pixel (14, 14):
/// both are unchanged by swapping the axes and by mirroring about column 14;
/// the cross is three pixels thick (columns and rows 13 to 15); the disc spans
/// columns 8 to 20 on its middle row and stays within 6 pixels of the centre
/// along each axis.
pub proof fn law_cross_and_disc_centred(x: int, y: int)
    ensures
        pattern_b(2, x, y) == pattern_b(2, y, x),
        pattern_b(2, x, y) == pattern_b(2, 28 - x, y),
        pattern_b(3, x, y) == pattern_b(3, y, x),
        pattern_b(3, x, y) == pattern_b(3, 28 - x, y),
        pattern_b(2, x, 0) == (13 <= x <= 15),
        pattern_b(3, x, 14) == (8 <= x <= 20),
        pattern_b(3, x, y) ==> 8 <= x <= 20 && 8 <= y <= 20,
{
    let dx = x - 14;
    let dy = y - 14;
    assert((28 - x - 14) * (28 - x - 14) == dx * dx) by (nonlinear_arith)
        requires
            dx == x - 14,
    ;
    assert(dx * dx <= 36 <==> -6 <= dx <= 6) by (nonlinear_arith);
    assert(dy * dy <= 36 <==> -6 <= dy <= 6) by (nonlinear_arith);
    assert(dy * dy >= 0) by (nonlinear_arith);
    assert(dx * dx >= 0) by (nonlinear_arith);
    assert((x - 14) * (x - 14) + (14 - 14) * (14 - 14) == dx * dx);
}

/// A multi-label sample draws one shape per label it carries, in the order
/// horizontal bar, vertical bar, block: the horizontal bar is two rows thick
/// across the full 16-pixel width starting at a row in 2..=12, the vertical bar
/// two columns thick over the full height starting at a column in 2..=12, and
/// the block a 4 x 4 square inside the grid.
pub proof fn law_multilabel_shapes_match_labels(s: u64)
    ensures
        ({
            let (h, v, b, rs, _) = multilabel_spec(s);
            let nh: int = if h { 1 } else { 0 };
            let nv: int = if v { 1 } else { 0 };
            let nb: int = if b { 1 } else { 0 };
            &&& rs.len() == nh + nv + nb
            &&& h ==> rs[0].x0 == 0 && rs[0].x1 == 16 && 2 <= rs[0].y0 <= 12 && rs[0].y1 == rs[0].y0 + 2
            &&& v ==> rs[nh].y0 == 0 && rs[nh].y1 == 16 && 2 <= rs[nh].x0 <= 12 && rs[nh].x1 == rs[nh].x0 + 2
            &&& b ==> rs[nh + nv].x1 == rs[nh + nv].x0 + 4 && rs[nh + nv].y1 == rs[nh + nv].y0 + 4
                && rs[nh + nv].x1 <= 16 && rs[nh + nv].y1 <= 16
        }),
{
    let (h, v, b, rs, _) = multilabel_spec(s);
    let t0 = sm_next(sm_next(sm_next(s)));
    let t1 = if h { sm_next(t0) } else { t0 };
    let t2 = if v { sm_next(t1) } else { t1 };
    let t3 = if b { sm_next(t2) } else { t2 };
    let t4 = if b { sm_next(t3) } else { t3 };
    assert(0 <= ((mix64(t1) as usize) as int) % 11 < 11);
    assert(0 <= ((mix64(t2) as usize) as int) % 11 < 11);
    assert(0 <= ((mix64(t3) as usize) as int) % 12 < 12);
    assert(0 <= ((mix64(t4) as usize) as int) % 12 < 12);
}

} // verus!
