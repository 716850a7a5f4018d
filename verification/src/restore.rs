//! Clean targets of the restoration sets: full-length bars on a 32 x 32 grid
//! for super-resolution, and one bar or block on a 24 x 24 grid for denoising.
use crate::lcg::{lcg_step, Lcg};
use crate::shapes::{layout_rect, layout_ok, layout_state, mask_from_rects, rects_mask, shape_mask, Rect, ShapeLayout};
use vstd::prelude::*;

verus! {

/// Side of a super-resolution target.
pub const HR_SIDE: usize = 32;

/// Side of a denoising target.
pub const DN_SIDE: usize = 24;

/// One bar drawn from state `s`, and the state after it: a width in `2..5`,
/// a coin (even: vertical), then an offset in `0..32 - width`.
pub open spec fn bar_draw(s: u64) -> (Rect, u64) {
    let a = lcg_step(s);
    let w = 2 + (a as int) % 3;
    let b = lcg_step(a);
    let c = lcg_step(b);
    let off = (c as int) % (32 - w);
    if (b as int) % 2 == 0 {
        (Rect { x0: off as usize, x1: (off + w) as usize, y0: 0, y1: 32 }, c)
    } else {
        (Rect { x0: 0, x1: 32, y0: off as usize, y1: (off + w) as usize }, c)
    }
}

/// `k` bars drawn one after another from state `s`, and the final state.
pub open spec fn bars_loop(k: nat, s: u64) -> (Seq<Rect>, u64)
    decreases k,
{
    if k == 0 {
        (Seq::empty(), s)
    } else {
        let (r, s1) = bar_draw(s);
        let (rest, s2) = bars_loop((k - 1) as nat, s1);
        (seq![r] + rest, s2)
    }
}

/// The bars of a super-resolution target drawn from state `s`: a count in
/// `2..4`, then that many bars; with the final state.
pub open spec fn bars_run(s: u64) -> (Seq<Rect>, u64) {
    bars_loop((2 + (lcg_step(s) as int) % 2) as nat, lcg_step(s))
}

/// A super-resolution target: two or three bars of width 2 to 4 across a
/// 32 x 32 grid, each vertical or horizontal, as a 0/1 mask.
pub fn bar_target(rng: &mut Lcg) -> (m: Vec<u8>)
    ensures
        m@ == rects_mask(32, bars_run(old(rng).0).0),
        final(rng).0 == bars_run(old(rng).0).1,
{
    let ghost s0 = rng.0;
    let n = 2 + rng.range(2);
    let mut rects: Vec<Rect> = Vec::new();
    let mut i: usize = 0;
    proof {
        assert(rects@ + bars_run(s0).0 =~= bars_run(s0).0);
    }
    while i < n
        invariant
            2 <= n <= 3,
            i <= n,
            rects.len() == i,
            ({
                let (rest, fin) = bars_loop((n - i) as nat, rng.0);
                rects@ + rest == bars_run(s0).0 && fin == bars_run(s0).1
            }),
        decreases n - i,
    {
        let ghost st = rng.0;
        let ghost before = rects@;
        let w = 2 + rng.range(3);
        let vertical = rng.range(2) == 0;
        let off = rng.range(HR_SIDE - w);
        if vertical {
            rects.push(Rect { x0: off, x1: off + w, y0: 0, y1: HR_SIDE });
        } else {
            rects.push(Rect { x0: 0, x1: HR_SIDE, y0: off, y1: off + w });
        }
        proof {
            let (r, s1) = bar_draw(st);
            assert(rects@[rects.len() - 1] == r);
            assert(rng.0 == s1);
            let (rest, _) = bars_loop((n - i - 1) as nat, s1);
            assert(bars_loop((n - i) as nat, st).0 =~= seq![r] + rest);
            assert(rects@ =~= before + seq![r]);
            assert(rects@ + rest =~= before + (seq![r] + rest));
        }
        i = i + 1;
    }
    proof {
        assert(rects@ =~= bars_run(s0).0);
    }
    mask_from_rects(HR_SIDE, &rects)
}

/// The 24 x 24 layout of the denoising targets: bars of width 4 starting at
/// 4..=18, blocks of side 9 with corners at 3..=13.
pub open spec fn denoise_layout() -> ShapeLayout {
    ShapeLayout {
        side: 24,
        bar_offset: 4,
        bar_span: 15,
        bar_width: 4,
        block_offset: 3,
        block_span: 11,
        block_side: 9,
    }
}

/// A denoising target: a shape kind in `0..3` (vertical bar, horizontal bar,
/// block), then its position on a 24 x 24 grid, as a 0/1 mask.
pub fn denoise_target(rng: &mut Lcg) -> (m: Vec<u8>)
    ensures
        ({
            let s1 = lcg_step(old(rng).0);
            let kind = ((s1 as int) % 3) as usize;
            &&& m@ == rects_mask(24, seq![layout_rect(denoise_layout(), kind, s1)])
            &&& final(rng).0 == layout_state(kind, s1)
        }),
{
    let kind = rng.range(3);
    let l = ShapeLayout {
        side: DN_SIDE,
        bar_offset: 4,
        bar_span: 15,
        bar_width: 4,
        block_offset: 3,
        block_span: 11,
        block_side: 9,
    };
    proof {
        assert(layout_ok(l));
        assert(l == denoise_layout());
    }
    shape_mask(l, kind, rng)
}

/// The rectangle is a full-height column band or a full-width row band of
/// width 2 to 4 on the 32 x 32 grid.
pub open spec fn full_bar(r: Rect) -> bool {
    ||| r.y0 == 0 && r.y1 == 32 && r.x0 + 2 <= r.x1 <= r.x0 + 4 && r.x1 <= 32
    ||| r.x0 == 0 && r.x1 == 32 && r.y0 + 2 <= r.y1 <= r.y0 + 4 && r.y1 <= 32
}

proof fn lemma_bars_loop_full(k: nat, s: u64)
    ensures
        bars_loop(k, s).0.len() == k,
        forall|j: int| 0 <= j < k ==> full_bar(#[trigger] bars_loop(k, s).0[j]),
    decreases k,
{
    if k > 0 {
        let (r, s1) = bar_draw(s);
        lemma_bars_loop_full((k - 1) as nat, s1);
        let a = lcg_step(s);
        let w = 2 + (a as int) % 3;
        let c = lcg_step(lcg_step(a));
        assert(0 <= (c as int) % (32 - w) < 32 - w);
        assert(full_bar(r));
        let rest = bars_loop((k - 1) as nat, s1).0;
        assert forall|j: int| 0 <= j < k implies full_bar(#[trigger] bars_loop(k, s).0[j]) by {
            if j > 0 {
                assert(bars_loop(k, s).0[j] == rest[j - 1]);
            }
        }
    }
}

/// A super-resolution target is two or three bars, each running across the
/// whole 32 x 32 grid, vertically or horizontally, with a width of 2 to 4.
pub proof fn law_bar_target_is_full_bars(s: u64)
    ensures
        2 <= bars_run(s).0.len() <= 3,
        forall|k: int| 0 <= k < bars_run(s).0.len() ==> full_bar(#[trigger] bars_run(s).0[k]),
{
    let n = (2 + (lcg_step(s) as int) % 2) as nat;
    lemma_bars_loop_full(n, lcg_step(s));
}

} // verus!
