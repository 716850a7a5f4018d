//! Regions of interest on a 48 x 48 image: the integer pixel box of a
//! detection, the nearest-neighbour crop of an instance mask to a 28 x 28
//! target, and the paste of a 28 x 28 mask back into the full image.
use vstd::prelude::*;

verus! {

/// Side of the full image.
pub const IMG: usize = 48;

/// Side of the mask head's square.
pub const M: usize = 28;

/// A pixel box: corner `(x0, y0)`, width `w`, height `h`.
#[derive(Clone, Copy)]
pub struct PixelBox {
    pub x0: u32,
    pub y0: u32,
    pub w: u32,
    pub h: u32,
}

/// The box is non-empty and lies on the image.
pub open spec fn box_ok(b: PixelBox) -> bool {
    &&& b.x0 < IMG && b.y0 < IMG
    &&& 1 <= b.w && b.x0 + b.w <= IMG
    &&& 1 <= b.h && b.y0 + b.h <= IMG
}

/// `v` clamped to `[lo, hi]`.
pub open spec fn clamp(v: int, lo: int, hi: int) -> int {
    if v < lo {
        lo
    } else if v > hi {
        hi
    } else {
        v
    }
}

/// The extent from a clamped start to a clamped end: at least one pixel and
/// at most what is left of the image.
pub open spec fn extent(start: int, end: int) -> int {
    let d = if end > start { end - start } else { 0 };
    let d1 = if d < 1 { 1 } else { d };
    if d1 < IMG - start { d1 } else { IMG - start }
}

fn clamp_i64(v: i64, lo: i64, hi: i64) -> (r: i64)
    requires
        lo <= hi,
    ensures
        r == clamp(v as int, lo as int, hi as int),
{
    if v < lo {
        lo
    } else if v > hi {
        hi
    } else {
        v
    }
}

/// The pixel box of a detection whose corners were rounded outwards: the
/// floored left/top edges `fx0, fy0` and the ceiled right/bottom edges
/// `cx1, cy1`. Starts are clamped to `0..=47`, ends to `1..=48`, and the box
/// keeps at least one pixel on each side.
pub fn pixel_box(fx0: i64, fy0: i64, cx1: i64, cy1: i64) -> (b: PixelBox)
    ensures
        b.x0 == clamp(fx0 as int, 0, 47),
        b.y0 == clamp(fy0 as int, 0, 47),
        b.w == extent(b.x0 as int, clamp(cx1 as int, 1, 48)),
        b.h == extent(b.y0 as int, clamp(cy1 as int, 1, 48)),
        box_ok(b),
{
    let x0 = clamp_i64(fx0, 0, 47) as u32;
    let y0 = clamp_i64(fy0, 0, 47) as u32;
    let x1 = clamp_i64(cx1, 1, 48) as u32;
    let y1 = clamp_i64(cy1, 1, 48) as u32;
    let dw = if x1 > x0 { x1 - x0 } else { 0 };
    let dw1 = if dw < 1 { 1 } else { dw };
    let w = if dw1 < 48 - x0 { dw1 } else { 48 - x0 };
    let dh = if y1 > y0 { y1 - y0 } else { 0 };
    let dh1 = if dh < 1 { 1 } else { dh };
    let h = if dh1 < 48 - y0 { dh1 } else { 48 - y0 };
    PixelBox { x0, y0, w, h }
}

/// Source column (or row) of target position `o` when a box side of length
/// `len` starting at `start` is resampled to `M` positions.
pub open spec fn crop_src(start: int, o: int, len: int) -> int {
    let s = start + o * len / (M as int);
    if s < IMG - 1 { s } else { IMG - 1 }
}

/// Position in the `M`-square of image offset `d` along a box side of length `len`.
pub open spec fn paste_src(d: int, len: int) -> int {
    let s = d * (M as int) / len;
    if s < M - 1 { s } else { M - 1 }
}

/// The `M x M` nearest-neighbour resampling of the box `b` of a full mask:
/// 1 on the instance and 0 elsewhere.
pub open spec fn cropped_mask(mask: Seq<bool>, b: PixelBox) -> Seq<u32> {
    Seq::new(
        (M * M) as nat,
        |i: int|
            if mask[crop_src(b.y0 as int, i / (M as int), b.h as int) * IMG + crop_src(
                b.x0 as int,
                i % (M as int),
                b.w as int,
            )] {
                1u32
            } else {
                0u32
            },
    )
}

/// Crops an instance mask to the box and resamples it to `M x M` by nearest
/// neighbour; the result holds 1 on the instance and 0 elsewhere.
pub fn crop_resize_mask(mask: &Vec<bool>, b: PixelBox) -> (o: Vec<u32>)
    requires
        mask.len() == IMG * IMG,
        box_ok(b),
    ensures
        o@ == cropped_mask(mask@, b),
{
    let mut o: Vec<u32> = Vec::new();
    let mut i: usize = 0;
    while i < M * M
        invariant
            i <= M * M,
            o.len() == i,
            mask.len() == IMG * IMG,
            box_ok(b),
            forall|j: int|
                0 <= j < i ==> #[trigger] o@[j] == if mask@[crop_src(b.y0 as int, j / (M as int), b.h as int) * IMG
                    + crop_src(b.x0 as int, j % (M as int), b.w as int)] {
                    1u32
                } else {
                    0u32
                },
        decreases M * M - i,
    {
        let ox = (i % M) as u32;
        let oy = (i / M) as u32;
        proof {
            assert(ox * b.w <= 27 * 48) by (nonlinear_arith)
                requires
                    ox <= 27,
                    b.w <= 48,
            ;
            assert(oy * b.h <= 27 * 48) by (nonlinear_arith)
                requires
                    oy <= 27,
                    b.h <= 48,
            ;
        }
        let sx0 = b.x0 + ox * b.w / M as u32;
        let sx = if sx0 < IMG as u32 - 1 { sx0 } else { IMG as u32 - 1 };
        let sy0 = b.y0 + oy * b.h / M as u32;
        let sy = if sy0 < IMG as u32 - 1 { sy0 } else { IMG as u32 - 1 };
        let v = if mask[sy as usize * IMG + sx as usize] { 1 } else { 0 };
        o.push(v);
        i = i + 1;
    }
    proof {
        assert(o@ =~= Seq::new(
            (M * M) as nat,
            |i: int|
                if mask@[crop_src(b.y0 as int, i / (M as int), b.h as int) * IMG + crop_src(
                    b.x0 as int,
                    i % (M as int),
                    b.w as int,
                )] {
                    1u32
                } else {
                    0u32
                },
        ));
    }
    o
}

/// Whether pixel `(x, y)` of the full image is set when the `M x M` mask
/// `small` is pasted into box `b`.
pub open spec fn pasted(small: Seq<u32>, b: PixelBox, x: int, y: int) -> bool {
    &&& b.x0 <= x < b.x0 + b.w
    &&& b.y0 <= y < b.y0 + b.h
    &&& small[paste_src(y - b.y0, b.h as int) * M + paste_src(x - b.x0, b.w as int)] == 1
}

/// The full mask of `small` pasted into box `b`.
pub open spec fn pasted_mask(small: Seq<u32>, b: PixelBox) -> Seq<bool> {
    Seq::new((IMG * IMG) as nat, |i: int| pasted(small, b, i % (IMG as int), i / (IMG as int)))
}

/// Pastes an `M x M` mask into box `b` of an empty full image, stretching it
/// by nearest neighbour; pixels outside the box stay clear.
pub fn paste_mask(small: &Vec<u32>, b: PixelBox) -> (full: Vec<bool>)
    requires
        small.len() == M * M,
        box_ok(b),
    ensures
        full@ == pasted_mask(small@, b),
{
    let mut full: Vec<bool> = Vec::new();
    let mut i: usize = 0;
    while i < IMG * IMG
        invariant
            i <= IMG * IMG,
            full.len() == i,
            small.len() == M * M,
            box_ok(b),
            forall|j: int| 0 <= j < i ==> #[trigger] full@[j] == pasted(small@, b, j % (IMG as int), j / (IMG as int)),
        decreases IMG * IMG - i,
    {
        let x = (i % IMG) as u32;
        let y = (i / IMG) as u32;
        let mut on = false;
        if b.x0 <= x && x < b.x0 + b.w && b.y0 <= y && y < b.y0 + b.h {
            let dx = x - b.x0;
            let dy = y - b.y0;
            proof {
                assert(dx * 28 <= 47 * 28) by (nonlinear_arith)
                    requires
                        dx <= 47,
                ;
                assert(dy * 28 <= 47 * 28) by (nonlinear_arith)
                    requires
                        dy <= 47,
                ;
            }
            let px0 = dx * M as u32 / b.w;
            let px = if px0 < M as u32 - 1 { px0 } else { M as u32 - 1 };
            let py0 = dy * M as u32 / b.h;
            let py = if py0 < M as u32 - 1 { py0 } else { M as u32 - 1 };
            on = small[py as usize * M + px as usize] == 1;
        }
        full.push(on);
        i = i + 1;
    }
    proof {
        assert(full@ =~= Seq::new((IMG * IMG) as nat, |i: int| pasted(small@, b, i % (IMG as int), i / (IMG as int))));
    }
    full
}

/// Output pixel `(ox, oy)` of the crop is read from the full mask at row
/// `y0 + oy * h / 28` and column `x0 + ox * w / 28` of the row-major 48 x 48
/// mask: the box is sampled row from row and column from column, and never
/// outside the box.
pub proof fn law_crop_reads_box_pixel(mask: Seq<bool>, b: PixelBox, ox: int, oy: int)
    requires
        mask.len() == 48 * 48,
        box_ok(b),
        0 <= ox < 28,
        0 <= oy < 28,
    ensures
        ({
            let row = b.y0 + oy * b.h / 28;
            let col = b.x0 + ox * b.w / 28;
            &&& b.y0 <= row < b.y0 + b.h
            &&& b.x0 <= col < b.x0 + b.w
            &&& cropped_mask(mask, b)[oy * 28 + ox] == if mask[row * 48 + col] { 1u32 } else { 0u32 }
        }),
{
    let i = oy * 28 + ox;
    assert(i / 28 == oy && i % 28 == ox) by (nonlinear_arith)
        requires
            i == oy * 28 + ox,
            0 <= ox < 28,
            0 <= oy < 28,
    ;
    let w = b.w as int;
    let h = b.h as int;
    assert(0 <= ox * w / 28 < w) by (nonlinear_arith)
        requires
            0 <= ox < 28,
            1 <= w,
    ;
    assert(0 <= oy * h / 28 < h) by (nonlinear_arith)
        requires
            0 <= oy < 28,
            1 <= h,
    ;
    assert(0 <= i < 784);
}

/// Pixel `(x, y)` of the pasted mask is set exactly when it lies in the box
/// and the small mask is set at row `min((y - y0) * 28 / h, 27)` and column
/// `min((x - x0) * 28 / w, 27)`: rows follow the box height and columns the
/// box width.
pub proof fn law_paste_reads_small_pixel(small: Seq<u32>, b: PixelBox, x: int, y: int)
    requires
        small.len() == 28 * 28,
        box_ok(b),
        0 <= x < 48,
        0 <= y < 48,
    ensures
        ({
            let r0 = (y - b.y0) * 28 / (b.h as int);
            let c0 = (x - b.x0) * 28 / (b.w as int);
            let row = if r0 < 27 { r0 } else { 27 };
            let col = if c0 < 27 { c0 } else { 27 };
            pasted_mask(small, b)[y * 48 + x] == (b.x0 <= x < b.x0 + b.w && b.y0 <= y < b.y0 + b.h
                && small[row * 28 + col] == 1)
        }),
{
    let i = y * 48 + x;
    assert(i / 48 == y && i % 48 == x) by (nonlinear_arith)
        requires
            i == y * 48 + x,
            0 <= x < 48,
            0 <= y < 48,
    ;
    assert(0 <= i < 48 * 48);
}

/// A detection whose rounded corners already lie on the image keeps them:
/// start `fx0` and width `cx1 - fx0` when `0 <= fx0 < cx1 <= 48`; any other
/// detection still gets a box of at least one pixel that ends on the image.
pub proof fn law_pixel_box_keeps_boxes_on_the_image(fx0: int, cx1: int)
    ensures
        clamp(fx0, 0, 47) + extent(clamp(fx0, 0, 47), clamp(cx1, 1, 48)) <= 48,
        extent(clamp(fx0, 0, 47), clamp(cx1, 1, 48)) >= 1,
        0 <= fx0 < cx1 <= 48 ==> clamp(fx0, 0, 47) == fx0 && extent(clamp(fx0, 0, 47), clamp(cx1, 1, 48))
            == cx1 - fx0,
{
}

} // verus!
