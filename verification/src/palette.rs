//! The two 64 x 64 RGB test pictures of colour-statistics transfer: a cool
//! content picture with two bright blocks, and a warm reference gradient.
//! Pixels are interleaved `R, G, B` in row-major order.
use vstd::prelude::*;

verus! {

/// Side of the pictures.
pub const ST: usize = 64;

/// The pixel `(x, y)` lies in one of the two bright blocks of the content picture.
pub open spec fn in_content_block(x: int, y: int) -> bool {
    (10 <= x < 24 && 12 <= y < 26) || (38 <= x < 56 && 34 <= y < 52)
}

/// Channel `c` of pixel `(x, y)` of the content picture: a dark blue vertical
/// gradient (red 25, green `40 + 70 y / 64`, blue `120 + 100 y / 64`,
/// truncated) under two near-white blocks.
pub open spec fn content_px(x: int, y: int, c: int) -> u8 {
    if in_content_block(x, y) {
        if c == 2 {
            240u8
        } else {
            235u8
        }
    } else if c == 0 {
        25u8
    } else if c == 1 {
        ((2560 + 70 * y) / 64) as u8
    } else {
        ((7680 + 100 * y) / 64) as u8
    }
}

/// Channel `c` of pixel `(x, y)` of the reference picture: a warm horizontal
/// gradient (red `min(200 + 40 x / 64, 255)`, green `90 + 120 x / 64`, blue
/// `30 + 40 (64 - x) / 64`, truncated).
pub open spec fn reference_px(x: int, y: int, c: int) -> u8 {
    if c == 0 {
        let r = (12800 + 40 * x) / 64;
        (if r < 255 { r } else { 255 }) as u8
    } else if c == 1 {
        ((5760 + 120 * x) / 64) as u8
    } else {
        ((1920 + 40 * (64 - x)) / 64) as u8
    }
}

/// The content picture.
pub fn gen_content() -> (v: Vec<u8>)
    ensures
        v@ == Seq::new(
            (3 * ST * ST) as nat,
            |i: int| content_px((i / 3) % 64, (i / 3) / 64, i % 3),
        ),
{
    let mut v: Vec<u8> = Vec::new();
    let mut i: usize = 0;
    while i < 3 * ST * ST
        invariant
            i <= 3 * ST * ST,
            v.len() == i,
            forall|j: int| 0 <= j < i ==> #[trigger] v@[j] == content_px((j / 3) % 64, (j / 3) / 64, j % 3),
        decreases 3 * ST * ST - i,
    {
        let p = i / 3;
        let c = i % 3;
        let x = p % ST;
        let y = p / ST;
        let block = (10 <= x && x < 24 && 12 <= y && y < 26) || (38 <= x && x < 56 && 34 <= y && y < 52);
        let val: u8 = if block {
            if c == 2 {
                240
            } else {
                235
            }
        } else if c == 0 {
            25
        } else if c == 1 {
            ((2560 + 70 * y) / 64) as u8
        } else {
            ((7680 + 100 * y) / 64) as u8
        };
        v.push(val);
        i = i + 1;
    }
    proof {
        assert(v@ =~= Seq::new((3 * ST * ST) as nat, |i: int| content_px((i / 3) % 64, (i / 3) / 64, i % 3)));
    }
    v
}

/// The reference picture.
pub fn gen_reference() -> (v: Vec<u8>)
    ensures
        v@ == Seq::new(
            (3 * ST * ST) as nat,
            |i: int| reference_px((i / 3) % 64, (i / 3) / 64, i % 3),
        ),
{
    let mut v: Vec<u8> = Vec::new();
    let mut i: usize = 0;
    while i < 3 * ST * ST
        invariant
            i <= 3 * ST * ST,
            v.len() == i,
            forall|j: int| 0 <= j < i ==> #[trigger] v@[j] == reference_px((j / 3) % 64, (j / 3) / 64, j % 3),
        decreases 3 * ST * ST - i,
    {
        let p = i / 3;
        let c = i % 3;
        let x = p % ST;
        let val: u8 = if c == 0 {
            let r = (12800 + 40 * x) / 64;
            if r < 255 {
                r as u8
            } else {
                255
            }
        } else if c == 1 {
            ((5760 + 120 * x) / 64) as u8
        } else {
            ((1920 + 40 * (64 - x)) / 64) as u8
        };
        v.push(val);
        i = i + 1;
    }
    proof {
        assert(v@ =~= Seq::new((3 * ST * ST) as nat, |i: int| reference_px((i / 3) % 64, (i / 3) / 64, i % 3)));
    }
    v
}

} // verus!
