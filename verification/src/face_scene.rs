//! Layout of a face-detection scene on a 48 x 48 picture: a noisy grey
//! background, then one or two faces placed by rejection sampling, each with
//! a width, a centre and a skin tone.
use crate::lcg::lcg_step;
use crate::lcg_span::{span_value, Lcg};
use vstd::prelude::*;

verus! {

/// Side of the picture.
pub const FACE_SIDE: i32 = 48;

/// The background bytes `R, G, B` of the next `k` pixels drawn from state `s`
/// around grey level `base`, and the state after them: each pixel draws a
/// grey `base + 0..26` and a blue offset `-6..7`.
pub open spec fn background_loop(base: int, k: nat, s: u64) -> (Seq<u8>, u64)
    decreases k,
{
    if k == 0 {
        (Seq::empty(), s)
    } else {
        let v = base + span_value(s, 0, 26);
        let s1 = lcg_step(s);
        let b = v + span_value(s1, -6, 7);
        let (rest, fin) = background_loop(base, (k - 1) as nat, lcg_step(s1));
        (seq![v as u8, v as u8, b as u8] + rest, fin)
    }
}

/// The background drawn from state `s`: a grey level in `12..46`, then the
/// pixels in row-major order.
pub open spec fn background_run(s: u64) -> (Seq<u8>, u64) {
    background_loop(span_value(s, 12, 46), 2304, lcg_step(s))
}

/// Draws the noisy background of a face scene, pixels interleaved `R, G, B`.
pub fn face_background(rng: &mut Lcg) -> (px: Vec<u8>)
    ensures
        (px@, final(rng).0) == background_run(old(rng).0),
        px.len() == 3 * 2304,
{
    let ghost s0 = rng.0;
    let base = rng.range(12, 46);
    let mut px: Vec<u8> = Vec::new();
    let mut i: usize = 0;
    proof {
        assert(px@ + background_run(s0).0 =~= background_run(s0).0);
    }
    while i < 2304
        invariant
            i <= 2304,
            12 <= base < 46,
            px.len() == 3 * i,
            base == span_value(s0, 12, 46),
            ({
                let (rest, fin) = background_loop(base as int, (2304 - i) as nat, rng.0);
                px@ + rest == background_run(s0).0 && fin == background_run(s0).1
            }),
        decreases 2304 - i,
    {
        let ghost before = px@;
        let ghost st = rng.0;
        let v = base + rng.range(0, 26);
        let b = v + rng.range(-6, 7);
        px.push(v as u8);
        px.push(v as u8);
        px.push(b as u8);
        proof {
            let (rest, fin) = background_loop(base as int, (2304 - i) as nat, st);
            let (rest2, fin2) = background_loop(base as int, (2304 - i - 1) as nat, rng.0);
            assert(rest == seq![v as u8, v as u8, b as u8] + rest2);
            assert(px@ + rest2 =~= before + rest);
        }
        i = i + 1;
    }
    proof {
        let (rest, fin) = background_loop(base as int, 0, rng.0);
        assert(px@ + rest =~= px@);
    }
    px
}

/// A placed face: centre, width (the height is `1.25` times it) and skin tone.
#[derive(Clone, Copy, Debug, PartialEq, Eq, Structural)]
pub struct FaceBox {
    pub cx: i32,
    pub cy: i32,
    pub w: i32,
    pub skin: i32,
}

/// Half extents, with two pixels of margin, of a face of width `w`:
/// `w / 2 + 2` across and `(5 w / 4) / 2 + 2` down.
pub open spec fn half_extents(w: int) -> (int, int) {
    (w / 2 + 2, (5 * w) / 8 + 2)
}

/// The face lies on the picture with its margins, with a width in `14..23`
/// and a skin tone in `175..236`.
pub open spec fn face_ok(f: FaceBox) -> bool {
    &&& 14 <= f.w < 23
    &&& half_extents(f.w as int).0 <= f.cx < FACE_SIDE - half_extents(f.w as int).0
    &&& half_extents(f.w as int).1 <= f.cy < FACE_SIDE - half_extents(f.w as int).1
    &&& 175 <= f.skin < 236
}

/// The candidate centre is at least 16 pixels from every face along some axis.
pub open spec fn far_from_faces(faces: Seq<FaceBox>, cx: int, cy: int) -> bool {
    forall|j: int|
        0 <= j < faces.len() ==> {
            let f = #[trigger] faces[j];
            f.cx - cx >= 16 || cx - f.cx >= 16 || f.cy - cy >= 16 || cy - f.cy >= 16
        }
}

/// The candidate `(w, cx, cy)` drawn from state `s`, and the state after it.
pub open spec fn face_candidate(s: u64) -> (int, int, int, u64) {
    let w = span_value(s, 14, 23);
    let (hw, hh) = half_extents(w);
    let s1 = lcg_step(s);
    let cx = span_value(s1, hw, FACE_SIDE - hw);
    let s2 = lcg_step(s1);
    let cy = span_value(s2, hh, FACE_SIDE - hh);
    (w, cx, cy, lcg_step(s2))
}

/// The rejection loop from `faces` after `tries` candidates at state `s`,
/// aiming for `n` faces; an accepted candidate then draws its skin tone.
pub open spec fn faces_loop(n: int, faces: Seq<FaceBox>, tries: int, s: u64) -> (Seq<FaceBox>, u64)
    decreases 60 - tries,
{
    if faces.len() < n && tries < 60 {
        let (w, cx, cy, s1) = face_candidate(s);
        if far_from_faces(faces, cx, cy) {
            let f = FaceBox { cx: cx as i32, cy: cy as i32, w: w as i32, skin: span_value(s1, 175, 236) as i32 };
            faces_loop(n, faces.push(f), tries + 1, lcg_step(s1))
        } else {
            faces_loop(n, faces, tries + 1, s1)
        }
    } else {
        (faces, s)
    }
}

/// The faces drawn from state `s`, and the final state: a count in `1..3`,
/// then the rejection loop.
pub open spec fn faces_run(s: u64) -> (Seq<FaceBox>, u64) {
    faces_loop(span_value(s, 1, 3), Seq::empty(), 0, lcg_step(s))
}

/// The candidate centre keeps 16 pixels from every placed face along some axis.
fn far_from(faces: &Vec<FaceBox>, cx: i32, cy: i32) -> (r: bool)
    requires
        forall|j: int| 0 <= j < faces.len() ==> face_ok(#[trigger] faces@[j]),
        0 <= cx < FACE_SIDE,
        0 <= cy < FACE_SIDE,
    ensures
        r == far_from_faces(faces@, cx as int, cy as int),
{
    let mut k: usize = 0;
    while k < faces.len()
        invariant
            k <= faces.len(),
            forall|j: int| 0 <= j < faces.len() ==> face_ok(#[trigger] faces@[j]),
            0 <= cx < FACE_SIDE,
            0 <= cy < FACE_SIDE,
            far_from_faces(faces@.subrange(0, k as int), cx as int, cy as int),
        decreases faces.len() - k,
    {
        let f = faces[k];
        let dx = if f.cx > cx { f.cx - cx } else { cx - f.cx };
        let dy = if f.cy > cy { f.cy - cy } else { cy - f.cy };
        if dx < 16 && dy < 16 {
            return false;
        }
        proof {
            assert forall|j: int| 0 <= j < k + 1 implies {
                let g = #[trigger] faces@.subrange(0, k as int + 1)[j];
                g.cx - cx >= 16 || cx - g.cx >= 16 || g.cy - cy >= 16 || cy - g.cy >= 16
            } by {
                if j < k {
                    assert(faces@.subrange(0, k as int + 1)[j] == faces@.subrange(0, k as int)[j]);
                }
            }
        }
        k = k + 1;
    }
    proof {
        assert(faces@.subrange(0, faces.len() as int) =~= faces@);
    }
    true
}

/// Places one or two faces by rejection sampling: a candidate whose centre
/// is within 16 pixels of a placed face along both axes is dropped.
pub fn place_faces(rng: &mut Lcg) -> (faces: Vec<FaceBox>)
    ensures
        (faces@, final(rng).0) == faces_run(old(rng).0),
        1 <= faces.len() <= 2,
        forall|k: int| 0 <= k < faces.len() ==> face_ok(#[trigger] faces@[k]),
        forall|b: int|
            0 <= b < faces.len() ==> far_from_faces(#[trigger] faces@.subrange(0, b), faces@[b].cx as int, faces@[b].cy as int),
{
    let ghost s0 = rng.0;
    let n = rng.range(1, 3);
    let mut faces: Vec<FaceBox> = Vec::new();
    let mut tries: i32 = 0;
    while (faces.len() as i32) < n && tries < 60
        invariant
            1 <= n <= 2,
            0 <= tries <= 60,
            faces.len() <= n,
            faces.len() <= tries,
            tries > 0 ==> faces.len() >= 1,
            forall|k: int| 0 <= k < faces.len() ==> face_ok(#[trigger] faces@[k]),
            forall|b: int|
                0 <= b < faces.len() ==> far_from_faces(#[trigger] faces@.subrange(0, b), faces@[b].cx as int, faces@[b].cy as int),
            faces_loop(n as int, faces@, tries as int, rng.0) == faces_run(s0),
        decreases 60 - tries,
    {
        tries = tries + 1;
        let w = rng.range(14, 23);
        let hw = w / 2 + 2;
        let hh = (5 * w) / 8 + 2;
        let cx = rng.range(hw, FACE_SIDE - hw);
        let cy = rng.range(hh, FACE_SIDE - hh);
        if far_from(&faces, cx, cy) {
            let skin = rng.range(175, 236);
            let ghost before = faces@;
            faces.push(FaceBox { cx, cy, w, skin });
            proof {
                assert forall|b: int| 0 <= b < faces.len() implies far_from_faces(
                    #[trigger] faces@.subrange(0, b),
                    faces@[b].cx as int,
                    faces@[b].cy as int,
                ) by {
                    if b < before.len() {
                        assert(faces@.subrange(0, b) =~= before.subrange(0, b));
                    } else {
                        assert(faces@.subrange(0, b) =~= before);
                    }
                }
            }
        }
    }
    faces
}

} // verus!
