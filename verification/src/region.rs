//! Seeded region growing on a small RGB image: starting from a clicked pixel,
//! take in every 4-connected pixel whose colour is close to the seed colour,
//! optionally kept inside a prompt box.
use vstd::prelude::*;
use std::collections::VecDeque;

verus! {

/// Side of the square images the region grower works on.
pub const SIDE: usize = 28;

/// Number of pixels of an image.
pub open spec fn npix() -> int {
    (SIDE * SIDE) as int
}

/// A pixel position, as mathematical integers.
pub type Pt = (int, int);

/// Row-major index of a pixel.
pub open spec fn idx(p: Pt) -> int {
    p.1 * SIDE + p.0
}

/// The pixel lies on the image.
pub open spec fn on_image(p: Pt) -> bool {
    0 <= p.0 < SIDE && 0 <= p.1 < SIDE
}

/// The pixel lies on the image and, when a box `[x0, y0, x1, y1]` (inclusive) is
/// given, inside that box.
pub open spec fn inside(p: Pt, bbox: Option<[i32; 4]>) -> bool {
    &&& on_image(p)
    &&& match bbox {
        Some(b) => b[0] <= p.0 <= b[2] && b[1] <= p.1 <= b[3],
        None => true,
    }
}

/// One channel of pixel `i` of an interleaved RGB buffer.
pub open spec fn chan(img: Seq<u8>, i: int, c: int) -> int {
    img[3 * i + c] as int
}

/// Squared Euclidean distance between the colours of pixels `i` and `j`.
pub open spec fn dist2(img: Seq<u8>, i: int, j: int) -> int {
    (chan(img, i, 0) - chan(img, j, 0)) * (chan(img, i, 0) - chan(img, j, 0)) + (chan(img, i, 1)
        - chan(img, j, 1)) * (chan(img, i, 1) - chan(img, j, 1)) + (chan(img, i, 2) - chan(
        img,
        j,
        2,
    )) * (chan(img, i, 2) - chan(img, j, 2))
}

/// A pixel the region may take in: inside the allowed area, and with a colour
/// closer to the seed colour than the threshold.
pub open spec fn admissible(img: Seq<u8>, seed: Pt, thr2: u32, bbox: Option<[i32; 4]>, p: Pt) -> bool {
    inside(p, bbox) && dist2(img, idx(p), idx(seed)) < thr2
}

/// The two pixels share an edge.
pub open spec fn adjacent(p: Pt, q: Pt) -> bool {
    ||| q == (p.0 - 1, p.1)
    ||| q == (p.0 + 1, p.1)
    ||| q == (p.0, p.1 - 1)
    ||| q == (p.0, p.1 + 1)
}

/// `path` starts at the seed (which must be inside the allowed area) and walks
/// through edge-adjacent admissible pixels.
pub open spec fn is_growth_path(
    img: Seq<u8>,
    seed: Pt,
    thr2: u32,
    bbox: Option<[i32; 4]>,
    path: Seq<Pt>,
) -> bool {
    &&& path.len() >= 1
    &&& path[0] == seed
    &&& inside(seed, bbox)
    &&& forall|k: int|
        1 <= k < path.len() ==> adjacent(path[k - 1], #[trigger] path[k]) && admissible(
            img,
            seed,
            thr2,
            bbox,
            path[k],
        )
}

/// The region grown from `seed` contains `p`.
pub open spec fn grown(img: Seq<u8>, seed: Pt, thr2: u32, bbox: Option<[i32; 4]>, p: Pt) -> bool {
    exists|path: Seq<Pt>| is_growth_path(img, seed, thr2, bbox, path) && path.last() == p
}

/// Number of entries of `s` that are false.
pub open spec fn falses(s: Seq<bool>) -> nat
    decreases s.len(),
{
    if s.len() == 0 {
        0
    } else {
        falses(s.drop_last()) + if s.last() {
            0nat
        } else {
            1nat
        }
    }
}

proof fn lemma_falses_set(s: Seq<bool>, i: int)
    requires
        0 <= i < s.len(),
        !s[i],
    ensures
        falses(s.update(i, true)) + 1 == falses(s),
    decreases s.len(),
{
    if i < s.len() - 1 {
        lemma_falses_set(s.drop_last(), i);
        assert(s.update(i, true).drop_last() =~= s.drop_last().update(i, true));
    } else {
        assert(s.update(i, true).drop_last() =~= s.drop_last());
    }
}

/// Every admissible neighbour of `p` is already in the region.
pub open spec fn closed_at(
    img: Seq<u8>,
    seed: Pt,
    thr2: u32,
    bbox: Option<[i32; 4]>,
    mask: Seq<bool>,
    p: Pt,
) -> bool {
    forall|q: Pt|
        adjacent(p, q) && admissible(img, seed, thr2, bbox, q) ==> #[trigger] mask[idx(q)]
}

/// Whether a pixel lies on the image and inside the optional box.
fn inside_exec(x: i32, y: i32, bbox: Option<[i32; 4]>) -> (r: bool)
    ensures
        r == inside((x as int, y as int), bbox),
{
    if x < 0 || y < 0 || x >= SIDE as i32 || y >= SIDE as i32 {
        return false;
    }
    match bbox {
        Some(b) => x >= b[0] && x <= b[2] && y >= b[1] && y <= b[3],
        None => true,
    }
}

/// Squared colour distance between two pixels of an interleaved RGB buffer.
fn color_dist2(img: &Vec<u8>, i: usize, j: usize) -> (d: u32)
    requires
        img.len() == 3 * npix(),
        i < npix(),
        j < npix(),
    ensures
        d == dist2(img@, i as int, j as int),
{
    let mut d: u32 = 0;
    let mut c: usize = 0;
    while c < 3
        invariant
            c <= 3,
            img.len() == 3 * npix(),
            i < npix(),
            j < npix(),
            d == if c == 0 {
                0
            } else if c == 1 {
                (chan(img@, i as int, 0) - chan(img@, j as int, 0)) * (chan(img@, i as int, 0)
                    - chan(img@, j as int, 0))
            } else if c == 2 {
                (chan(img@, i as int, 0) - chan(img@, j as int, 0)) * (chan(img@, i as int, 0)
                    - chan(img@, j as int, 0)) + (chan(img@, i as int, 1) - chan(img@, j as int, 1))
                    * (chan(img@, i as int, 1) - chan(img@, j as int, 1))
            } else {
                dist2(img@, i as int, j as int)
            },
            d <= c * 65025,
        decreases 3 - c,
    {
        let a = img[3 * i + c] as i32;
        let b = img[3 * j + c] as i32;
        let e = a - b;
        proof {
            assert(e * e <= 65025) by (nonlinear_arith)
                requires
                    -255 <= e <= 255,
            ;
            assert(e * e >= 0) by (nonlinear_arith);
        }
        d = d + (e * e) as u32;
        c = c + 1;
    }
    d
}

proof fn lemma_closed_mono(
    img: Seq<u8>,
    seed: Pt,
    thr2: u32,
    bbox: Option<[i32; 4]>,
    m0: Seq<bool>,
    m1: Seq<bool>,
    p: Pt,
)
    requires
        m0.len() == npix(),
        m1.len() == npix(),
        forall|i: int| 0 <= i < npix() && #[trigger] m0[i] ==> m1[i],
        closed_at(img, seed, thr2, bbox, m0, p),
    ensures
        closed_at(img, seed, thr2, bbox, m1, p),
{
    assert forall|q: Pt| adjacent(p, q) && admissible(img, seed, thr2, bbox, q) implies #[trigger] m1[idx(q)] by {
        assert(m0[idx(q)]);
    }
}

proof fn lemma_grown_step(img: Seq<u8>, seed: Pt, thr2: u32, bbox: Option<[i32; 4]>, p: Pt, n: Pt)
    requires
        grown(img, seed, thr2, bbox, p),
        adjacent(p, n),
        admissible(img, seed, thr2, bbox, n),
    ensures
        grown(img, seed, thr2, bbox, n),
{
    let path = choose|path: Seq<Pt>| is_growth_path(img, seed, thr2, bbox, path) && path.last() == p;
    let ext = path.push(n);
    assert forall|k: int| 1 <= k < ext.len() implies adjacent(ext[k - 1], #[trigger] ext[k]) && admissible(
        img,
        seed,
        thr2,
        bbox,
        ext[k],
    ) by {
        if k < path.len() {
            assert(ext[k] == path[k]);
            assert(ext[k - 1] == path[k - 1]);
        }
    }
    assert(is_growth_path(img, seed, thr2, bbox, ext));
    assert(ext.last() == n);
}

/// Every flagged pixel is reached by a growth path.
pub open spec fn sound(img: Seq<u8>, seed: Pt, thr2: u32, bbox: Option<[i32; 4]>, mask: Seq<bool>) -> bool {
    forall|x: int, y: int|
        #![trigger mask[y * SIDE + x]]
        0 <= x < SIDE && 0 <= y < SIDE && mask[y * SIDE + x] ==> grown(img, seed, thr2, bbox, (x, y))
}

/// Every flagged pixel other than `p` is queued or closed.
pub open spec fn pending(
    img: Seq<u8>,
    seed: Pt,
    thr2: u32,
    bbox: Option<[i32; 4]>,
    mask: Seq<bool>,
    q: Seq<(i32, i32)>,
    p: Pt,
) -> bool {
    forall|x: int, y: int|
        #![trigger mask[y * SIDE + x]]
        0 <= x < SIDE && 0 <= y < SIDE && mask[y * SIDE + x] ==> q.contains((x as i32, y as i32))
            || closed_at(img, seed, thr2, bbox, mask, (x, y)) || (x, y) == p
}

proof fn lemma_visit_pending(
    img: Seq<u8>,
    seed: Pt,
    thr2: u32,
    bbox: Option<[i32; 4]>,
    m: Seq<bool>,
    qq: Seq<(i32, i32)>,
    m2: Seq<bool>,
    qq2: Seq<(i32, i32)>,
    p: Pt,
    nx: i32,
    ny: i32,
)
    requires
        m.len() == npix(),
        pending(img, seed, thr2, bbox, m, qq, p),
        sound(img, seed, thr2, bbox, m),
        (m2 == m && qq2 == qq) || (admissible(img, seed, thr2, bbox, (nx as int, ny as int))
            && !m[idx((nx as int, ny as int))] && m2 == m.update(idx((nx as int, ny as int)), true)
            && qq2 == qq.push((nx, ny)) && grown(img, seed, thr2, bbox, (nx as int, ny as int))),
    ensures
        m2.len() == npix(),
        sound(img, seed, thr2, bbox, m2),
        forall|i: int| 0 <= i < npix() && #[trigger] m[i] ==> m2[i],
        pending(img, seed, thr2, bbox, m2, qq2, p),
{
    if m2 == m && qq2 == qq {
    } else {
        let n: Pt = (nx as int, ny as int);
        assert forall|x: int, y: int|
            #![trigger m2[y * SIDE + x]]
            0 <= x < SIDE && 0 <= y < SIDE && m2[y * SIDE + x] implies qq2.contains(
                (x as i32, y as i32),
            ) || closed_at(img, seed, thr2, bbox, m2, (x, y)) || (x, y) == p by {
            let e = (x as i32, y as i32);
            if (x, y) == n {
                assert(qq2[qq.len() as int] == e);
                assert(grown(img, seed, thr2, bbox, (x, y)));
            } else {
                assert(m[y * SIDE + x]);
                if qq.contains(e) {
                    let j = choose|j: int| 0 <= j < qq.len() && qq[j] == e;
                    assert(qq2[j] == e);
                } else if closed_at(img, seed, thr2, bbox, m, (x, y)) {
                    lemma_closed_mono(img, seed, thr2, bbox, m, m2, (x, y));
                }
            }
        }
    }
}

/// With nothing left to process, every pixel on a growth path is flagged.
proof fn lemma_growth_path_flagged(
    img: Seq<u8>,
    seed: Pt,
    thr2: u32,
    bbox: Option<[i32; 4]>,
    mask: Seq<bool>,
    path: Seq<Pt>,
    k: int,
)
    requires
        mask.len() == npix(),
        inside(seed, bbox) ==> mask[idx(seed)],
        forall|x: int, y: int|
            #![trigger mask[y * SIDE + x]]
            0 <= x < SIDE && 0 <= y < SIDE && mask[y * SIDE + x] ==> closed_at(
                img,
                seed,
                thr2,
                bbox,
                mask,
                (x, y),
            ),
        is_growth_path(img, seed, thr2, bbox, path),
        0 <= k < path.len(),
    ensures
        on_image(path[k]),
        mask[idx(path[k])],
    decreases k,
{
    if k > 0 {
        lemma_growth_path_flagged(img, seed, thr2, bbox, mask, path, k - 1);
        let p = path[k - 1];
        assert(mask[p.1 * SIDE + p.0]);
        assert(closed_at(img, seed, thr2, bbox, mask, p));
        assert(adjacent(p, path[k]) && admissible(img, seed, thr2, bbox, path[k]));
    }
}

/// Looks at the neighbour `(nx, ny)` of a region pixel `p`: when it is
/// admissible and not yet in the region, flags it and queues it.
fn visit(
    img: &Vec<u8>,
    mask: &mut Vec<bool>,
    q: &mut VecDeque<(i32, i32)>,
    sidx: usize,
    nx: i32,
    ny: i32,
    thr2: u32,
    bbox: Option<[i32; 4]>,
    Ghost(s): Ghost<Pt>,
    Ghost(p): Ghost<Pt>,
)
    requires
        img.len() == 3 * npix(),
        old(mask).len() == npix(),
        on_image(s),
        sidx == idx(s),
        on_image(p),
        adjacent(p, (nx as int, ny as int)),
        grown(img@, s, thr2, bbox, p),
    ensures
        final(mask).len() == npix(),
        forall|i: int| 0 <= i < npix() && #[trigger] old(mask)@[i] ==> final(mask)@[i],
        admissible(img@, s, thr2, bbox, (nx as int, ny as int)) ==> final(mask)@[idx(
            (nx as int, ny as int),
        )],
        (final(mask)@ == old(mask)@ && final(q)@ == old(q)@) || (
        admissible(img@, s, thr2, bbox, (nx as int, ny as int))
            && !old(mask)@[idx((nx as int, ny as int))]
            && final(mask)@ == old(mask)@.update(idx((nx as int, ny as int)), true)
            && final(q)@ == old(q)@.push((nx, ny))
            && falses(final(mask)@) + 1 == falses(old(mask)@)
            && grown(img@, s, thr2, bbox, (nx as int, ny as int))),
{
    if !inside_exec(nx, ny, bbox) {
        return;
    }
    let i = ny as usize * SIDE + nx as usize;
    if mask[i] {
        return;
    }
    let d = color_dist2(img, i, sidx);
    if d < thr2 {
        proof {
            lemma_falses_set(mask@, i as int);
            lemma_grown_step(img@, s, thr2, bbox, p, (nx as int, ny as int));
        }
        mask.set(i, true);
        q.push_back((nx, ny));
    }
}

/// Grows a region from `seed` (which must lie on the image) over the
/// interleaved RGB buffer `img`, taking in 4-connected pixels whose squared
/// colour distance to the seed pixel is below `thr2`, restricted to `bbox`
/// when one is given. The answer is a mask with one flag per pixel.
pub fn region_grow(img: &Vec<u8>, seed: (i32, i32), thr2: u32, bbox: Option<[i32; 4]>) -> (mask:
    Vec<bool>)
    requires
        img.len() == 3 * npix(),
        on_image((seed.0 as int, seed.1 as int)),
    ensures
        mask.len() == npix(),
        forall|x: int, y: int|
            #![trigger mask@[y * SIDE + x]]
            0 <= x < SIDE && 0 <= y < SIDE ==> mask@[y * SIDE + x] == grown(
                img@,
                (seed.0 as int, seed.1 as int),
                thr2,
                bbox,
                (x, y),
            ),
{
    let ghost s: Pt = (seed.0 as int, seed.1 as int);
    let ghost im = img@;
    let mut mask: Vec<bool> = Vec::new();
    let mut k: usize = 0;
    while k < SIDE * SIDE
        invariant
            k <= npix(),
            mask.len() == k,
            forall|i: int| 0 <= i < k ==> !mask@[i],
        decreases npix() - k,
    {
        mask.push(false);
        k = k + 1;
    }
    let sidx = seed.1 as usize * SIDE + seed.0 as usize;
    let mut q: VecDeque<(i32, i32)> = VecDeque::new();
    if inside_exec(seed.0, seed.1, bbox) {
        mask.set(sidx, true);
        q.push_back(seed);
        proof {
            let path = seq![s];
            assert(is_growth_path(im, s, thr2, bbox, path));
            assert(path.last() == s);
            assert(grown(im, s, thr2, bbox, s));
            assert(q@[0] == seed);
            assert forall|x: int, y: int|
                #![trigger mask@[y * SIDE + x]]
                0 <= x < SIDE && 0 <= y < SIDE && mask@[y * SIDE + x] implies (x, y) == s by {
                if (x, y) != s {
                    assert(mask@[y * SIDE + x] == !mask@[y * SIDE + x] || y * SIDE + x != idx(s));
                }
            }
        }
    }
    while q.len() > 0
        invariant
            img@ == im,
            img.len() == 3 * npix(),
            on_image(s),
            s == (seed.0 as int, seed.1 as int),
            sidx == idx(s),
            mask.len() == npix(),
            sound(im, s, thr2, bbox, mask@),
            // queued pixels are on the image and flagged
            forall|j: int|
                0 <= j < q@.len() ==> on_image(
                    (#[trigger] q@[j].0 as int, q@[j].1 as int),
                ) && mask@[idx((q@[j].0 as int, q@[j].1 as int))],
            // a flagged pixel is either still queued or has all its admissible neighbours flagged
            forall|x: int, y: int|
                #![trigger mask@[y * SIDE + x]]
                0 <= x < SIDE && 0 <= y < SIDE && mask@[y * SIDE + x] ==> q@.contains(
                    (x as i32, y as i32),
                ) || closed_at(im, s, thr2, bbox, mask@, (x, y)),
            inside(s, bbox) ==> mask@[idx(s)],
            !inside(s, bbox) ==> forall|i: int| 0 <= i < npix() ==> !mask@[i],
        decreases 2 * falses(mask@) + q@.len(),
    {
        let ghost q0 = q@;
        let ghost m0 = mask@;
        let head = q.pop_front();
        let (x, y) = match head {
            Some(h) => h,
            None => (0, 0),
        };
        let ghost p: Pt = (x as int, y as int);
        proof {
            assert(q0[0] == (x, y));
            assert(on_image(p));
            assert(mask@[p.1 * SIDE + p.0]);
        }
        let ghost q1 = q@;
        let ghost m1 = mask@;
        visit(img, &mut mask, &mut q, sidx, x - 1, y, thr2, bbox, Ghost(s), Ghost(p));
        let ghost m2 = mask@;
        let ghost qa = q@;
        visit(img, &mut mask, &mut q, sidx, x + 1, y, thr2, bbox, Ghost(s), Ghost(p));
        let ghost m3 = mask@;
        let ghost qb = q@;
        visit(img, &mut mask, &mut q, sidx, x, y - 1, thr2, bbox, Ghost(s), Ghost(p));
        let ghost m4 = mask@;
        let ghost qc = q@;
        visit(img, &mut mask, &mut q, sidx, x, y + 1, thr2, bbox, Ghost(s), Ghost(p));
        proof {
            // flags only grow
            assert forall|i: int| 0 <= i < npix() && #[trigger] m0[i] implies mask@[i] by {
                assert(m2[i]);
                assert(m3[i]);
                assert(m4[i]);
            }
            // the popped pixel now has all its admissible neighbours flagged
            assert(closed_at(im, s, thr2, bbox, mask@, p)) by {
                assert forall|n: Pt| adjacent(p, n) && admissible(im, s, thr2, bbox, n) implies #[trigger] mask@[idx(n)] by {
                    if n == (p.0 - 1, p.1) {
                        assert(m2[idx(n)]);
                        assert(m3[idx(n)]);
                        assert(m4[idx(n)]);
                    } else if n == (p.0 + 1, p.1) {
                        assert(m3[idx(n)]);
                        assert(m4[idx(n)]);
                    } else if n == (p.0, p.1 - 1) {
                        assert(m4[idx(n)]);
                    }
                }
            }
            assert(q1 =~= q0.subrange(1, q0.len() as int));
            assert(pending(im, s, thr2, bbox, m1, q1, p)) by {
                assert forall|x2: int, y2: int|
                    #![trigger m1[y2 * SIDE + x2]]
                    0 <= x2 < SIDE && 0 <= y2 < SIDE && m1[y2 * SIDE + x2] implies q1.contains(
                        (x2 as i32, y2 as i32),
                    ) || closed_at(im, s, thr2, bbox, m1, (x2, y2)) || (x2, y2) == p by {
                    let e = (x2 as i32, y2 as i32);
                    if (x2, y2) != p && q0.contains(e) {
                        let j = choose|j: int| 0 <= j < q0.len() && q0[j] == e;
                        assert(j != 0);
                        assert(q1[j - 1] == e);
                    }
                }
            }
            lemma_visit_pending(im, s, thr2, bbox, m1, q1, m2, qa, p, (x - 1) as i32, y);
            lemma_visit_pending(im, s, thr2, bbox, m2, qa, m3, qb, p, (x + 1) as i32, y);
            lemma_visit_pending(im, s, thr2, bbox, m3, qb, m4, qc, p, x, (y - 1) as i32);
            lemma_visit_pending(im, s, thr2, bbox, m4, qc, mask@, q@, p, x, (y + 1) as i32);
        }
    }
    proof {
        assert forall|x: int, y: int|
            #![trigger mask@[y * SIDE + x]]
            0 <= x < SIDE && 0 <= y < SIDE implies mask@[y * SIDE + x] == grown(
                im,
                s,
                thr2,
                bbox,
                (x, y),
            ) by {
            if grown(im, s, thr2, bbox, (x, y)) {
                let path = choose|path: Seq<Pt>|
                    is_growth_path(im, s, thr2, bbox, path) && path.last() == (x, y);
                lemma_growth_path_flagged(im, s, thr2, bbox, mask@, path, path.len() - 1);
            }
        }
    }
    mask
}

/// A box prompt confines the region: every grown pixel lies inside the box.
pub proof fn law_grown_inside_box(img: Seq<u8>, seed: Pt, thr2: u32, b: [i32; 4], p: Pt)
    requires
        grown(img, seed, thr2, Some(b), p),
    ensures
        b[0] <= p.0 <= b[2],
        b[1] <= p.1 <= b[3],
        on_image(p),
{
    let path = choose|path: Seq<Pt>| is_growth_path(img, seed, thr2, Some(b), path) && path.last() == p;
    if path.len() > 1 {
        assert(admissible(img, seed, thr2, Some(b), path[path.len() - 1]));
    }
}

/// Loosening the colour threshold never shrinks the region.
pub proof fn law_grown_monotone_in_threshold(
    img: Seq<u8>,
    seed: Pt,
    thr2: u32,
    thr2_loose: u32,
    bbox: Option<[i32; 4]>,
    p: Pt,
)
    requires
        thr2 <= thr2_loose,
        grown(img, seed, thr2, bbox, p),
    ensures
        grown(img, seed, thr2_loose, bbox, p),
{
    let path = choose|path: Seq<Pt>| is_growth_path(img, seed, thr2, bbox, path) && path.last() == p;
    assert(is_growth_path(img, seed, thr2_loose, bbox, path));
}

/// Adding a box prompt never enlarges the region.
pub proof fn law_box_prompt_shrinks(img: Seq<u8>, seed: Pt, thr2: u32, b: [i32; 4], p: Pt)
    requires
        grown(img, seed, thr2, Some(b), p),
    ensures
        grown(img, seed, thr2, None, p),
{
    let path = choose|path: Seq<Pt>| is_growth_path(img, seed, thr2, Some(b), path) && path.last() == p;
    assert(is_growth_path(img, seed, thr2, None, path));
}

/// The seed belongs to its own region exactly when it lies inside the allowed area.
pub proof fn law_seed_in_region(img: Seq<u8>, seed: Pt, thr2: u32, bbox: Option<[i32; 4]>)
    ensures
        grown(img, seed, thr2, bbox, seed) == inside(seed, bbox),
{
    if inside(seed, bbox) {
        let path = seq![seed];
        assert(is_growth_path(img, seed, thr2, bbox, path));
        assert(path.last() == seed);
    }
}

/// The squared distance between the colours at byte offsets `a` and `b` of an
/// interleaved RGB buffer, summed over red, green and blue.
pub open spec fn rgb_gap2(img: Seq<u8>, a: int, b: int) -> int {
    let dr = img[a] as int - img[b] as int;
    let dg = img[a + 1] as int - img[b + 1] as int;
    let db = img[a + 2] as int - img[b + 2] as int;
    dr * dr + dg * dg + db * db
}

/// Every pixel the region takes in besides the seed has a colour whose squared
/// distance to the seed colour, over all three channels, is below the
/// threshold, and shares an edge with another pixel of the region; and a pixel
/// sharing an edge with the seed, on the image, inside the box prompt if any,
/// and that close in colour, is always taken in (as is the seed itself when it
/// lies inside the box).
pub proof fn law_grown_colour_within_threshold(
    img: Seq<u8>,
    seed: Pt,
    thr2: u32,
    bbox: Option<[i32; 4]>,
    p: Pt,
)
    ensures
        grown(img, seed, thr2, bbox, p) && p != seed ==> rgb_gap2(
            img,
            3 * (p.1 * 28 + p.0),
            3 * (seed.1 * 28 + seed.0),
        ) < thr2,
        grown(img, seed, thr2, bbox, p) && p != seed ==> exists|q: Pt|
            #![trigger grown(img, seed, thr2, bbox, q)]
            grown(img, seed, thr2, bbox, q) && (q.0 - p.0) * (q.0 - p.0) + (q.1 - p.1) * (q.1 - p.1) == 1,
        ({
            let in_box = |q: Pt|
                0 <= q.0 < 28 && 0 <= q.1 < 28 && match bbox {
                    Some(b) => b[0] <= q.0 <= b[2] && b[1] <= q.1 <= b[3],
                    None => true,
                };
            in_box(seed) && in_box(p) && (p.0 - seed.0) * (p.0 - seed.0) + (p.1 - seed.1) * (p.1 - seed.1) == 1
                && rgb_gap2(img, 3 * (p.1 * 28 + p.0), 3 * (seed.1 * 28 + seed.0)) < thr2 ==> grown(
                img,
                seed,
                thr2,
                bbox,
                p,
            )
        }),
{
    let a = 3 * (p.1 * 28 + p.0);
    let b = 3 * (seed.1 * 28 + seed.0);
    assert(dist2(img, idx(p), idx(seed)) == rgb_gap2(img, a, b));
    if grown(img, seed, thr2, bbox, p) && p != seed {
        let path = choose|path: Seq<Pt>| is_growth_path(img, seed, thr2, bbox, path) && path.last() == p;
        assert(path.len() > 1);
        let k = path.len() - 1;
        assert(admissible(img, seed, thr2, bbox, path[k]));
        assert(adjacent(path[k - 1], path[k]));
        let pre = path.subrange(0, k);
        assert forall|j: int| 1 <= j < pre.len() implies adjacent(pre[j - 1], #[trigger] pre[j]) && admissible(
            img,
            seed,
            thr2,
            bbox,
            pre[j],
        ) by {
            assert(pre[j] == path[j]);
            assert(pre[j - 1] == path[j - 1]);
        }
        assert(is_growth_path(img, seed, thr2, bbox, pre));
        let q = path[k - 1];
        assert(pre.last() == q);
        assert(grown(img, seed, thr2, bbox, q));
        let (dx, dy) = (q.0 - p.0, q.1 - p.1);
        assert((dx == 1 || dx == -1) && dy == 0 || dx == 0 && (dy == 1 || dy == -1));
        assert(dx * dx + dy * dy == 1) by (nonlinear_arith)
            requires
                (dx == 1 || dx == -1) && dy == 0 || dx == 0 && (dy == 1 || dy == -1),
        ;
    }
    if inside(seed, bbox) && inside(p, bbox) && (p.0 - seed.0) * (p.0 - seed.0) + (p.1 - seed.1) * (p.1
        - seed.1) == 1 {
        assert(adjacent(seed, p)) by (nonlinear_arith)
            requires
                (p.0 - seed.0) * (p.0 - seed.0) + (p.1 - seed.1) * (p.1 - seed.1) == 1,
        {
            let dx = p.0 - seed.0;
            let dy = p.1 - seed.1;
            assert(dx * dx >= 0 && dy * dy >= 0);
            if dx != 0 && dy != 0 {
                assert(dx * dx >= 1 && dy * dy >= 1);
            }
            if dx == 0 {
                assert(dy * dy == 1);
                assert(dy == 1 || dy == -1) by (nonlinear_arith) requires dy * dy == 1;
            } else {
                assert(dy == 0);
                assert(dx == 1 || dx == -1) by (nonlinear_arith) requires dx * dx == 1;
            }
        }
        if rgb_gap2(img, a, b) < thr2 {
            law_seed_in_region(img, seed, thr2, bbox);
            lemma_grown_step(img, seed, thr2, bbox, seed, p);
        }
    }
}

} // verus!
