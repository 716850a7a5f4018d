//! Bookkeeping of the synthetic face sets: what is drawn for each liveness or
//! attribute sample before it is rendered, per-kind hit counts, and the pair
//! and gallery indices of an identity-verification test set.
use crate::lcg::{below_value, lcg_step, unit_scaled, Lcg};
use crate::metrics::count_if;
use vstd::prelude::*;

verus! {

/// How a face reaches the camera: a live person or one of two spoofs.
#[derive(Clone, Copy, Debug, PartialEq, Eq, Structural)]
pub enum LiveKind {
    Real,
    Print,
    Screen,
}

/// The kind that a draw `r` in `0..4` stands for: two quarters live, then
/// print, then screen.
pub open spec fn kind_of_draw(r: nat) -> LiveKind {
    if r < 2 {
        LiveKind::Real
    } else if r == 2 {
        LiveKind::Print
    } else {
        LiveKind::Screen
    }
}

/// The fair coin that `Lcg::boolean` answers from a freshly drawn state.
pub open spec fn coin(state: u64) -> bool {
    unit_scaled(state) < 0x10_0000_0000_0000
}

/// Maps a draw of `below(4)` to its kind.
pub fn live_kind(r: u32) -> (k: LiveKind)
    ensures
        k == kind_of_draw(r as nat),
{
    if r < 2 {
        LiveKind::Real
    } else if r == 2 {
        LiveKind::Print
    } else {
        LiveKind::Screen
    }
}

/// The binary liveness label: 1 for a live face, 0 for either spoof.
pub fn live_label(k: LiveKind) -> (y: u32)
    ensures
        y == (if k == LiveKind::Real {
            1u32
        } else {
            0u32
        }),
{
    match k {
        LiveKind::Real => 1,
        _ => 0,
    }
}

/// The choices behind one rendered face.
#[derive(Clone, Copy, Debug, PartialEq, Eq, Structural)]
pub struct FaceDraw {
    pub live: LiveKind,
    pub glasses: bool,
    pub smile: bool,
    pub hat: bool,
}

/// Draws a liveness sample: a kind from `below(4)`, then the glasses, smile
/// and hat coins, in that order.
pub fn draw_liveness_face(rng: &mut Lcg) -> (f: FaceDraw)
    ensures
        f.live == kind_of_draw(below_value(lcg_step(old(rng).0), 4)),
        f.glasses == coin(lcg_step(lcg_step(old(rng).0))),
        f.smile == coin(lcg_step(lcg_step(lcg_step(old(rng).0)))),
        f.hat == coin(lcg_step(lcg_step(lcg_step(lcg_step(old(rng).0))))),
        final(rng).0 == lcg_step(lcg_step(lcg_step(lcg_step(old(rng).0)))),
{
    let r = rng.below(4);
    let live = live_kind(r);
    let glasses = rng.boolean();
    let smile = rng.boolean();
    let hat = rng.boolean();
    FaceDraw { live, glasses, smile, hat }
}

/// Draws an attribute sample: a live face with the glasses, smile and hat
/// coins drawn in that order.
pub fn draw_attribute_face(rng: &mut Lcg) -> (f: FaceDraw)
    ensures
        f.live == LiveKind::Real,
        f.glasses == coin(lcg_step(old(rng).0)),
        f.smile == coin(lcg_step(lcg_step(old(rng).0))),
        f.hat == coin(lcg_step(lcg_step(lcg_step(old(rng).0)))),
        final(rng).0 == lcg_step(lcg_step(lcg_step(old(rng).0))),
{
    let glasses = rng.boolean();
    let smile = rng.boolean();
    let hat = rng.boolean();
    FaceDraw { live: LiveKind::Real, glasses, smile, hat }
}

/// Among the samples of kind `k`: how many were predicted right, and how many
/// there are.
pub fn kind_recall(kinds: &Vec<LiveKind>, pred: &Vec<u32>, ys: &Vec<u32>, k: LiveKind) -> (r: (
    usize,
    usize,
))
    requires
        pred.len() == kinds.len(),
        ys.len() == kinds.len(),
    ensures
        r.0 == count_if(kinds.len() as int, |i: int| kinds@[i] == k && pred@[i] == ys@[i]),
        r.1 == kind_count(kinds@, k),
        r.0 <= r.1,
{
    let mut caught: usize = 0;
    let mut tot: usize = 0;
    let mut i: usize = 0;
    while i < kinds.len()
        invariant
            i <= kinds.len(),
            pred.len() == kinds.len(),
            ys.len() == kinds.len(),
            caught == count_if(i as int, |j: int| kinds@[j] == k && pred@[j] == ys@[j]),
            tot == kind_count_upto(kinds@, k, i as int),
            caught <= tot,
            tot <= i,
        decreases kinds.len() - i,
    {
        if kinds[i] == k {
            tot = tot + 1;
            if pred[i] == ys[i] {
                caught = caught + 1;
            }
        }
        i = i + 1;
    }
    (caught, tot)
}

/// Number of samples of kind `k` among the first `n`.
pub open spec fn kind_count_upto(kinds: Seq<LiveKind>, k: LiveKind, n: int) -> nat
    decreases n,
{
    if n <= 0 {
        0
    } else {
        kind_count_upto(kinds, k, n - 1) + if kinds[n - 1] == k {
            1nat
        } else {
            0nat
        }
    }
}

/// Number of samples of kind `k`.
pub open spec fn kind_count(kinds: Seq<LiveKind>, k: LiveKind) -> nat {
    kind_count_upto(kinds, k, kinds.len() as int)
}

/// Every sample is of exactly one kind, so the per-kind totals add up to the
/// whole set.
pub proof fn law_kinds_partition(kinds: Seq<LiveKind>)
    ensures
        kind_count(kinds, LiveKind::Real) + kind_count(kinds, LiveKind::Print) + kind_count(
            kinds,
            LiveKind::Screen,
        ) == kinds.len(),
{
    lemma_kind_counts(kinds, kinds.len() as int);
}

/// The per-kind counts over a prefix add up to its length.
proof fn lemma_kind_counts(kinds: Seq<LiveKind>, n: int)
    requires
        0 <= n <= kinds.len(),
    ensures
        kind_count_upto(kinds, LiveKind::Real, n) + kind_count_upto(kinds, LiveKind::Print, n)
            + kind_count_upto(kinds, LiveKind::Screen, n) == n,
    decreases n,
{
    if n > 0 {
        lemma_kind_counts(kinds, n - 1);
    }
}


/// Number of earlier samples `i < j` that share the identity of sample `j`.
pub open spec fn same_before(s: Seq<u32>, j: int) -> nat {
    count_if(j, |i: int| s[i] == s[j])
}

/// Number of earlier samples `i < j` whose identity differs from sample `j`.
pub open spec fn diff_before(s: Seq<u32>, j: int) -> nat {
    count_if(j, |i: int| s[i] != s[j])
}

/// Number of same-identity pairs `i < j` among the first `n` samples.
pub open spec fn same_pairs(s: Seq<u32>, n: int) -> nat
    decreases n,
{
    if n <= 0 {
        0
    } else {
        same_pairs(s, n - 1) + same_before(s, n - 1)
    }
}

/// Number of different-identity pairs `i < j` among the first `n` samples.
pub open spec fn diff_pairs(s: Seq<u32>, n: int) -> nat
    decreases n,
{
    if n <= 0 {
        0
    } else {
        diff_pairs(s, n - 1) + diff_before(s, n - 1)
    }
}

/// Counts the same-identity and the different-identity pairs `i < j` of a
/// labelled test set: the sizes of the two similarity lists of a
/// verification benchmark. Together they are all `n (n - 1) / 2` pairs.
pub fn pair_counts(labels: &Vec<u32>) -> (r: (u64, u64))
    requires
        labels.len() <= 0x1_0000_0000,
    ensures
        r.0 == same_pairs(labels@, labels.len() as int),
        r.1 == diff_pairs(labels@, labels.len() as int),
        2 * (r.0 + r.1) == labels.len() * (labels.len() - 1),
{
    let n = labels.len();
    let mut same: u64 = 0;
    let mut diff: u64 = 0;
    let mut j: usize = 0;
    while j < n
        invariant
            n == labels.len(),
            n <= 0x1_0000_0000,
            j <= n,
            same == same_pairs(labels@, j as int),
            diff == diff_pairs(labels@, j as int),
            2 * (same + diff) == j * (j - 1),
        decreases n - j,
    {
        let mut cs: u64 = 0;
        let mut cd: u64 = 0;
        let mut i: usize = 0;
        while i < j
            invariant
                n == labels.len(),
                j < n,
                i <= j,
                cs == count_if(i as int, |k: int| labels@[k] == labels@[j as int]),
                cd == count_if(i as int, |k: int| labels@[k] != labels@[j as int]),
                cs + cd == i,
            decreases j - i,
        {
            if labels[i] == labels[j] {
                cs = cs + 1;
            } else {
                cd = cd + 1;
            }
            i = i + 1;
        }
        proof {
            assert(j * (j - 1) + 2 * j == (j + 1) * j) by (nonlinear_arith);
            assert((j + 1) * j <= 0x1_0000_0000 * 0x1_0000_0000) by (nonlinear_arith)
                requires
                    j + 1 <= 0x1_0000_0000,
            ;
        }
        same = same + cs;
        diff = diff + cd;
        j = j + 1;
    }
    (same, diff)
}

/// Index of the first sample labelled `id`, if any.
pub fn first_index(labels: &Vec<u32>, id: u32) -> (r: Option<usize>)
    ensures
        match r {
            Some(i) => i < labels.len() && labels@[i as int] == id && forall|k: int|
                0 <= k < i ==> labels@[k] != id,
            None => forall|k: int| 0 <= k < labels.len() ==> labels@[k] != id,
        },
{
    let mut i: usize = 0;
    while i < labels.len()
        invariant
            i <= labels.len(),
            forall|k: int| 0 <= k < i ==> labels@[k] != id,
        decreases labels.len() - i,
    {
        if labels[i] == id {
            return Some(i);
        }
        i = i + 1;
    }
    None
}

/// Whether sample `i` repeats an identity seen before it.
pub open spec fn seen_before(s: Seq<u32>, i: int) -> bool {
    exists|k: int| 0 <= k < i && s[k] == s[i]
}

/// Marks the probes of an identification run: every sample but the first one
/// of its identity, which is enrolled in the gallery instead.
pub fn probe_flags(labels: &Vec<u32>) -> (flags: Vec<bool>)
    ensures
        flags.len() == labels.len(),
        forall|i: int| 0 <= i < labels.len() ==> flags@[i] == seen_before(labels@, i),
{
    let mut flags: Vec<bool> = Vec::new();
    let mut i: usize = 0;
    while i < labels.len()
        invariant
            i <= labels.len(),
            flags.len() == i,
            forall|j: int| 0 <= j < i ==> flags@[j] == seen_before(labels@, j),
        decreases labels.len() - i,
    {
        let mut seen = false;
        let mut k: usize = 0;
        while k < i
            invariant
                i < labels.len(),
                k <= i,
                seen <==> exists|m: int| 0 <= m < k && labels@[m] == labels@[i as int],
            decreases i - k,
        {
            if labels[k] == labels[i] {
                seen = true;
            }
            k = k + 1;
        }
        flags.push(seen);
        i = i + 1;
    }
    flags
}

/// Whether some sample carries identity `id`.
pub open spec fn has_label(s: Seq<u32>, id: u32) -> bool {
    exists|k: int| 0 <= k < s.len() && s[k] == id
}

/// The gallery of an identification run: for each identity `0..n_id`, the
/// index of its first sample.
pub fn gallery_indices(labels: &Vec<u32>, n_id: u32) -> (g: Vec<usize>)
    requires
        forall|id: u32| id < n_id ==> #[trigger] has_label(labels@, id),
    ensures
        g.len() == n_id,
        forall|id: int|
            0 <= id < n_id ==> {
                let i = #[trigger] g@[id];
                &&& i < labels.len()
                &&& labels@[i as int] == id
                &&& forall|k: int| 0 <= k < i ==> labels@[k] != id
            },
{
    let mut g: Vec<usize> = Vec::new();
    let mut id: u32 = 0;
    while id < n_id
        invariant
            id <= n_id,
            g.len() == id,
            forall|j: u32| j < n_id ==> #[trigger] has_label(labels@, j),
            forall|j: int|
                0 <= j < id ==> {
                    let i = #[trigger] g@[j];
                    &&& i < labels.len()
                    &&& labels@[i as int] == j
                    &&& forall|k: int| 0 <= k < i ==> labels@[k] != j
                },
        decreases n_id - id,
    {
        let f = first_index(labels, id);
        match f {
            Some(i) => {
                g.push(i);
            },
            None => {
                assert(has_label(labels@, id));
                assert(false);
            },
        }
        id = id + 1;
    }
    g
}

} // verus!
