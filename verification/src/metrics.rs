//! Counting metrics: pixel counts of masks, intersection and union of two
//! masks, classification hits, binary confusion counts and per-class
//! segmentation counts. Ratios are taken by the caller.
use vstd::prelude::*;

verus! {

/// Number of indices `i` in `0..n` for which `p(i)` holds.
pub open spec fn count_if(n: int, p: spec_fn(int) -> bool) -> nat
    decreases n,
{
    if n <= 0 {
        0
    } else {
        count_if(n - 1, p) + if p(n - 1) {
            1nat
        } else {
            0nat
        }
    }
}

/// `sum_{c < k} f(c)`.
pub open spec fn sum_upto(k: int, f: spec_fn(int) -> nat) -> nat
    decreases k,
{
    if k <= 0 {
        0
    } else {
        sum_upto(k - 1, f) + f(k - 1)
    }
}

/// Number of set flags in a mask.
pub open spec fn ones(m: Seq<bool>) -> nat {
    count_if(m.len() as int, |i: int| m[i])
}

/// Number of pixels set in both masks.
pub open spec fn inter_count(a: Seq<bool>, b: Seq<bool>) -> nat {
    count_if(a.len() as int, |i: int| a[i] && b[i])
}

/// Number of pixels set in either mask.
pub open spec fn union_count(a: Seq<bool>, b: Seq<bool>) -> nat {
    count_if(a.len() as int, |i: int| a[i] || b[i])
}

/// `count_if` only looks at the indices below `n`.
pub proof fn lemma_count_if_ext(n: int, p: spec_fn(int) -> bool, q: spec_fn(int) -> bool)
    requires
        forall|i: int| 0 <= i < n ==> #[trigger] p(i) == q(i),
    ensures
        count_if(n, p) == count_if(n, q),
    decreases n,
{
    if n > 0 {
        lemma_count_if_ext(n - 1, p, q);
    }
}

/// Never more than the number of indices looked at.
pub proof fn lemma_count_if_bound(n: int, p: spec_fn(int) -> bool)
    ensures
        n >= 0 ==> count_if(n, p) <= n,
    decreases n,
{
    if n > 0 {
        lemma_count_if_bound(n - 1, p);
    }
}

/// Counting `p && q` and `p || q` together counts `p` and `q` together.
pub proof fn lemma_inclusion_exclusion(n: int, p: spec_fn(int) -> bool, q: spec_fn(int) -> bool)
    ensures
        count_if(n, |i: int| p(i) && q(i)) + count_if(n, |i: int| p(i) || q(i)) == count_if(n, p)
            + count_if(n, q),
        count_if(n, |i: int| p(i) && q(i)) <= count_if(n, p),
        count_if(n, p) <= count_if(n, |i: int| p(i) || q(i)),
    decreases n,
{
    if n > 0 {
        lemma_inclusion_exclusion(n - 1, p, q);
    }
}

/// Counts the set flags of a mask.
pub fn count(mask: &Vec<bool>) -> (r: usize)
    ensures
        r == ones(mask@),
{
    let mut r: usize = 0;
    let mut i: usize = 0;
    while i < mask.len()
        invariant
            i <= mask.len(),
            r == count_if(i as int, |k: int| mask@[k]),
            r <= i,
        decreases mask.len() - i,
    {
        if mask[i] {
            r = r + 1;
        }
        i = i + 1;
    }
    r
}

/// Intersection and union sizes of two masks of one length, the two counts
/// behind their IoU.
pub fn mask_iou_counts(a: &Vec<bool>, b: &Vec<bool>) -> (r: (usize, usize))
    requires
        a.len() == b.len(),
    ensures
        r.0 == inter_count(a@, b@),
        r.1 == union_count(a@, b@),
        r.0 + r.1 == ones(a@) + ones(b@),
        r.0 <= r.1,
{
    let mut inter: usize = 0;
    let mut uni: usize = 0;
    let mut i: usize = 0;
    while i < a.len()
        invariant
            i <= a.len(),
            a.len() == b.len(),
            inter == count_if(i as int, |k: int| a@[k] && b@[k]),
            uni == count_if(i as int, |k: int| a@[k] || b@[k]),
            inter <= i,
            uni <= i,
        decreases a.len() - i,
    {
        if a[i] && b[i] {
            inter = inter + 1;
        }
        if a[i] || b[i] {
            uni = uni + 1;
        }
        i = i + 1;
    }
    proof {
        let pa = |k: int| a@[k];
        let pb = |k: int| b@[k];
        lemma_inclusion_exclusion(a.len() as int, pa, pb);
        lemma_count_if_ext(a.len() as int, |k: int| pa(k) && pb(k), |k: int| a@[k] && b@[k]);
        lemma_count_if_ext(a.len() as int, |k: int| pa(k) || pb(k), |k: int| a@[k] || b@[k]);
        lemma_count_if_ext(b.len() as int, pb, |k: int| b@[k]);
        lemma_count_if_bound(a.len() as int, pa);
    }
    (inter, uni)
}

/// Total of a sequence of counters.
pub open spec fn seq_sum(s: Seq<usize>) -> nat
    decreases s.len(),
{
    if s.len() == 0 {
        0
    } else {
        seq_sum(s.drop_last()) + s.last() as nat
    }
}

proof fn lemma_seq_sum_bump(s: Seq<usize>, j: int)
    requires
        0 <= j < s.len(),
        s[j] < usize::MAX,
    ensures
        seq_sum(s.update(j, (s[j] + 1) as usize)) == seq_sum(s) + 1,
    decreases s.len(),
{
    let t = s.update(j, (s[j] + 1) as usize);
    if j < s.len() - 1 {
        lemma_seq_sum_bump(s.drop_last(), j);
        assert(t.drop_last() =~= s.drop_last().update(j, (s[j] + 1) as usize));
    } else {
        assert(t.drop_last() =~= s.drop_last());
    }
}

proof fn lemma_seq_sum_zeros(s: Seq<usize>)
    requires
        forall|j: int| 0 <= j < s.len() ==> s[j] == 0,
    ensures
        seq_sum(s) == 0,
    decreases s.len(),
{
    if s.len() > 0 {
        lemma_seq_sum_zeros(s.drop_last());
    }
}

/// Splitting a count on a second condition.
pub proof fn lemma_count_split(n: int, p: spec_fn(int) -> bool, q: spec_fn(int) -> bool)
    ensures
        count_if(n, |i: int| p(i) && q(i)) + count_if(n, |i: int| p(i) && !q(i)) == count_if(n, p),
    decreases n,
{
    if n > 0 {
        lemma_count_split(n - 1, p, q);
    }
}

/// Number of positions where two label sequences agree, over the shorter one.
pub fn match_count(pred: &Vec<u32>, y: &Vec<u32>) -> (r: usize)
    ensures
        r == count_if(
            if pred.len() < y.len() {
                pred.len() as int
            } else {
                y.len() as int
            },
            |i: int| pred@[i] == y@[i],
        ),
{
    let n = if pred.len() < y.len() {
        pred.len()
    } else {
        y.len()
    };
    let mut r: usize = 0;
    let mut i: usize = 0;
    while i < n
        invariant
            i <= n,
            n <= pred.len(),
            n <= y.len(),
            r == count_if(i as int, |k: int| pred@[k] == y@[k]),
            r <= i,
        decreases n - i,
    {
        if pred[i] == y[i] {
            r = r + 1;
        }
        i = i + 1;
    }
    r
}

/// Counts of a binary decision against the truth.
pub struct Confusion {
    /// Predicted and true.
    pub tp: usize,
    /// Predicted but false.
    pub fp: usize,
    /// Missed: not predicted but true.
    pub fn_: usize,
    /// Neither predicted nor true.
    pub tn: usize,
}

/// The confusion counts of predictions `pred` against the truth `gt`.
pub fn confusion_counts(pred: &Vec<bool>, gt: &Vec<bool>) -> (c: Confusion)
    requires
        pred.len() == gt.len(),
    ensures
        c.tp == count_if(pred.len() as int, |i: int| pred@[i] && gt@[i]),
        c.fp == count_if(pred.len() as int, |i: int| pred@[i] && !gt@[i]),
        c.fn_ == count_if(pred.len() as int, |i: int| !pred@[i] && gt@[i]),
        c.tn == count_if(pred.len() as int, |i: int| !pred@[i] && !gt@[i]),
        c.tp + c.fp + c.fn_ + c.tn == pred.len(),
        c.tp + c.fn_ == ones(gt@),
        c.tp + c.fp == ones(pred@),
{
    let mut c = Confusion { tp: 0, fp: 0, fn_: 0, tn: 0 };
    let mut i: usize = 0;
    while i < pred.len()
        invariant
            i <= pred.len(),
            pred.len() == gt.len(),
            c.tp == count_if(i as int, |k: int| pred@[k] && gt@[k]),
            c.fp == count_if(i as int, |k: int| pred@[k] && !gt@[k]),
            c.fn_ == count_if(i as int, |k: int| !pred@[k] && gt@[k]),
            c.tn == count_if(i as int, |k: int| !pred@[k] && !gt@[k]),
            c.tp + c.fp + c.fn_ + c.tn == i,
        decreases pred.len() - i,
    {
        if pred[i] && gt[i] {
            c.tp = c.tp + 1;
        } else if pred[i] {
            c.fp = c.fp + 1;
        } else if gt[i] {
            c.fn_ = c.fn_ + 1;
        } else {
            c.tn = c.tn + 1;
        }
        i = i + 1;
    }
    proof {
        let n = pred.len() as int;
        let pp = |k: int| pred@[k];
        let pg = |k: int| gt@[k];
        let np = |k: int| !pred@[k];
        lemma_count_split(n, pp, pg);
        lemma_count_split(n, pg, pp);
        lemma_count_if_ext(n, |k: int| pp(k) && pg(k), |k: int| pred@[k] && gt@[k]);
        lemma_count_if_ext(n, |k: int| pp(k) && !pg(k), |k: int| pred@[k] && !gt@[k]);
        lemma_count_if_ext(n, |k: int| pg(k) && pp(k), |k: int| pred@[k] && gt@[k]);
        lemma_count_if_ext(n, |k: int| pg(k) && !pp(k), |k: int| !pred@[k] && gt@[k]);
    }
    c
}

/// How many labels fall in each class `0..nc`.
pub fn class_histogram(labels: &Vec<u32>, nc: usize) -> (hist: Vec<usize>)
    requires
        forall|i: int| 0 <= i < labels.len() ==> labels@[i] < nc,
    ensures
        hist.len() == nc,
        forall|c: int| 0 <= c < nc ==> #[trigger] hist@[c] == count_if(labels.len() as int, |i: int| labels@[i] == c),
        seq_sum(hist@) == labels.len(),
{
    let mut hist: Vec<usize> = Vec::new();
    let mut c: usize = 0;
    while c < nc
        invariant
            c <= nc,
            hist.len() == c,
            forall|j: int| 0 <= j < c ==> hist@[j] == 0,
        decreases nc - c,
    {
        hist.push(0);
        c = c + 1;
    }
    proof {
        lemma_seq_sum_zeros(hist@);
    }
    let mut i: usize = 0;
    while i < labels.len()
        invariant
            i <= labels.len(),
            hist.len() == nc,
            forall|i2: int| 0 <= i2 < labels.len() ==> labels@[i2] < nc,
            forall|c2: int| 0 <= c2 < nc ==> #[trigger] hist@[c2] == count_if(i as int, |k: int| labels@[k] == c2),
            forall|c2: int| 0 <= c2 < nc ==> #[trigger] hist@[c2] <= i,
            seq_sum(hist@) == i,
        decreases labels.len() - i,
    {
        let l = labels[i] as usize;
        proof {
            lemma_seq_sum_bump(hist@, l as int);
        }
        let v = hist[l];
        hist.set(l, v + 1);
        i = i + 1;
    }
    hist
}

/// Per-image segmentation counts: agreeing pixels, and for each class the
/// pixels where prediction and truth both carry it (intersection) or either
/// does (union).
pub struct SegCounts {
    pub correct: usize,
    pub total: usize,
    pub inter: Vec<usize>,
    pub union: Vec<usize>,
}

/// The segmentation counts of predicted labels `pred` against the truth `gt`
/// for classes `0..nc`.
pub fn segmentation_counts(pred: &Vec<u32>, gt: &Vec<u32>, nc: usize) -> (r: SegCounts)
    requires
        pred.len() == gt.len(),
    ensures
        r.total == pred.len(),
        r.correct == count_if(pred.len() as int, |i: int| pred@[i] == gt@[i]),
        r.inter.len() == nc,
        r.union.len() == nc,
        forall|c: int|
            0 <= c < nc ==> #[trigger] r.inter@[c] == count_if(
                pred.len() as int,
                |i: int| pred@[i] == c && gt@[i] == c,
            ),
        forall|c: int|
            0 <= c < nc ==> #[trigger] r.union@[c] == count_if(
                pred.len() as int,
                |i: int| pred@[i] == c || gt@[i] == c,
            ),
        forall|c: int| 0 <= c < nc ==> #[trigger] r.inter@[c] <= r.union@[c],
        (forall|i: int| 0 <= i < pred.len() ==> pred@[i] < nc && gt@[i] < nc) ==> seq_sum(
            r.inter@,
        ) == r.correct,
{
    let n = pred.len();
    let mut inter: Vec<usize> = Vec::new();
    let mut uni: Vec<usize> = Vec::new();
    let mut c: usize = 0;
    while c < nc
        invariant
            c <= nc,
            inter.len() == c,
            uni.len() == c,
            forall|j: int| 0 <= j < c ==> inter@[j] == 0 && uni@[j] == 0,
        decreases nc - c,
    {
        inter.push(0);
        uni.push(0);
        c = c + 1;
    }
    proof {
        lemma_seq_sum_zeros(inter@);
    }
    let mut correct: usize = 0;
    let mut i: usize = 0;
    while i < n
        invariant
            i <= n,
            n == pred.len(),
            n == gt.len(),
            inter.len() == nc,
            uni.len() == nc,
            correct == count_if(i as int, |k: int| pred@[k] == gt@[k]),
            correct <= i,
            forall|c2: int|
                0 <= c2 < nc ==> #[trigger] inter@[c2] == count_if(
                    i as int,
                    |k: int| pred@[k] == c2 && gt@[k] == c2,
                ),
            forall|c2: int|
                0 <= c2 < nc ==> #[trigger] uni@[c2] == count_if(
                    i as int,
                    |k: int| pred@[k] == c2 || gt@[k] == c2,
                ),
            forall|c2: int| 0 <= c2 < nc ==> #[trigger] uni@[c2] <= i,
            forall|c2: int| 0 <= c2 < nc ==> #[trigger] inter@[c2] <= uni@[c2],
            seq_sum(inter@) == count_if(i as int, |k: int| pred@[k] == gt@[k] && pred@[k] < nc),
        decreases n - i,
    {
        let p = pred[i];
        let g = gt[i];
        if p == g {
            correct = correct + 1;
        }
        let ghost before = inter@;
        let mut cls: usize = 0;
        while cls < nc
            invariant
                cls <= nc,
                i < n,
                n == pred.len(),
                n == gt.len(),
                p == pred@[i as int],
                g == gt@[i as int],
                inter.len() == nc,
                uni.len() == nc,
                forall|c2: int|
                    0 <= c2 < cls ==> #[trigger] inter@[c2] == count_if(
                        i + 1,
                        |k: int| pred@[k] == c2 && gt@[k] == c2,
                    ),
                forall|c2: int|
                    cls <= c2 < nc ==> #[trigger] inter@[c2] == count_if(
                        i as int,
                        |k: int| pred@[k] == c2 && gt@[k] == c2,
                    ),
                forall|c2: int|
                    0 <= c2 < cls ==> #[trigger] uni@[c2] == count_if(
                        i + 1,
                        |k: int| pred@[k] == c2 || gt@[k] == c2,
                    ),
                forall|c2: int|
                    cls <= c2 < nc ==> #[trigger] uni@[c2] == count_if(
                        i as int,
                        |k: int| pred@[k] == c2 || gt@[k] == c2,
                    ),
                forall|c2: int| 0 <= c2 < cls ==> #[trigger] uni@[c2] <= i + 1,
                forall|c2: int| cls <= c2 < nc ==> #[trigger] uni@[c2] <= i,
                forall|c2: int| 0 <= c2 < nc ==> #[trigger] inter@[c2] <= uni@[c2],
                seq_sum(inter@) == seq_sum(before) + if p == g && (p as int) < cls {
                    1int
                } else {
                    0int
                },
            decreases nc - cls,
        {
            let in_p = p as usize == cls;
            let in_g = g as usize == cls;
            if in_p && in_g {
                proof {
                    lemma_seq_sum_bump(inter@, cls as int);
                }
                let v = inter[cls];
                inter.set(cls, v + 1);
            }
            if in_p || in_g {
                let v = uni[cls];
                uni.set(cls, v + 1);
            }
            cls = cls + 1;
        }
        i = i + 1;
    }
    proof {
        if forall|k: int| 0 <= k < n ==> pred@[k] < nc && gt@[k] < nc {
            lemma_count_if_ext(
                n as int,
                |k: int| pred@[k] == gt@[k] && pred@[k] < nc,
                |k: int| pred@[k] == gt@[k],
            );
        }
    }
    SegCounts { correct, total: n, inter, union: uni }
}

/// Whether `x` occurs in `v`.
pub fn contains_label(v: &Vec<u32>, x: u32) -> (b: bool)
    ensures
        b == v@.contains(x),
{
    let mut i: usize = 0;
    while i < v.len()
        invariant
            i <= v.len(),
            forall|k: int| 0 <= k < i ==> v@[k] != x,
        decreases v.len() - i,
    {
        if v[i] == x {
            proof {
                assert(v@[i as int] == x);
            }
            return true;
        }
        i = i + 1;
    }
    false
}

/// Zero-shot results split by whether the true class was held out of
/// training. Classes are `3 * colour + shape`, so a held-out prediction can
/// also be judged on its colour and on its shape alone.
pub struct HeldOutBreakdown {
    pub seen_ok: usize,
    pub seen_n: usize,
    pub unseen_ok: usize,
    pub unseen_n: usize,
    pub unseen_colour: usize,
    pub unseen_shape: usize,
}

/// Counts hits of predictions `pred` against labels `labels`, split by
/// whether the label is in `held`.
pub fn held_out_breakdown(pred: &Vec<u32>, labels: &Vec<u32>, held: &Vec<u32>) -> (r: HeldOutBreakdown)
    requires
        pred.len() == labels.len(),
    ensures
        r.seen_n == count_if(labels.len() as int, |i: int| !held@.contains(labels@[i])),
        r.seen_ok == count_if(labels.len() as int, |i: int| !held@.contains(labels@[i]) && pred@[i] == labels@[i]),
        r.unseen_n == count_if(labels.len() as int, |i: int| held@.contains(labels@[i])),
        r.unseen_ok == count_if(labels.len() as int, |i: int| held@.contains(labels@[i]) && pred@[i] == labels@[i]),
        r.unseen_colour == count_if(
            labels.len() as int,
            |i: int| held@.contains(labels@[i]) && pred@[i] / 3 == labels@[i] / 3,
        ),
        r.unseen_shape == count_if(
            labels.len() as int,
            |i: int| held@.contains(labels@[i]) && pred@[i] % 3 == labels@[i] % 3,
        ),
        r.seen_n + r.unseen_n == labels.len(),
{
    let mut r = HeldOutBreakdown { seen_ok: 0, seen_n: 0, unseen_ok: 0, unseen_n: 0, unseen_colour: 0, unseen_shape: 0 };
    let mut i: usize = 0;
    while i < labels.len()
        invariant
            i <= labels.len(),
            pred.len() == labels.len(),
            r.seen_n == count_if(i as int, |k: int| !held@.contains(labels@[k])),
            r.seen_ok == count_if(i as int, |k: int| !held@.contains(labels@[k]) && pred@[k] == labels@[k]),
            r.unseen_n == count_if(i as int, |k: int| held@.contains(labels@[k])),
            r.unseen_ok == count_if(i as int, |k: int| held@.contains(labels@[k]) && pred@[k] == labels@[k]),
            r.unseen_colour == count_if(i as int, |k: int| held@.contains(labels@[k]) && pred@[k] / 3 == labels@[k] / 3),
            r.unseen_shape == count_if(i as int, |k: int| held@.contains(labels@[k]) && pred@[k] % 3 == labels@[k] % 3),
            r.seen_n + r.unseen_n == i,
            r.seen_ok <= r.seen_n,
            r.unseen_ok <= r.unseen_n,
            r.unseen_colour <= r.unseen_n,
            r.unseen_shape <= r.unseen_n,
        decreases labels.len() - i,
    {
        let (p, l) = (pred[i], labels[i]);
        if contains_label(held, l) {
            r.unseen_n = r.unseen_n + 1;
            if p == l {
                r.unseen_ok = r.unseen_ok + 1;
            }
            if p / 3 == l / 3 {
                r.unseen_colour = r.unseen_colour + 1;
            }
            if p % 3 == l % 3 {
                r.unseen_shape = r.unseen_shape + 1;
            }
        } else {
            r.seen_n = r.seen_n + 1;
            if p == l {
                r.seen_ok = r.seen_ok + 1;
            }
        }
        i = i + 1;
    }
    r
}

} // verus!
