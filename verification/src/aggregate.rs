//! Label aggregation: from the top-S neighbours to a top-K label list.
//!
//! Every neighbour's similarity is normalized by the query's own L2 norm,
//! raised to the power `alpha`, and added to the score of every label the
//! neighbour carries.  The K highest-scoring labels are then selected with
//! the bounded shortlist, smaller label identifiers in front on ties.

use vstd::prelude::*;

use crate::fx;
use crate::index::DatasetIndex;
use crate::ranking::{offer, sorted_keyed, offer_entry, TieBreak};

verus! {

/// No label occurs twice in the histogram.
pub open spec fn distinct_labels(h: Seq<(u32, u64)>) -> bool {
    forall|k1: int, k2: int| 0 <= k1 < k2 < h.len() ==> (#[trigger] h[k1]).0 != (#[trigger] h[k2]).0
}

/// What one neighbour with similarity `sim` adds to each of its labels:
/// the similarity over the query norm, raised to the power `alpha`.
pub open spec fn neighbor_gain(sim: u64, qnorm: int, alpha: u32) -> int {
    fx::spec_fx_pow(
        fx::sat64(sim as int * (fx::FX_ONE as int) / qnorm) as u64,
        alpha as nat,
        fx::FX_ONE32,
    )
}

/// Add `gain` to the entry of `label`, or append a fresh entry.
pub open spec fn upsert(h: Seq<(u32, u64)>, label: u32, gain: int) -> Seq<(u32, u64)>
    decreases h.len(),
{
    if h.len() == 0 {
        seq![(label, gain as u64)]
    } else if h[0].0 == label {
        seq![(label, fx::sat64(h[0].1 + gain) as u64)] + h.drop_first()
    } else {
        seq![h[0]] + upsert(h.drop_first(), label, gain)
    }
}

/// Fold the first `li` labels of one neighbour into the histogram.
pub open spec fn hist_labels_fold(
    h: Seq<(u32, u64)>,
    labels: Seq<u32>,
    li: int,
    gain: int,
) -> Seq<(u32, u64)>
    decreases li,
{
    if li <= 0 {
        h
    } else {
        upsert(hist_labels_fold(h, labels, li - 1, gain), labels[li - 1], gain)
    }
}

impl DatasetIndex {
    /// The label histogram after the first `n` neighbours.
    pub open spec fn hist_list(
        self,
        ns: Seq<(u32, u64)>,
        qnorm: int,
        alpha: u32,
        n: int,
    ) -> Seq<(u32, u64)>
        decreases n,
    {
        if n <= 0 {
            Seq::empty()
        } else {
            let prev = self.hist_list(ns, qnorm, alpha, n - 1);
            let d = ns[n - 1].0;
            if (d as int) < self.labelvecs@.len() {
                hist_labels_fold(
                    prev,
                    self.labelvecs@[d as int]@,
                    self.labelvecs@[d as int]@.len() as int,
                    neighbor_gain(ns[n - 1].1, qnorm, alpha),
                )
            } else {
                prev
            }
        }
    }
}

/// The top-K list after offering the first `m` histogram entries.
pub open spec fn topk_fold(h: Seq<(u32, u64)>, k_cap: nat, m: int) -> Seq<(u32, u64)>
    decreases m,
{
    if m <= 0 {
        Seq::empty()
    } else {
        offer(topk_fold(h, k_cap, m - 1), h[m - 1], k_cap, TieBreak::SmallKeyFirst)
    }
}

/// An upsert with the first match at `k` updates exactly that entry.
proof fn lemma_upsert_at(h: Seq<(u32, u64)>, label: u32, gain: int, k: int)
    requires
        0 <= k <= h.len(),
        forall|kk: int| 0 <= kk < k ==> (#[trigger] h[kk]).0 != label,
        k < h.len() ==> h[k].0 == label,
    ensures
        k < h.len() ==> upsert(h, label, gain) == h.update(
            k,
            (label, fx::sat64(h[k].1 + gain) as u64),
        ),
        k == h.len() ==> upsert(h, label, gain) == h.push((label, gain as u64)),
    decreases h.len(),
{
    if h.len() == 0 {
        assert(upsert(h, label, gain) =~= h.push((label, gain as u64)));
    } else if k == 0 {
        assert(upsert(h, label, gain) =~= h.update(
            0,
            (label, fx::sat64(h[0].1 + gain) as u64),
        ));
    } else {
        assert(h[0].0 != label);
        assert forall|kk: int| 0 <= kk < k - 1 implies (#[trigger] h.drop_first()[kk]).0
            != label by {
            assert(h.drop_first()[kk] == h[kk + 1]);
        }
        assert(k - 1 < h.drop_first().len() ==> h.drop_first()[k - 1].0 == label);
        lemma_upsert_at(h.drop_first(), label, gain, k - 1);
        if k < h.len() {
            assert(upsert(h, label, gain) =~= h.update(
                k,
                (label, fx::sat64(h[k].1 + gain) as u64),
            ));
        } else {
            assert(upsert(h, label, gain) =~= h.push((label, gain as u64)));
        }
    }
}

/// Whether the histogram carries an entry for `label`.
pub open spec fn hist_has_label(h: Seq<(u32, u64)>, label: u32) -> bool {
    exists|k: int| 0 <= k < h.len() && (#[trigger] h[k]).0 == label
}

/// An upsert keeps the labels distinct and introduces at most `label`.
proof fn lemma_upsert_distinct(h: Seq<(u32, u64)>, label: u32, gain: int)
    requires
        distinct_labels(h),
    ensures
        distinct_labels(upsert(h, label, gain)),
        forall|x: u32|
            #[trigger] hist_has_label(upsert(h, label, gain), x) ==> x == label
                || hist_has_label(h, x),
    decreases h.len(),
{
    let r = upsert(h, label, gain);
    if h.len() == 0 {
        assert forall|x: u32| #[trigger] hist_has_label(r, x) implies x == label || hist_has_label(
            h,
            x,
        ) by {
            let k = choose|k: int| 0 <= k < r.len() && (#[trigger] r[k]).0 == x;
            assert(r[0].0 == label);
        }
    } else if h[0].0 == label {
        assert forall|x: u32| #[trigger] hist_has_label(r, x) implies x == label || hist_has_label(
            h,
            x,
        ) by {
            let k = choose|k: int| 0 <= k < r.len() && (#[trigger] r[k]).0 == x;
            if k > 0 {
                assert(r[k] == h[k]);
                assert(h[k].0 == x);
            }
        }
        assert forall|k1: int, k2: int| 0 <= k1 < k2 < r.len() implies (#[trigger] r[k1]).0 != (
        #[trigger] r[k2]).0 by {
            assert(r[k2] == h[k2]);
            if k1 > 0 {
                assert(r[k1] == h[k1]);
            }
        }
    } else {
        assert(distinct_labels(h.drop_first()));
        lemma_upsert_distinct(h.drop_first(), label, gain);
        let rr = upsert(h.drop_first(), label, gain);
        assert forall|x: u32| #[trigger] hist_has_label(r, x) implies x == label || hist_has_label(
            h,
            x,
        ) by {
            let k = choose|k: int| 0 <= k < r.len() && (#[trigger] r[k]).0 == x;
            if k > 0 {
                assert(r[k] == rr[k - 1]);
                assert(hist_has_label(rr, x));
                if x != label {
                    assert(hist_has_label(h.drop_first(), x));
                    let kk = choose|kk: int|
                        0 <= kk < h.drop_first().len() && (#[trigger] h.drop_first()[kk]).0 == x;
                    assert(h[kk + 1].0 == x);
                }
            }
        }
        assert forall|k1: int, k2: int| 0 <= k1 < k2 < r.len() implies (#[trigger] r[k1]).0 != (
        #[trigger] r[k2]).0 by {
            if k1 == 0 {
                assert(r[k2] == rr[k2 - 1]);
                assert(hist_has_label(rr, rr[k2 - 1].0));
                if rr[k2 - 1].0 != label {
                    assert(hist_has_label(h.drop_first(), rr[k2 - 1].0));
                    let kk = choose|kk: int|
                        0 <= kk < h.drop_first().len() && (#[trigger] h.drop_first()[kk]).0 == rr[
                            k2 - 1
                        ].0;
                    assert(h[kk + 1].0 == rr[k2 - 1].0);
                    assert(h[0].0 != h[kk + 1].0);
                }
            } else {
                assert(r[k1] == rr[k1 - 1] && r[k2] == rr[k2 - 1]);
            }
        }
    }
}

/// Folding labels into a distinct histogram keeps it distinct, and every
/// label present was present before or is among the folded ones.
proof fn lemma_hist_labels_fold_distinct(
    h: Seq<(u32, u64)>,
    labels: Seq<u32>,
    li: int,
    gain: int,
)
    requires
        distinct_labels(h),
        0 <= li <= labels.len(),
    ensures
        distinct_labels(hist_labels_fold(h, labels, li, gain)),
    decreases li,
{
    if li > 0 {
        lemma_hist_labels_fold_distinct(h, labels, li - 1, gain);
        lemma_upsert_distinct(hist_labels_fold(h, labels, li - 1, gain), labels[li - 1], gain);
    }
}

impl DatasetIndex {
    /// The histogram always carries distinct labels.
    pub proof fn lemma_hist_list_distinct(self, ns: Seq<(u32, u64)>, qnorm: int, alpha: u32, n: int)
        ensures
            distinct_labels(self.hist_list(ns, qnorm, alpha, n)),
        decreases n,
    {
        if n > 0 {
            self.lemma_hist_list_distinct(ns, qnorm, alpha, n - 1);
            let d = ns[n - 1].0;
            if (d as int) < self.labelvecs@.len() {
                lemma_hist_labels_fold_distinct(
                    self.hist_list(ns, qnorm, alpha, n - 1),
                    self.labelvecs@[d as int]@,
                    self.labelvecs@[d as int]@.len() as int,
                    neighbor_gain(ns[n - 1].1, qnorm, alpha),
                );
            }
        }
    }
}

/// The top-K fold of a distinct histogram is strictly ordered by
/// (score descending, label ascending) and bounded by its capacity; its
/// entries all come from the histogram.
pub proof fn lemma_topk_fold_keyed(h: Seq<(u32, u64)>, k_cap: nat, m: int)
    requires
        distinct_labels(h),
        0 <= m <= h.len(),
    ensures
        sorted_keyed(topk_fold(h, k_cap, m)),
        topk_fold(h, k_cap, m).len() <= k_cap,
        forall|k: int|
            0 <= k < topk_fold(h, k_cap, m).len() ==> exists|mm: int|
                0 <= mm < m && h[mm] == #[trigger] topk_fold(h, k_cap, m)[k],
    decreases m,
{
    if m > 0 {
        lemma_topk_fold_keyed(h, k_cap, m - 1);
        let prev = topk_fold(h, k_cap, m - 1);
        let e = h[m - 1];
        assert forall|k: int| 0 <= k < prev.len() implies (#[trigger] prev[k]).0 != e.0 by {
            let mm = choose|mm: int| 0 <= mm < m - 1 && h[mm] == prev[k];
            assert(h[mm].0 != h[m - 1].0);
        }
        crate::ranking::lemma_offer_keyed(prev, e, k_cap);
        crate::ranking::lemma_offer_membership(prev, e, k_cap, TieBreak::SmallKeyFirst);
        let r = topk_fold(h, k_cap, m);
        assert forall|k: int| 0 <= k < r.len() implies exists|mm: int|
            0 <= mm < m && h[mm] == #[trigger] r[k] by {
            if r[k] == e {
                assert(h[m - 1] == r[k]);
            } else {
                assert(prev.contains(r[k]));
                let kk = choose|kk: int| 0 <= kk < prev.len() && prev[kk] == r[k];
                let mm = choose|mm: int| 0 <= mm < m - 1 && h[mm] == prev[kk];
                assert(h[mm] == r[k]);
            }
        }
    }
}

/// Add `gain` to `label`'s histogram entry, or open a fresh one.
fn upsert_entry(h: &mut Vec<(u32, u64)>, label: u32, gain: u64)
    ensures
        final(h)@ == upsert(old(h)@, label, gain as int),
{
    let ghost h0 = h@;
    let mut k: usize = 0;
    loop
        invariant
            h@ == h0,
            0 <= k <= h0.len(),
            forall|kk: int| 0 <= kk < k ==> (#[trigger] h0[kk]).0 != label,
        ensures
            h@ == h0,
            0 <= k <= h0.len(),
            forall|kk: int| 0 <= kk < k ==> (#[trigger] h0[kk]).0 != label,
            k < h0.len() ==> h0[k as int].0 == label,
        decreases h0.len() - k,
    {
        if k >= h.len() {
            break ;
        }
        if h[k].0 == label {
            break ;
        }
        k = k + 1;
    }
    proof {
        lemma_upsert_at(h0, label, gain as int, k as int);
    }
    if k < h.len() {
        let cur = h[k];
        let bumped = fx::add_sat(cur.1, gain);
        h.set(k, (label, bumped));
    } else {
        h.push((label, gain));
    }
}

impl DatasetIndex {
    /// Aggregate the neighbours' labels into the top-`k_cap` label list:
    /// scores descending, smaller labels in front on ties.
    pub fn aggregate(
        &self,
        neighbors: &Vec<(u32, u64)>,
        qnorm: u64,
        alpha: u32,
        k_cap: usize,
    ) -> (r: Vec<(u32, u64)>)
        requires
            self.wf(),
            qnorm >= 1,
            forall|m: int|
                0 <= m < neighbors@.len() ==> ((#[trigger] neighbors@[m]).0 as int) < self.ndocs(),
        ensures
            ({
                let h = self.hist_list(
                    neighbors@,
                    qnorm as int,
                    alpha,
                    neighbors@.len() as int,
                );
                r@ == topk_fold(h, k_cap as nat, h.len() as int)
            }),
            sorted_keyed(r@),
            r@.len() <= k_cap,
    {
        let ghost ns = neighbors@;
        let mut hist: Vec<(u32, u64)> = Vec::new();
        let mut m: usize = 0;
        while m < neighbors.len()
            invariant
                self.wf(),
                ns == neighbors@,
                qnorm >= 1,
                m <= ns.len(),
                forall|mm: int|
                    0 <= mm < ns.len() ==> ((#[trigger] ns[mm]).0 as int) < self.ndocs(),
                hist@ == self.hist_list(ns, qnorm as int, alpha, m as int),
            decreases ns.len() - m,
        {
            let entry = neighbors[m];
            let dj = entry.0;
            let sim = entry.1;
            let sprime = fx::mul_div(sim, fx::FX_ONE, qnorm);
            let gain = fx::fx_pow(sprime, alpha, fx::FX_ONE32);
            proof {
                assert(gain as int == neighbor_gain(sim, qnorm as int, alpha));
            }
            let ghost base = hist@;
            let labels = &self.labelvecs[dj as usize];
            let mut li: usize = 0;
            while li < labels.len()
                invariant
                    li <= labels@.len(),
                    labels@ == self.labelvecs@[dj as int]@,
                    hist@ == hist_labels_fold(base, labels@, li as int, gain as int),
                decreases labels@.len() - li,
            {
                upsert_entry(&mut hist, labels[li], gain);
                li = li + 1;
            }
            m = m + 1;
        }
        let ghost h = hist@;
        proof {
            self.lemma_hist_list_distinct(ns, qnorm as int, alpha, ns.len() as int);
        }
        let mut out: Vec<(u32, u64)> = Vec::new();
        let mut m2: usize = 0;
        while m2 < hist.len()
            invariant
                h == hist@,
                distinct_labels(h),
                m2 <= h.len(),
                out@ == topk_fold(h, k_cap as nat, m2 as int),
                out@.len() <= k_cap,
            decreases h.len() - m2,
        {
            let entry = hist[m2];
            proof {
                lemma_topk_fold_keyed(h, k_cap as nat, m2 as int);
            }
            offer_entry(&mut out, entry.0, entry.1, k_cap, TieBreak::SmallKeyFirst);
            m2 = m2 + 1;
        }
        proof {
            lemma_topk_fold_keyed(h, k_cap as nat, h.len() as int);
        }
        out
    }
}

} // verus!
