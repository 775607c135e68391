//! Nearest-neighbour retrieval.
//!
//! A query walks the posting lists of its own features, accumulating per
//! document a cosine dot product and an overlap count in a caller-owned
//! scratch buffer, then scores every touched document with the hybrid
//! cosine/Jaccard formula and keeps the top `S` in a bounded shortlist.
//! Every touched scratch slot is reset to zero before returning.

use vstd::prelude::*;

use crate::dataset::FeatureVec;
use crate::fx;
use crate::index::{
    feats_upto, pfeature_has, pfeature_weight, plist_has, plist_weight, DatasetIndex,
};
use crate::ranking::{offer, sorted_desc, offer_entry, TieBreak};

verus! {

/// The per-query scratch buffer: one `(cosine accumulator, overlap count)`
/// slot per indexed document.
pub type DatasetIndexContext = Vec<(u64, u32)>;

/// The largest query vector accepted, chosen so that every cosine
/// accumulator fits in a `u64`.
pub const MAX_QUERY_LEN: usize = 65536;

/// A lookup with no posting yields weight zero.
proof fn lemma_plist_weight_absent(pl: Seq<(u32, u32)>, d: u32)
    requires
        !plist_has(pl, d),
    ensures
        plist_weight(pl, d) == 0,
    decreases pl.len(),
{
    if pl.len() > 0 {
        lemma_plist_weight_absent(pl.drop_first(), d);
    }
}

/// Every posting weight lies between 0 and the stated bound.
proof fn lemma_plist_weight_range(pl: Seq<(u32, u32)>, d: u32, bound: int)
    requires
        forall|k: int| 0 <= k < pl.len() ==> (#[trigger] pl[k]).1 <= bound,
        bound >= 0,
    ensures
        0 <= plist_weight(pl, d) <= bound,
    decreases pl.len(),
{
    if pl.len() > 0 {
        assert forall|k: int| 0 <= k < pl.drop_first().len() implies (#[trigger] pl.drop_first()[
            k
        ]).1 <= bound by {
            assert(pl.drop_first()[k] == pl[k + 1]);
        }
        lemma_plist_weight_range(pl.drop_first(), d, bound);
    }
}

/// In a list with strictly increasing documents, the entry at `k` is what
/// the lookup for its document finds.
proof fn lemma_plist_lookup_at(pl: Seq<(u32, u32)>, k: int)
    requires
        forall|k1: int, k2: int|
            0 <= k1 < k2 < pl.len() ==> (#[trigger] pl[k1]).0 < (#[trigger] pl[k2]).0,
        0 <= k < pl.len(),
    ensures
        plist_has(pl, pl[k].0),
        plist_weight(pl, pl[k].0) == pl[k].1 as int,
    decreases pl.len(),
{
    if k > 0 {
        assert(pl[0].0 < pl[k].0);
        assert forall|k1: int, k2: int|
            0 <= k1 < k2 < pl.drop_first().len() implies (#[trigger] pl.drop_first()[k1]).0 < (
        #[trigger] pl.drop_first()[k2]).0 by {
            assert(pl.drop_first()[k1] == pl[k1 + 1] && pl.drop_first()[k2] == pl[k2 + 1]);
        }
        assert(pl.drop_first()[k - 1] == pl[k]);
        lemma_plist_lookup_at(pl.drop_first(), k - 1);
    }
}

impl DatasetIndex {
    /// Whether document `d` carries feature `f` in the index.
    pub open spec fn feature_has(self, f: u32, d: u32) -> bool {
        pfeature_has(self.postings@, f, d)
    }

    /// The normalized weight the index stores for `(f, d)`.
    pub open spec fn feature_weight(self, f: u32, d: u32) -> int {
        pfeature_weight(self.postings@, f, d)
    }

    /// The cosine accumulator of document `d` after the first `j` query
    /// features.
    pub open spec fn acc_upto(self, q: Seq<(u32, u32)>, d: u32, j: int) -> int
        decreases j,
    {
        if j <= 0 {
            0
        } else {
            self.acc_upto(q, d, j - 1) + (q[j - 1].1 as int) * self.feature_weight(q[j - 1].0, d)
        }
    }

    /// The overlap count of document `d` after the first `j` query
    /// features.
    pub open spec fn cnt_upto(self, q: Seq<(u32, u32)>, d: u32, j: int) -> int
        decreases j,
    {
        if j <= 0 {
            0
        } else {
            self.cnt_upto(q, d, j - 1) + if self.feature_has(q[j - 1].0, d) {
                1int
            } else {
                0int
            }
        }
    }

    /// The full cosine accumulator of document `d` for query `q`.
    pub open spec fn sim_acc(self, q: Seq<(u32, u32)>, d: u32) -> int {
        self.acc_upto(q, d, q.len() as int)
    }

    /// The full overlap count of document `d` for query `q`.
    pub open spec fn overlap(self, q: Seq<(u32, u32)>, d: u32) -> int {
        self.cnt_upto(q, d, q.len() as int)
    }

    /// The Jaccard overlap ratio of query and document, in units of
    /// `fx::FX_ONE`: shared features over the union of both feature counts.
    pub open spec fn jaccard_fx(self, q: Seq<(u32, u32)>, d: u32) -> int {
        let denom = self.nfeatures_list@[d as int] + q.len() - self.overlap(q, d);
        if denom >= 1 {
            self.overlap(q, d) * (fx::FX_ONE as int) / denom
        } else {
            0
        }
    }

    /// The hybrid similarity of document `d`: the cosine accumulator,
    /// damped by the Jaccard ratio raised to `beta`.
    pub open spec fn doc_score(self, q: Seq<(u32, u32)>, d: u32, beta: u32) -> int {
        if beta == 0 {
            self.sim_acc(q, d)
        } else {
            fx::sat64(
                self.sim_acc(q, d) * fx::spec_fx_pow(
                    self.jaccard_fx(q, d) as u64,
                    beta as nat,
                    fx::FX_ONE,
                ) / (fx::FX_ONE as int),
            )
        }
    }

    /// The top-`s_cap` shortlist after scanning documents `0..d` in order:
    /// every document with a strictly positive cosine accumulator is
    /// offered to the bounded list, later documents in front on ties.
    pub open spec fn select_upto(
        self,
        q: Seq<(u32, u32)>,
        s_cap: nat,
        beta: u32,
        d: int,
    ) -> Seq<(u32, u64)>
        decreases d,
    {
        if d <= 0 {
            Seq::empty()
        } else {
            let prev = self.select_upto(q, s_cap, beta, d - 1);
            let dd = (d - 1) as u32;
            if self.sim_acc(q, dd) > 0 {
                offer(prev, (dd, self.doc_score(q, dd, beta) as u64), s_cap, TieBreak::NewFirst)
            } else {
                prev
            }
        }
    }

    /// Accumulators and counts stay within their machine ranges.
    pub proof fn lemma_acc_cnt_bounds(self, q: Seq<(u32, u32)>, d: u32, j: int)
        requires
            self.wf(),
            0 <= j <= q.len(),
        ensures
            0 <= self.acc_upto(q, d, j) <= j * ((u32::MAX as int) * (fx::FX_ONE as int)),
            0 <= self.cnt_upto(q, d, j) <= j,
        decreases j,
    {
        let unit = (u32::MAX as int) * (fx::FX_ONE as int);
        if j > 0 {
            self.lemma_acc_cnt_bounds(q, d, j - 1);
            let f = q[j - 1].0;
            let w = q[j - 1].1 as int;
            if f < self.postings@.len() {
                lemma_plist_weight_range(
                    self.postings@[f as int]@,
                    d,
                    fx::FX_ONE as int,
                );
            }
            assert(0 <= w * self.feature_weight(f, d) <= unit) by (nonlinear_arith)
                requires
                    0 <= w <= u32::MAX as int,
                    0 <= self.feature_weight(f, d) <= fx::FX_ONE as int,
                    unit == (u32::MAX as int) * (fx::FX_ONE as int),
            ;
            assert((j - 1) * unit + unit == j * unit) by (nonlinear_arith);
        }
    }

    /// A document with no overlap has an empty accumulator.
    pub proof fn lemma_acc_zero_of_cnt_zero(self, q: Seq<(u32, u32)>, d: u32, j: int)
        requires
            0 <= j <= q.len(),
            self.cnt_upto(q, d, j) == 0,
        ensures
            self.acc_upto(q, d, j) == 0,
        decreases j,
    {
        if j > 0 {
            assert(self.cnt_upto(q, d, j - 1) >= 0) by {
                self.lemma_cnt_nonneg(q, d, j - 1);
            }
            self.lemma_acc_zero_of_cnt_zero(q, d, j - 1);
            let f = q[j - 1].0;
            assert(!self.feature_has(f, d));
            if f < self.postings@.len() {
                lemma_plist_weight_absent(self.postings@[f as int]@, d);
            }
            assert((q[j - 1].1 as int) * 0 == 0) by (nonlinear_arith);
        }
    }

    /// Overlap counts never go negative.
    pub proof fn lemma_cnt_nonneg(self, q: Seq<(u32, u32)>, d: u32, j: int)
        ensures
            self.cnt_upto(q, d, j) >= 0,
        decreases j,
    {
        if j > 0 {
            self.lemma_cnt_nonneg(q, d, j - 1);
        }
    }

    /// A document with overlap has at least one feature of its own.
    pub proof fn lemma_overlap_needs_feature(self, q: Seq<(u32, u32)>, d: u32, j: int)
        requires
            self.wf(),
            0 <= j <= q.len(),
            self.cnt_upto(q, d, j) > 0,
            (d as int) < self.ndocs(),
        ensures
            self.nfeatures_list@[d as int] >= 1,
        decreases j,
    {
        if j > 0 {
            if self.feature_has(q[j - 1].0, d) {
                let f = q[j - 1].0;
                crate::index::lemma_plist_has_exists(self.postings@[f as int]@, d);
                let k = choose|k: int|
                    0 <= k < self.postings@[f as int]@.len() && (#[trigger] self.postings@[
                        f as int
                    ]@[k]).0 == d;
                assert(self.nfeatures_list@[self.postings@[f as int]@[k].0 as int] >= 1);
            } else {
                self.lemma_cnt_nonneg(q, d, j - 1);
                self.lemma_overlap_needs_feature(q, d, j - 1);
            }
        }
    }

    /// The document score stays within the `u64` range.
    pub proof fn lemma_doc_score_range(self, q: Seq<(u32, u32)>, d: u32, beta: u32)
        requires
            self.wf(),
            q.len() <= MAX_QUERY_LEN,
        ensures
            0 <= self.doc_score(q, d, beta) <= u64::MAX,
    {
        self.lemma_acc_cnt_bounds(q, d, q.len() as int);
        let acc = self.sim_acc(q, d);
        assert(acc <= (MAX_QUERY_LEN as int) * ((u32::MAX as int) * (fx::FX_ONE as int)))
            by (nonlinear_arith)
            requires
                acc <= q.len() * ((u32::MAX as int) * (fx::FX_ONE as int)),
                q.len() <= MAX_QUERY_LEN as int,
        ;
        if beta != 0 {
            let p = fx::spec_fx_pow(self.jaccard_fx(q, d) as u64, beta as nat, fx::FX_ONE);
            fx::lemma_fx_pow_range(self.jaccard_fx(q, d) as u64, beta as nat, fx::FX_ONE);
            assert(acc * p >= 0) by (nonlinear_arith)
                requires
                    acc >= 0,
                    p >= 0,
            ;
            assert(acc * p / (fx::FX_ONE as int) >= 0) by (nonlinear_arith)
                requires
                    acc * p >= 0,
            ;
        }
    }

    /// The shortlist is sorted descending and never exceeds its capacity.
    pub proof fn lemma_select_upto_sorted(self, q: Seq<(u32, u32)>, s_cap: nat, beta: u32, d: int)
        ensures
            sorted_desc(self.select_upto(q, s_cap, beta, d)),
            self.select_upto(q, s_cap, beta, d).len() <= s_cap,
        decreases d,
    {
        if d > 0 {
            self.lemma_select_upto_sorted(q, s_cap, beta, d - 1);
            let prev = self.select_upto(q, s_cap, beta, d - 1);
            let dd = (d - 1) as u32;
            if self.sim_acc(q, dd) > 0 {
                crate::ranking::lemma_offer_sorted(
                    prev,
                    (dd, self.doc_score(q, dd, beta) as u64),
                    s_cap,
                    TieBreak::NewFirst,
                );
            }
        }
    }

    /// Retrieval is idempotent: `find_nearests` pins its result to
    /// `select_upto`, a pure function of the index and the query alone, and
    /// hands the scratch buffer back all zeros, so a second call with the
    /// same query returns the very same list.
    pub proof fn lemma_retrieval_idempotent(
        self,
        q: Seq<(u32, u32)>,
        s_cap: nat,
        beta: u32,
        r1: Seq<(u32, u64)>,
        r2: Seq<(u32, u64)>,
    )
        requires
            r1 == self.select_upto(q, s_cap, beta, self.ndocs()),
            r2 == self.select_upto(q, s_cap, beta, self.ndocs()),
        ensures
            r1 == r2,
    {
    }

    /// A fresh, zeroed scratch buffer sized to this index.
    pub fn new_context(&self) -> (r: DatasetIndexContext)
        ensures
            r@.len() == self.ndocs(),
            forall|d: int| 0 <= d < r@.len() ==> #[trigger] r@[d] == (0u64, 0u32),
    {
        let n = self.nfeatures_list.len();
        let mut r: DatasetIndexContext = Vec::new();
        let mut d: usize = 0;
        while d < n
            invariant
                r@.len() == d,
                d <= n,
                forall|dd: int| 0 <= dd < d ==> #[trigger] r@[dd] == (0u64, 0u32),
            decreases n - d,
        {
            r.push((0u64, 0u32));
            d = d + 1;
        }
        r
    }

    /// Retrieve the documents most similar to `xi`: at most `s_cap` of
    /// them, scores descending, later documents in front on ties.  The
    /// scratch buffer must come in all zeros and is handed back all zeros.
    pub fn find_nearests(
        &self,
        xi: &FeatureVec,
        s_cap: usize,
        beta: u32,
        ctx: &mut DatasetIndexContext,
    ) -> (r: Vec<(u32, u64)>)
        requires
            self.wf(),
            xi@.len() <= MAX_QUERY_LEN,
            old(ctx)@.len() == self.ndocs(),
            forall|d: int| 0 <= d < old(ctx)@.len() ==> #[trigger] old(ctx)@[d] == (0u64, 0u32),
        ensures
            final(ctx)@.len() == old(ctx)@.len(),
            forall|d: int| 0 <= d < final(ctx)@.len() ==> #[trigger] final(ctx)@[d] == (0u64, 0u32),
            r@ == self.select_upto(xi@, s_cap as nat, beta, self.ndocs()),
            sorted_desc(r@),
            r@.len() <= s_cap,
    {
        let ghost q = xi@;
        let qlen = xi.len();
        let ndocs = self.nfeatures_list.len();
        let mut j: usize = 0;
        while j < qlen
            invariant
                self.wf(),
                q == xi@,
                qlen == q.len(),
                qlen <= MAX_QUERY_LEN,
                j <= qlen,
                ndocs == self.ndocs(),
                ctx@.len() == self.ndocs(),
                forall|dd: int|
                    0 <= dd < ctx@.len() ==> {
                        &&& (#[trigger] ctx@[dd]).0 as int == self.acc_upto(q, dd as u32, j as int)
                        &&& ctx@[dd].1 as int == self.cnt_upto(q, dd as u32, j as int)
                    },
            decreases qlen - j,
        {
            let fw = xi[j];
            let f = fw.0;
            let w = fw.1;
            if (f as usize) < self.postings.len() {
                let ghost pl = self.postings@[f as int]@;
                let plen = self.postings[f as usize].len();
                let mut k: usize = 0;
                while k < plen
                    invariant
                        self.wf(),
                        q == xi@,
                        qlen == q.len(),
                        qlen <= MAX_QUERY_LEN,
                        j < qlen,
                        f == q[j as int].0,
                        w == q[j as int].1,
                        (f as int) < self.postings@.len(),
                        pl == self.postings@[f as int]@,
                        plen == pl.len(),
                        k <= plen,
                        ndocs == self.ndocs(),
                        ctx@.len() == self.ndocs(),
                        forall|dd: int|
                            0 <= dd < ctx@.len() ==> {
                                &&& (#[trigger] ctx@[dd]).0 as int == self.acc_upto(
                                    q,
                                    dd as u32,
                                    j as int,
                                ) + if feats_upto(pl, k as int, dd as u32) {
                                    (w as int) * self.feature_weight(f, dd as u32)
                                } else {
                                    0int
                                }
                                &&& ctx@[dd].1 as int == self.cnt_upto(q, dd as u32, j as int)
                                    + if feats_upto(pl, k as int, dd as u32) {
                                    1int
                                } else {
                                    0int
                                }
                            },
                    decreases plen - k,
                {
                    let entry = self.postings[f as usize][k];
                    let d = entry.0;
                    let nw = entry.1;
                    proof {
                        assert(entry == pl[k as int]);
                        assert(d < ndocs);
                        lemma_plist_lookup_at(pl, k as int);
                        assert(nw as int == self.feature_weight(f, d));
                        assert(!feats_upto(pl, k as int, d)) by {
                            if feats_upto(pl, k as int, d) {
                                let kk = choose|kk: int|
                                    0 <= kk < k as int && (#[trigger] pl[kk]).0 == d;
                                assert(pl[kk].0 < pl[k as int].0);
                            }
                        }
                        self.lemma_acc_cnt_bounds(q, d, j as int);
                        assert((w as int) * (nw as int) <= (u32::MAX as int) * (
                        fx::FX_ONE as int)) by (nonlinear_arith)
                            requires
                                0 <= w <= u32::MAX as int,
                                0 <= nw <= fx::FX_ONE as int,
                        ;
                        assert((w as int) * (nw as int) >= 0) by (nonlinear_arith)
                            requires
                                w >= 0,
                                nw >= 0,
                        ;
                        assert((j as int) * ((u32::MAX as int) * (fx::FX_ONE as int)) + (
                        u32::MAX as int) * (fx::FX_ONE as int) <= (MAX_QUERY_LEN as int) * ((
                        u32::MAX as int) * (fx::FX_ONE as int))) by (nonlinear_arith)
                            requires
                                j as int + 1 <= MAX_QUERY_LEN as int,
                        ;
                        assert((MAX_QUERY_LEN as int) * ((u32::MAX as int) * (fx::FX_ONE as int))
                            < u64::MAX as int) by (nonlinear_arith);
                    }
                    let du = d as usize;
                    let slot = ctx[du];
                    let acc2 = slot.0 + (w as u64) * (nw as u64);
                    let cnt2 = slot.1 + 1;
                    ctx.set(du, (acc2, cnt2));
                    proof {
                        assert forall|dd: int| 0 <= dd < ctx@.len() implies {
                            &&& (#[trigger] ctx@[dd]).0 as int == self.acc_upto(q, dd as u32, j as int)
                                + if feats_upto(pl, k as int + 1, dd as u32) {
                                (w as int) * self.feature_weight(f, dd as u32)
                            } else {
                                0int
                            }
                            &&& ctx@[dd].1 as int == self.cnt_upto(q, dd as u32, j as int)
                                + if feats_upto(pl, k as int + 1, dd as u32) {
                                1int
                            } else {
                                0int
                            }
                        } by {
                            if dd == d as int {
                                assert(pl[k as int].0 == d);
                                assert(feats_upto(pl, k as int + 1, d));
                            } else {
                                if feats_upto(pl, k as int + 1, dd as u32) {
                                    let kk = choose|kk: int|
                                        0 <= kk < k as int + 1 && (#[trigger] pl[kk]).0
                                            == dd as u32;
                                    assert(kk != k as int);
                                    assert(feats_upto(pl, k as int, dd as u32));
                                }
                                if feats_upto(pl, k as int, dd as u32) {
                                    let kk = choose|kk: int|
                                        0 <= kk < k as int && (#[trigger] pl[kk]).0 == dd as u32;
                                    assert(feats_upto(pl, k as int + 1, dd as u32));
                                }
                            }
                        }
                    }
                    k = k + 1;
                }
                proof {
                    assert forall|dd: int| 0 <= dd < ctx@.len() implies {
                        &&& (#[trigger] ctx@[dd]).0 as int == self.acc_upto(
                            q,
                            dd as u32,
                            j as int + 1,
                        )
                        &&& ctx@[dd].1 as int == self.cnt_upto(q, dd as u32, j as int + 1)
                    } by {
                        crate::index::lemma_plist_has_exists(pl, dd as u32);
                        if !self.feature_has(f, dd as u32) {
                            lemma_plist_weight_absent(pl, dd as u32);
                            assert((w as int) * 0 == 0) by (nonlinear_arith);
                        }
                    }
                }
            } else {
                proof {
                    assert forall|dd: int| 0 <= dd < ctx@.len() implies {
                        &&& (#[trigger] ctx@[dd]).0 as int == self.acc_upto(
                            q,
                            dd as u32,
                            j as int + 1,
                        )
                        &&& ctx@[dd].1 as int == self.cnt_upto(q, dd as u32, j as int + 1)
                    } by {
                        assert(!self.feature_has(f, dd as u32));
                        assert(self.feature_weight(f, dd as u32) == 0);
                        assert((w as int) * 0 == 0) by (nonlinear_arith);
                    }
                }
            }
            j = j + 1;
        }
        // Score, select, and reset every touched slot.
        let mut result: Vec<(u32, u64)> = Vec::new();
        let mut d: usize = 0;
        while d < ndocs
            invariant
                self.wf(),
                q == xi@,
                qlen == q.len(),
                qlen <= MAX_QUERY_LEN,
                ndocs == self.ndocs(),
                ctx@.len() == self.ndocs(),
                d <= ndocs,
                forall|dd: int| 0 <= dd < d ==> #[trigger] ctx@[dd] == (0u64, 0u32),
                forall|dd: int|
                    d <= dd < ctx@.len() ==> {
                        &&& (#[trigger] ctx@[dd]).0 as int == self.sim_acc(q, dd as u32)
                        &&& ctx@[dd].1 as int == self.overlap(q, dd as u32)
                    },
                result@ == self.select_upto(q, s_cap as nat, beta, d as int),
                sorted_desc(result@),
                result@.len() <= s_cap,
            decreases ndocs - d,
        {
            let slot = ctx[d];
            let sim = slot.0;
            let cnt = slot.1;
            if cnt > 0 {
                if sim > 0 {
                    let score: u64;
                    if beta == 0 {
                        score = sim;
                    } else {
                        proof {
                            self.lemma_acc_cnt_bounds(q, d as u32, qlen as int);
                            self.lemma_overlap_needs_feature(q, d as u32, qlen as int);
                        }
                        let nf = self.nfeatures_list[d];
                        let denom: u64 = nf as u64 + qlen as u64 - cnt as u64;
                        let jac: u64 = (cnt as u64) * fx::FX_ONE / denom;
                        let jp = fx::fx_pow(jac, beta, fx::FX_ONE);
                        score = fx::mul_div(sim, jp, fx::FX_ONE);
                        proof {
                            assert(jac as int == self.jaccard_fx(q, d as u32));
                        }
                    }
                    proof {
                        self.lemma_doc_score_range(q, d as u32, beta);
                        assert(score as int == self.doc_score(q, d as u32, beta));
                        crate::ranking::lemma_offer_sorted(
                            result@,
                            (d as u32, score),
                            s_cap as nat,
                            TieBreak::NewFirst,
                        );
                    }
                    offer_entry(&mut result, d as u32, score, s_cap, TieBreak::NewFirst);
                } else {
                    proof {
                        assert(self.sim_acc(q, d as u32) <= 0);
                    }
                }
                ctx.set(d, (0u64, 0u32));
            } else {
                proof {
                    self.lemma_cnt_nonneg(q, d as u32, qlen as int);
                    self.lemma_acc_zero_of_cnt_zero(q, d as u32, qlen as int);
                    assert(ctx@[d as int] == (0u64, 0u32));
                }
            }
            d = d + 1;
        }
        result
    }
}

} // verus!
