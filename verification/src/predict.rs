//! End-to-end inference: one prediction per test document.
//!
//! For each query the engine retrieves the top-S neighbours, aggregates
//! their labels, and keeps the K best labels; the scratch buffer is reused
//! across queries without reallocation.

use vstd::prelude::*;

use crate::dataset::{FeatureVec, LabelVec};
use crate::fx;
use crate::index::{sum_sq, vector_norm, DatasetIndex};
use crate::query::{DatasetIndexContext, MAX_QUERY_LEN};
use crate::aggregate::topk_fold;

verus! {

impl DatasetIndex {
    /// The predicted label list for one query: the top-K labels aggregated
    /// from the top-S neighbours.  A zero-norm query predicts nothing.
    pub open spec fn spec_predict(
        self,
        q: Seq<(u32, u32)>,
        s_cap: nat,
        k_cap: nat,
        alpha: u32,
        beta: u32,
    ) -> Seq<u32> {
        let qn = fx::sqrt_floor(sum_sq(q));
        if qn >= 1 {
            let ns = self.select_upto(q, s_cap, beta, self.ndocs());
            let h = self.hist_list(ns, qn, alpha, ns.len() as int);
            topk_fold(h, k_cap, h.len() as int).map_values(|e: (u32, u64)| e.0)
        } else {
            Seq::empty()
        }
    }

    /// Every selected neighbour is a document scanned so far.
    pub proof fn lemma_select_upto_docs(self, q: Seq<(u32, u32)>, s_cap: nat, beta: u32, d: int)
        ensures
            forall|k: int|
                0 <= k < self.select_upto(q, s_cap, beta, d).len() ==> ((#[trigger] self.select_upto(
                    q,
                    s_cap,
                    beta,
                    d,
                )[k]).0 as int) < d,
        decreases d,
    {
        if d > 0 {
            self.lemma_select_upto_docs(q, s_cap, beta, d - 1);
            let prev = self.select_upto(q, s_cap, beta, d - 1);
            let dd = (d - 1) as u32;
            if self.sim_acc(q, dd) > 0 {
                let e = (dd, self.doc_score(q, dd, beta) as u64);
                crate::ranking::lemma_offer_membership(
                    prev,
                    e,
                    s_cap,
                    crate::ranking::TieBreak::NewFirst,
                );
                let r = self.select_upto(q, s_cap, beta, d);
                assert forall|k: int| 0 <= k < r.len() implies ((#[trigger] r[k]).0 as int)
                    < d by {
                    if r[k] != e {
                        assert(prev.contains(r[k]));
                        let kk = choose|kk: int| 0 <= kk < prev.len() && prev[kk] == r[k];
                        assert((prev[kk].0 as int) < d - 1);
                    }
                }
            }
        }
    }

    /// Predict the labels of one test document, reusing `ctx` as scratch.
    pub fn predict(
        &self,
        xi: &FeatureVec,
        s_cap: usize,
        k_cap: usize,
        alpha: u32,
        beta: u32,
        ctx: &mut DatasetIndexContext,
    ) -> (r: LabelVec)
        requires
            self.wf(),
            xi@.len() <= MAX_QUERY_LEN,
            old(ctx)@.len() == self.ndocs(),
            forall|d: int| 0 <= d < old(ctx)@.len() ==> #[trigger] old(ctx)@[d] == (0u64, 0u32),
        ensures
            final(ctx)@.len() == old(ctx)@.len(),
            forall|d: int| 0 <= d < final(ctx)@.len() ==> #[trigger] final(ctx)@[d] == (0u64, 0u32),
            r@ == self.spec_predict(xi@, s_cap as nat, k_cap as nat, alpha, beta),
            r@.len() <= k_cap,
    {
        let qnorm = vector_norm(xi);
        let neighbors = self.find_nearests(xi, s_cap, beta, ctx);
        if qnorm == 0 {
            return Vec::new();
        }
        proof {
            self.lemma_select_upto_docs(xi@, s_cap as nat, beta, self.ndocs());
        }
        let topk = self.aggregate(&neighbors, qnorm, alpha, k_cap);
        let ghost t = topk@;
        let mut out: LabelVec = Vec::new();
        let mut k: usize = 0;
        while k < topk.len()
            invariant
                t == topk@,
                k <= t.len(),
                out@ == t.take(k as int).map_values(|e: (u32, u64)| e.0),
            decreases t.len() - k,
        {
            out.push(topk[k].0);
            proof {
                assert(t.take(k as int + 1).map_values(|e: (u32, u64)| e.0) =~= t.take(
                    k as int,
                ).map_values(|e: (u32, u64)| e.0).push(t[k as int].0));
            }
            k = k + 1;
        }
        proof {
            assert(t.take(t.len() as int) =~= t);
        }
        out
    }

    /// Predict the labels of every test document in order.
    pub fn run_test(
        &self,
        test_x: &Vec<FeatureVec>,
        k_cap: usize,
        s_cap: usize,
        alpha: u32,
        beta: u32,
    ) -> (r: Vec<LabelVec>)
        requires
            self.wf(),
            forall|i: int| 0 <= i < test_x@.len() ==> (#[trigger] test_x@[i])@.len() <= MAX_QUERY_LEN,
        ensures
            r@.len() == test_x@.len(),
            forall|i: int|
                0 <= i < r@.len() ==> (#[trigger] r@[i])@ == self.spec_predict(
                    test_x@[i]@,
                    s_cap as nat,
                    k_cap as nat,
                    alpha,
                    beta,
                ),
    {
        let mut ctx = self.new_context();
        let mut r: Vec<LabelVec> = Vec::new();
        let mut i: usize = 0;
        let n = test_x.len();
        while i < n
            invariant
                self.wf(),
                n == test_x@.len(),
                forall|ii: int|
                    0 <= ii < test_x@.len() ==> (#[trigger] test_x@[ii])@.len() <= MAX_QUERY_LEN,
                i <= n,
                ctx@.len() == self.ndocs(),
                forall|d: int| 0 <= d < ctx@.len() ==> #[trigger] ctx@[d] == (0u64, 0u32),
                r@.len() == i,
                forall|ii: int|
                    0 <= ii < i ==> (#[trigger] r@[ii])@ == self.spec_predict(
                        test_x@[ii]@,
                        s_cap as nat,
                        k_cap as nat,
                        alpha,
                        beta,
                    ),
            decreases n - i,
        {
            let yihat = self.predict(&test_x[i], s_cap, k_cap, alpha, beta, &mut ctx);
            r.push(yihat);
            i = i + 1;
        }
        r
    }
}

} // verus!
