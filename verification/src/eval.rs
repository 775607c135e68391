//! Precision at K over a batch of predictions.
//!
//! Both the achieved precision and its theoretical ceiling are returned as
//! exact rationals over the common denominator `documents * K`: the caller
//! divides (or formats) as it pleases, and nothing is lost to rounding.
//! The ceiling averages `min(|ground truth|, K) / K`, the best any ranking
//! could reach.

use vstd::prelude::*;

use crate::dataset::LabelVec;

verus! {

/// The smaller of two integers.
pub open spec fn min_int(a: int, b: int) -> int {
    if a <= b {
        a
    } else {
        b
    }
}

/// How many of the first `upto` predicted labels belong to the truth set.
pub open spec fn hits_in(yhat: Seq<u32>, y: Seq<u32>, upto: int) -> int
    decreases upto,
{
    if upto <= 0 {
        0
    } else {
        hits_in(yhat, y, upto - 1) + if y.contains(yhat[upto - 1]) {
            1int
        } else {
            0int
        }
    }
}

/// Total hits in the first `kk` ranks over the first `n` documents.
pub open spec fn hits_total(yhat: Seq<LabelVec>, y: Seq<LabelVec>, n: int, kk: int) -> int
    decreases n,
{
    if n <= 0 {
        0
    } else {
        hits_total(yhat, y, n - 1, kk) + hits_in(
            yhat[n - 1]@,
            y[n - 1]@,
            min_int(kk, yhat[n - 1]@.len() as int),
        )
    }
}

/// Total best-possible hits over the first `n` documents.
pub open spec fn ideal_total(y: Seq<LabelVec>, n: int, kk: int) -> int
    decreases n,
{
    if n <= 0 {
        0
    } else {
        ideal_total(y, n - 1, kk) + min_int(y[n - 1]@.len() as int, kk)
    }
}

/// Hit counts stay between 0 and the number of ranks looked at.
proof fn lemma_hits_in_bounds(yhat: Seq<u32>, y: Seq<u32>, upto: int)
    ensures
        0 <= hits_in(yhat, y, upto),
        upto >= 0 ==> hits_in(yhat, y, upto) <= upto,
    decreases upto,
{
    if upto > 0 {
        lemma_hits_in_bounds(yhat, y, upto - 1);
    }
}

/// Batch totals stay between 0 and `n * kk`.
proof fn lemma_totals_bounds(yhat: Seq<LabelVec>, y: Seq<LabelVec>, n: int, kk: int)
    requires
        kk >= 0,
    ensures
        0 <= hits_total(yhat, y, n, kk),
        0 <= ideal_total(y, n, kk),
        n >= 0 ==> hits_total(yhat, y, n, kk) <= n * kk,
        n >= 0 ==> ideal_total(y, n, kk) <= n * kk,
    decreases n,
{
    if n > 0 {
        lemma_totals_bounds(yhat, y, n - 1, kk);
        lemma_hits_in_bounds(yhat[n - 1]@, y[n - 1]@, min_int(kk, yhat[n - 1]@.len() as int));
        assert((n - 1) * kk + kk == n * kk) by (nonlinear_arith);
    }
}

/// Whether the vector carries the label.
fn vec_contains(v: &LabelVec, label: u32) -> (r: bool)
    ensures
        r == v@.contains(label),
{
    let n = v.len();
    let mut k: usize = 0;
    while k < n
        invariant
            n == v@.len(),
            k <= n,
            forall|kk: int| 0 <= kk < k ==> v@[kk] != label,
        decreases n - k,
    {
        if v[k] == label {
            return true;
        }
        k = k + 1;
    }
    proof {
        if v@.contains(label) {
            let kk = choose|kk: int| 0 <= kk < v@.len() && v@[kk] == label;
        }
    }
    false
}

/// Score a batch of predictions against the ground truth: the achieved
/// hits, the best achievable hits, and the common denominator `n * kk`.
/// The achieved precision is `r.0 / r.2`, its ceiling `r.1 / r.2`.
pub fn report_precision(yhat: &Vec<LabelVec>, y: &Vec<LabelVec>, kk: usize) -> (r: (u64, u64, u64))
    requires
        yhat@.len() == y@.len(),
        y@.len() <= u32::MAX,
        kk <= u32::MAX,
    ensures
        r.0 as int == hits_total(yhat@, y@, yhat@.len() as int, kk as int),
        r.1 as int == ideal_total(y@, y@.len() as int, kk as int),
        r.2 as int == y@.len() * kk,
        r.0 <= r.2,
        r.1 <= r.2,
{
    let n = yhat.len();
    let mut hits: u64 = 0;
    let mut ideal: u64 = 0;
    let mut i: usize = 0;
    proof {
        assert((n as int) * (kk as int) <= (u32::MAX as int) * (u32::MAX as int))
            by (nonlinear_arith)
            requires
                0 <= n <= u32::MAX as int,
                0 <= kk <= u32::MAX as int,
        ;
    }
    while i < n
        invariant
            n == yhat@.len(),
            n == y@.len(),
            n <= u32::MAX,
            kk <= u32::MAX,
            i <= n,
            hits as int == hits_total(yhat@, y@, i as int, kk as int),
            ideal as int == ideal_total(y@, i as int, kk as int),
            hits as int <= (i as int) * (kk as int),
            ideal as int <= (i as int) * (kk as int),
            (n as int) * (kk as int) <= (u32::MAX as int) * (u32::MAX as int),
        decreases n - i,
    {
        let yihat = &yhat[i];
        let yi = &y[i];
        let bound = if kk < yihat.len() {
            kk
        } else {
            yihat.len()
        };
        let mut pki: u64 = 0;
        let mut k: usize = 0;
        while k < bound
            invariant
                yihat@ == yhat@[i as int]@,
                yi@ == y@[i as int]@,
                i < yhat@.len(),
                bound as int == min_int(kk as int, yihat@.len() as int),
                k <= bound,
                pki as int == hits_in(yihat@, yi@, k as int),
                pki <= k,
            decreases bound - k,
        {
            if vec_contains(yi, yihat[k]) {
                pki = pki + 1;
            }
            k = k + 1;
        }
        let yilen = yi.len();
        let cap: u64 = if yilen < kk {
            yilen as u64
        } else {
            kk as u64
        };
        proof {
            lemma_hits_in_bounds(yihat@, yi@, bound as int);
            assert((i as int) * (kk as int) + (kk as int) == (i as int + 1) * (kk as int))
                by (nonlinear_arith);
            assert((i as int + 1) * (kk as int) <= (n as int) * (kk as int)) by (nonlinear_arith)
                requires
                    i as int + 1 <= n as int,
                    kk as int >= 0,
            ;
        }
        hits = hits + pki;
        ideal = ideal + cap;
        i = i + 1;
    }
    proof {
        lemma_totals_bounds(yhat@, y@, n as int, kk as int);
    }
    (hits, ideal, (n as u64) * (kk as u64))
}

/// Every label of a list belongs to the list itself, so a prediction
/// scored against itself hits at every rank looked at.
proof fn lemma_hits_in_self(p: Seq<u32>, upto: int)
    requires
        0 <= upto <= p.len(),
    ensures
        hits_in(p, p, upto) == upto,
    decreases upto,
{
    if upto > 0 {
        lemma_hits_in_self(p, upto - 1);
        assert(p.contains(p[upto - 1]));
    }
}

/// Predictions scored against themselves as ground truth achieve exactly
/// the ceiling: the achieved hit total equals the best achievable one.
pub proof fn lemma_self_precision(p: Seq<LabelVec>, n: int, kk: int)
    requires
        0 <= n <= p.len(),
        kk >= 0,
    ensures
        hits_total(p, p, n, kk) == ideal_total(p, n, kk),
    decreases n,
{
    if n > 0 {
        lemma_self_precision(p, n - 1, kk);
        lemma_hits_in_self(p[n - 1]@, min_int(kk, p[n - 1]@.len() as int));
    }
}

} // verus!
