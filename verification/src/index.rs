//! The inverted index over one training corpus.
//!
//! Built once by a single forward scan: for each document the L2 norm of
//! its vector is taken (as a fixed-point integer square root), and each
//! feature contributes one posting `(document, weight / norm)`.  A document
//! whose vector has zero norm contributes no postings at all.

use vstd::prelude::*;

use crate::dataset::{Dataset, FeatureVec, LabelVec, distinct_features};
use crate::fx;

verus! {

/// The sum of the squared raw weights of one vector.
pub open spec fn sum_sq(v: Seq<(u32, u32)>) -> int
    decreases v.len(),
{
    if v.len() == 0 {
        0
    } else {
        sum_sq(v.drop_last()) + (v.last().1 as int) * (v.last().1 as int)
    }
}

/// Whether the vector carries feature `f`.
pub open spec fn vec_has_feature(v: Seq<(u32, u32)>, f: u32) -> bool {
    exists|j: int| 0 <= j < v.len() && (#[trigger] v[j]).0 == f
}

/// The raw weight of the first entry carrying feature `f` (0 if none).
pub open spec fn vec_feature_weight(v: Seq<(u32, u32)>, f: u32) -> int
    decreases v.len(),
{
    if v.len() == 0 {
        0
    } else if v[0].0 == f {
        v[0].1 as int
    } else {
        vec_feature_weight(v.drop_first(), f)
    }
}

/// The normalized weight of feature `f` in vector `v`: the raw weight
/// divided by the L2 norm of the whole vector.
pub open spec fn norm_weight(v: Seq<(u32, u32)>, f: u32) -> int {
    vec_feature_weight(v, f) * fx::FX_ONE / fx::sqrt_floor(sum_sq(v))
}

/// Whether the posting list carries document `d`.
pub open spec fn plist_has(pl: Seq<(u32, u32)>, d: u32) -> bool
    decreases pl.len(),
{
    if pl.len() == 0 {
        false
    } else if pl[0].0 == d {
        true
    } else {
        plist_has(pl.drop_first(), d)
    }
}

/// The weight of the first posting for document `d` (0 if none).
pub open spec fn plist_weight(pl: Seq<(u32, u32)>, d: u32) -> int
    decreases pl.len(),
{
    if pl.len() == 0 {
        0
    } else if pl[0].0 == d {
        pl[0].1 as int
    } else {
        plist_weight(pl.drop_first(), d)
    }
}

/// Whether document `d` has a posting under feature `f`.
pub open spec fn pfeature_has(postings: Seq<FeatureVec>, f: u32, d: u32) -> bool {
    f < postings.len() && plist_has(postings[f as int]@, d)
}

/// The normalized weight stored for document `d` under feature `f`.
pub open spec fn pfeature_weight(postings: Seq<FeatureVec>, f: u32, d: u32) -> int {
    if f < postings.len() {
        plist_weight(postings[f as int]@, d)
    } else {
        0
    }
}

/// Structural soundness of a posting table: entries point at real
/// documents with at least one feature, weights stay within one unit, and
/// document positions strictly increase along every list.
pub open spec fn postings_wf(postings: Seq<FeatureVec>, nfeatures: Seq<u32>) -> bool {
    &&& forall|f: int, k: int|
        0 <= f < postings.len() && 0 <= k < postings[f]@.len() ==> {
            &&& (#[trigger] postings[f]@[k]).0 < nfeatures.len()
            &&& postings[f]@[k].1 <= fx::FX_ONE
            &&& nfeatures[postings[f]@[k].0 as int] >= 1
        }
    &&& forall|f: int, k1: int, k2: int|
        0 <= f < postings.len() && 0 <= k1 < k2 < postings[f]@.len() ==> (
        #[trigger] postings[f]@[k1]).0 < (#[trigger] postings[f]@[k2]).0
}

/// The posting table says of every document below `upto` exactly what the
/// source vectors say: a posting exists for `(f, d)` iff document `d`
/// carries feature `f` and has positive norm, and its weight is the raw
/// weight divided by the document's L2 norm.
pub open spec fn postings_model(postings: Seq<FeatureVec>, x: Seq<FeatureVec>, upto: int) -> bool {
    &&& forall|d: u32, f: u32|
        d < upto ==> (#[trigger] pfeature_has(postings, f, d) <==> (sum_sq(x[d as int]@) > 0
            && vec_has_feature(x[d as int]@, f)))
    &&& forall|d: u32, f: u32|
        d < upto && pfeature_has(postings, f, d) ==> #[trigger] pfeature_weight(postings, f, d)
            == norm_weight(x[d as int]@, f)
    &&& forall|f: int, k: int|
        0 <= f < postings.len() && 0 <= k < postings[f]@.len() ==> (#[trigger] postings[f]@[k]).0
            < upto
}

/// The inverted index: per-feature posting lists, the feature count of
/// every document, and a copy of the corpus label sets.
pub struct DatasetIndex {
    /// Document position to count of distinct features.
    pub nfeatures_list: Vec<u32>,
    /// Feature identifier to `(document position, normalized weight)`,
    /// document positions ascending.
    pub postings: Vec<FeatureVec>,
    /// The label sets of the source corpus.
    pub labelvecs: Vec<LabelVec>,
}

impl DatasetIndex {
    /// The number of indexed documents.
    pub open spec fn ndocs(self) -> int {
        self.nfeatures_list@.len() as int
    }

    /// Internal soundness, established by `new` and preserved ever after.
    pub open spec fn wf(self) -> bool {
        &&& self.labelvecs@.len() == self.nfeatures_list@.len()
        &&& self.nfeatures_list@.len() <= u32::MAX
        &&& postings_wf(self.postings@, self.nfeatures_list@)
    }

    /// The index was built from a corpus with these feature vectors.
    pub open spec fn models(self, x: Seq<FeatureVec>) -> bool {
        &&& self.nfeatures_list@.len() == x.len()
        &&& forall|d: int| 0 <= d < x.len() ==> self.nfeatures_list@[d] as int == (
        #[trigger] x[d])@.len()
        &&& postings_model(self.postings@, x, x.len() as int)
    }
}

/// `sum_sq` is a sum of squares, hence non-negative.
pub proof fn lemma_sum_sq_nonneg(v: Seq<(u32, u32)>)
    ensures
        sum_sq(v) >= 0,
    decreases v.len(),
{
    if v.len() > 0 {
        lemma_sum_sq_nonneg(v.drop_last());
        let w = v.last().1 as int;
        assert(w * w >= 0) by (nonlinear_arith);
    }
}

/// Every squared weight is bounded by the whole sum of squares.
pub proof fn lemma_sum_sq_elem(v: Seq<(u32, u32)>, j: int)
    requires
        0 <= j < v.len(),
    ensures
        (v[j].1 as int) * (v[j].1 as int) <= sum_sq(v),
    decreases v.len(),
{
    let w = v.last().1 as int;
    assert(w * w >= 0) by (nonlinear_arith);
    lemma_sum_sq_nonneg(v.drop_last());
    if j < v.len() - 1 {
        lemma_sum_sq_elem(v.drop_last(), j);
        assert(v.drop_last()[j] == v[j]);
    }
}

/// The sum of squares grows by one square per element taken.
pub proof fn lemma_sum_sq_take_step(v: Seq<(u32, u32)>, j: int)
    requires
        0 <= j < v.len(),
    ensures
        sum_sq(v.take(j + 1)) == sum_sq(v.take(j)) + (v[j].1 as int) * (v[j].1 as int),
{
    assert(v.take(j + 1).drop_last() =~= v.take(j));
    assert(v.take(j + 1).last() == v[j]);
}

/// A posting list carries `d` exactly when some entry names `d`.
pub proof fn lemma_plist_has_exists(pl: Seq<(u32, u32)>, d: u32)
    ensures
        plist_has(pl, d) <==> exists|k: int| 0 <= k < pl.len() && (#[trigger] pl[k]).0 == d,
    decreases pl.len(),
{
    if pl.len() > 0 {
        lemma_plist_has_exists(pl.drop_first(), d);
        if pl[0].0 == d {
            assert(pl[0].0 == d);
        } else if exists|k: int| 0 <= k < pl.len() && (#[trigger] pl[k]).0 == d {
            let k = choose|k: int| 0 <= k < pl.len() && (#[trigger] pl[k]).0 == d;
            assert(pl.drop_first()[k - 1] == pl[k]);
        }
    }
}

/// Appending a posting for a new document: the new document is found with
/// the appended weight, every other lookup is unchanged.
pub proof fn lemma_plist_append(pl: Seq<(u32, u32)>, e: (u32, u32), d: u32)
    requires
        forall|k: int| 0 <= k < pl.len() ==> (#[trigger] pl[k]).0 != e.0,
    ensures
        plist_has(pl.push(e), e.0),
        plist_weight(pl.push(e), e.0) == e.1 as int,
        d != e.0 ==> plist_has(pl.push(e), d) == plist_has(pl, d),
        d != e.0 ==> plist_weight(pl.push(e), d) == plist_weight(pl, d),
    decreases pl.len(),
{
    if pl.len() == 0 {
        reveal_with_fuel(plist_has, 3);
        reveal_with_fuel(plist_weight, 3);
        assert(pl.push(e)[0] == e);
        assert(pl.push(e).drop_first().len() == 0);
    } else {
        assert(pl.push(e)[0] == pl[0]);
        assert(pl.push(e).drop_first() =~= pl.drop_first().push(e));
        assert forall|k: int| 0 <= k < pl.drop_first().len() implies (#[trigger] pl.drop_first()[
            k
        ]).0 != e.0 by {
            assert(pl.drop_first()[k] == pl[k + 1]);
        }
        lemma_plist_append(pl.drop_first(), e, d);
    }
}

/// In a vector with distinct features, the entry at `j` is what the
/// feature lookup finds.
pub proof fn lemma_vec_feature_at(v: Seq<(u32, u32)>, j: int)
    requires
        distinct_features(v),
        0 <= j < v.len(),
    ensures
        vec_has_feature(v, v[j].0),
        vec_feature_weight(v, v[j].0) == v[j].1 as int,
    decreases v.len(),
{
    if j == 0 {
    } else {
        assert(distinct_features(v.drop_first()));
        assert(v.drop_first()[j - 1] == v[j]);
        lemma_vec_feature_at(v.drop_first(), j - 1);
        assert(v[0].0 != v[j].0);
    }
}

/// Whether feature `f` occurs among the first `j` entries of `v`.
pub open spec fn feats_upto(v: Seq<(u32, u32)>, j: int, f: u32) -> bool {
    exists|jj: int| 0 <= jj < j && (#[trigger] v[jj]).0 == f
}

/// The posting that document `d` contributes under feature `f`.
pub open spec fn norm_entry(v: Seq<(u32, u32)>, f: u32, d: u32) -> (u32, u32) {
    (d, norm_weight(v, f) as u32)
}

/// The normalized weight of a carried feature lies between 0 and one unit.
proof fn lemma_norm_weight_range(v: Seq<(u32, u32)>, f: u32, norm: u64)
    requires
        vec_has_feature(v, f),
        distinct_features(v),
        norm as int == fx::sqrt_floor(sum_sq(v)),
        fx::is_sqrt_floor(sum_sq(v), norm as int),
        norm >= 1,
    ensures
        0 <= norm_weight(v, f) <= fx::FX_ONE,
        norm_entry(v, f, 0).1 as int == norm_weight(v, f),
{
    let jj = choose|jj: int| 0 <= jj < v.len() && (#[trigger] v[jj]).0 == f;
    lemma_vec_feature_at(v, jj);
    lemma_sum_sq_elem(v, jj);
    let w = vec_feature_weight(v, f);
    fx::lemma_sqrt_floor_lower(sum_sq(v), w, norm as int);
    assert(0 <= w * (fx::FX_ONE as int) / (norm as int) <= fx::FX_ONE as int) by (nonlinear_arith)
        requires
            0 <= w <= norm as int,
            norm >= 1,
    ;
}

/// One document has been folded into the posting table: the table stays
/// sound and now also models that document.
proof fn lemma_build_step(
    p0: Seq<FeatureVec>,
    p1: Seq<FeatureVec>,
    x: Seq<FeatureVec>,
    i: u32,
    nfl: Seq<u32>,
    norm: u64,
)
    requires
        i as int == nfl.len(),
        (i as int) < x.len(),
        distinct_features(x[i as int]@),
        x[i as int]@.len() <= u32::MAX,
        sum_sq(x[i as int]@) > 0,
        norm as int == fx::sqrt_floor(sum_sq(x[i as int]@)),
        fx::is_sqrt_floor(sum_sq(x[i as int]@), norm as int),
        norm >= 1,
        postings_wf(p0, nfl),
        postings_model(p0, x, i as int),
        p1.len() >= p0.len(),
        forall|jj: int|
            0 <= jj < x[i as int]@.len() ==> ((#[trigger] x[i as int]@[jj]).0 as int) < p1.len(),
        forall|f: int|
            0 <= f < p0.len() ==> #[trigger] p1[f]@ == (if vec_has_feature(x[i as int]@, f as u32) {
                p0[f]@.push(norm_entry(x[i as int]@, f as u32, i))
            } else {
                p0[f]@
            }),
        forall|f: int|
            p0.len() <= f < p1.len() ==> #[trigger] p1[f]@ == (if vec_has_feature(
                x[i as int]@,
                f as u32,
            ) {
                seq![norm_entry(x[i as int]@, f as u32, i)]
            } else {
                Seq::<(u32, u32)>::empty()
            }),
    ensures
        postings_wf(p1, nfl.push(x[i as int]@.len() as u32)),
        postings_model(p1, x, i as int + 1),
{
    let xi = x[i as int]@;
    let nfl1 = nfl.push(xi.len() as u32);
    assert(xi.len() >= 1);

    // Each list keeps its old entries and gains at most the one for `i`.
    assert forall|f: int, k: int| 0 <= f < p1.len() && 0 <= k < p1[f]@.len() implies {
        &&& (#[trigger] p1[f]@[k]).0 < nfl1.len()
        &&& p1[f]@[k].1 <= fx::FX_ONE
        &&& nfl1[p1[f]@[k].0 as int] >= 1
    } by {
        if f < p0.len() && k < p0[f]@.len() {
            assert(p1[f]@[k] == p0[f]@[k]);
            assert(nfl1[p0[f]@[k].0 as int] == nfl[p0[f]@[k].0 as int]);
        } else {
            assert(vec_has_feature(xi, f as u32));
            assert(p1[f]@[k] == norm_entry(xi, f as u32, i));
            lemma_norm_weight_range(xi, f as u32, norm);
        }
    }
    assert forall|f: int, k1: int, k2: int|
        0 <= f < p1.len() && 0 <= k1 < k2 < p1[f]@.len() implies (#[trigger] p1[f]@[k1]).0 < (
    #[trigger] p1[f]@[k2]).0 by {
        if f < p0.len() {
            if k2 < p0[f]@.len() {
                assert(p1[f]@[k1] == p0[f]@[k1] && p1[f]@[k2] == p0[f]@[k2]);
            } else {
                assert(p1[f]@[k1] == p0[f]@[k1]);
                assert(p1[f]@[k2] == norm_entry(xi, f as u32, i));
                assert(p0[f]@[k1].0 < i);
            }
        }
    }

    // Lookups for old documents are unchanged; the new document is found
    // exactly under its own features.
    assert forall|d: u32, f: u32| d < i as int + 1 implies (#[trigger] pfeature_has(p1, f, d)
        <==> (sum_sq(x[d as int]@) > 0 && vec_has_feature(x[d as int]@, f))) && (pfeature_has(
        p1,
        f,
        d,
    ) ==> pfeature_weight(p1, f, d) == norm_weight(x[d as int]@, f)) by {
        if (f as int) < p1.len() {
            let e = norm_entry(xi, f as u32, i);
            if (f as int) < p0.len() {
                assert forall|k: int| 0 <= k < p0[f as int]@.len() implies (#[trigger] p0[
                    f as int
                ]@[k]).0 != e.0 by {
                    assert(p0[f as int]@[k].0 < i);
                }
                lemma_plist_append(p0[f as int]@, e, d);
                lemma_plist_has_exists(p0[f as int]@, d);
                if d == i {
                    if vec_has_feature(xi, f) {
                        assert(plist_has(p1[f as int]@, d));
                        assert(plist_weight(p1[f as int]@, d) == e.1 as int);
                        lemma_norm_weight_range(xi, f, norm);
                    } else {
                        assert(p1[f as int]@ == p0[f as int]@);
                        assert(!plist_has(p0[f as int]@, d));
                    }
                } else {
                    if vec_has_feature(xi, f) {
                        assert(plist_has(p1[f as int]@, d) == plist_has(p0[f as int]@, d));
                        assert(plist_weight(p1[f as int]@, d) == plist_weight(p0[f as int]@, d));
                    } else {
                        assert(p1[f as int]@ == p0[f as int]@);
                    }
                    assert(pfeature_has(p1, f, d) == pfeature_has(p0, f, d));
                    assert(pfeature_weight(p1, f, d) == pfeature_weight(p0, f, d));
                }
            } else {
                // a list born for this document
                if vec_has_feature(xi, f) {
                    assert(p1[f as int]@ == seq![e]);
                    assert(p1[f as int]@[0] == e);
                    if d == i {
                        assert(plist_has(p1[f as int]@, d));
                        assert(plist_weight(p1[f as int]@, d) == e.1 as int);
                        lemma_norm_weight_range(xi, f, norm);
                    } else {
                        reveal_with_fuel(plist_has, 3);
                        reveal_with_fuel(plist_weight, 3);
                        assert(p1[f as int]@.drop_first().len() == 0);
                        assert(!plist_has(p1[f as int]@, d));
                        assert(!pfeature_has(p0, f, d));
                    }
                } else {
                    assert(p1[f as int]@.len() == 0);
                    assert(!plist_has(p1[f as int]@, d));
                    assert(!pfeature_has(p0, f, d));
                }
            }
        } else {
            // no list at all: the document cannot carry the feature
            assert(!pfeature_has(p1, f, d));
            assert(!pfeature_has(p0, f, d));
            if d == i && vec_has_feature(xi, f) {
                let jj = choose|jj: int| 0 <= jj < xi.len() && (#[trigger] xi[jj]).0 == f;
                assert((xi[jj].0 as int) < p1.len());
            }
        }
    }

    // Every entry still points below the new bound.
    assert forall|f: int, k: int| 0 <= f < p1.len() && 0 <= k < p1[f]@.len() implies (
    #[trigger] p1[f]@[k]).0 < i as int + 1 by {
        if f < p0.len() && k < p0[f]@.len() {
            assert(p1[f]@[k] == p0[f]@[k]);
        } else {
            assert(p1[f]@[k] == norm_entry(xi, f as u32, i));
        }
    }
}

/// The sum of the squares of the first `j` normalized weights of `v`,
/// each one the raw weight scaled by `FX_ONE` and divided by `r`.
pub open spec fn sum_sq_scaled(v: Seq<(u32, u32)>, j: int, r: int) -> int
    decreases j,
{
    if j <= 0 {
        0
    } else {
        sum_sq_scaled(v, j - 1, r) + (v[j - 1].1 * fx::FX_ONE / r) * (v[j - 1].1 * fx::FX_ONE / r)
    }
}

/// The normalized weights of a positive-norm document square-sum to one
/// unit, up to the rounding of the integer square root and divisions: the
/// sum, scaled back by the squared norm, never exceeds one squared unit of
/// the squared raw norm, and never reaches four squared units outright.
pub proof fn lemma_normalized_weights_unit(v: Seq<(u32, u32)>, r: int)
    requires
        r >= 1,
        fx::is_sqrt_floor(sum_sq(v), r),
        distinct_features(v),
    ensures
        forall|j: int|
            0 <= j < v.len() ==> norm_weight(v, (#[trigger] v[j]).0) == v[j].1 * fx::FX_ONE / r,
        sum_sq_scaled(v, v.len() as int, r) * (r * r) <= (fx::FX_ONE as int) * (fx::FX_ONE as int)
            * sum_sq(v),
        sum_sq_scaled(v, v.len() as int, r) < 4 * ((fx::FX_ONE as int) * (fx::FX_ONE as int)),
{
    fx::lemma_sqrt_floor_unique(sum_sq(v), r);
    assert forall|j: int| 0 <= j < v.len() implies norm_weight(v, (#[trigger] v[j]).0) == v[j].1
        * fx::FX_ONE / r by {
        lemma_vec_feature_at(v, j);
    }
    lemma_sum_sq_nonneg(v);
    lemma_sum_sq_scaled_partial(v, v.len() as int, r);
    assert(v.take(v.len() as int) =~= v);
    let ss = sum_sq_scaled(v, v.len() as int, r);
    let f2 = (fx::FX_ONE as int) * (fx::FX_ONE as int);
    assert(ss < 4 * f2) by (nonlinear_arith)
        requires
            ss * (r * r) <= f2 * sum_sq(v),
            sum_sq(v) < (r + 1) * (r + 1),
            r >= 1,
            f2 > 0,
            ss >= 0,
    ;
}

/// The scaled square sum over a prefix, bounded by the raw square sum.
proof fn lemma_sum_sq_scaled_partial(v: Seq<(u32, u32)>, j: int, r: int)
    requires
        r >= 1,
        0 <= j <= v.len(),
    ensures
        sum_sq_scaled(v, j, r) >= 0,
        sum_sq_scaled(v, j, r) * (r * r) <= (fx::FX_ONE as int) * (fx::FX_ONE as int) * sum_sq(
            v.take(j),
        ),
    decreases j,
{
    if j == 0 {
        assert(sum_sq(v.take(0)) == 0);
    } else {
        lemma_sum_sq_scaled_partial(v, j - 1, r);
        lemma_sum_sq_take_step(v, j - 1);
        let w = v[j - 1].1 as int;
        let a = w * (fx::FX_ONE as int);
        let d = a / r;
        assert(a >= 0) by (nonlinear_arith)
            requires
                w >= 0,
                a == w * (fx::FX_ONE as int),
        ;
        assert(d >= 0 && d * r <= a) by (nonlinear_arith)
            requires
                a >= 0,
                r >= 1,
                d == a / r,
        ;
        assert(d * d * (r * r) <= a * a) by (nonlinear_arith)
            requires
                d >= 0,
                r >= 1,
                d * r <= a,
        ;
        assert(a * a == (fx::FX_ONE as int) * (fx::FX_ONE as int) * (w * w)) by (nonlinear_arith)
            requires
                a == w * (fx::FX_ONE as int),
        ;
        assert((sum_sq_scaled(v, j - 1, r) + d * d) * (r * r) == sum_sq_scaled(v, j - 1, r) * (r
            * r) + d * d * (r * r)) by (nonlinear_arith);
        assert((fx::FX_ONE as int) * (fx::FX_ONE as int) * (sum_sq(v.take(j - 1)) + w * w) == (
        fx::FX_ONE as int) * (fx::FX_ONE as int) * sum_sq(v.take(j - 1)) + (fx::FX_ONE as int) * (
        fx::FX_ONE as int) * (w * w)) by (nonlinear_arith);
    }
}

/// The L2 norm of a raw feature vector, as the integer square root of the
/// sum of its squared weights.
pub fn vector_norm(v: &FeatureVec) -> (r: u64)
    requires
        v@.len() <= u32::MAX,
    ensures
        r as int == fx::sqrt_floor(sum_sq(v@)),
        fx::is_sqrt_floor(sum_sq(v@), r as int),
        r == 0 <==> sum_sq(v@) == 0,
{
    let mut ss: u128 = 0;
    let mut j: usize = 0;
    let n = v.len();
    while j < n
        invariant
            n == v@.len(),
            n <= u32::MAX,
            j <= n,
            ss as int == sum_sq(v@.take(j as int)),
            ss as int <= j * ((u32::MAX as int) * (u32::MAX as int)),
        decreases n - j,
    {
        let w = v[j].1;
        proof {
            lemma_sum_sq_take_step(v@, j as int);
            assert((w as int) * (w as int) <= (u32::MAX as int) * (u32::MAX as int))
                by (nonlinear_arith)
                requires
                    0 <= w <= u32::MAX as int,
            ;
            assert((j as int + 1) * ((u32::MAX as int) * (u32::MAX as int)) <= (u32::MAX as int
                + 1) * ((u32::MAX as int) * (u32::MAX as int))) by (nonlinear_arith)
                requires
                    j as int + 1 <= u32::MAX as int + 1,
            ;
        }
        ss = ss + (w as u128) * (w as u128);
        j = j + 1;
    }
    proof {
        assert(v@.take(n as int) =~= v@);
        lemma_sum_sq_nonneg(v@);
    }
    let r = fx::isqrt128(ss);
    proof {
        if r >= 1 {
            assert((r as int) * (r as int) >= 1) by (nonlinear_arith)
                requires
                    r as int >= 1,
            ;
        } else {
            assert(sum_sq(v@) == 0) by (nonlinear_arith)
                requires
                    ss as int == sum_sq(v@),
                    (ss as int) < (r as int + 1) * (r as int + 1),
                    r == 0,
                    ss >= 0,
            ;
        }
    }
    r
}

/// Append `(d, w)` to the posting list of feature `f`, growing the table
/// with empty lists as far as needed.
fn add_posting(postings: &mut Vec<FeatureVec>, f: u32, d: u32, w: u32)
    ensures
        final(postings)@.len() == if (f as int) < old(postings)@.len() {
            old(postings)@.len() as int
        } else {
            f as int + 1
        },
        forall|g: int|
            0 <= g < old(postings)@.len() && g != f ==> #[trigger] final(postings)@[g]@ == old(
                postings,
            )@[g]@,
        forall|g: int|
            old(postings)@.len() <= g < final(postings)@.len() && g != f
                ==> #[trigger] final(postings)@[g]@ == Seq::<(u32, u32)>::empty(),
        (f as int) < old(postings)@.len() ==> final(postings)@[f as int]@ == old(
            postings,
        )@[f as int]@.push((d, w)),
        (f as int) >= old(postings)@.len() ==> final(postings)@[f as int]@ == seq![(d, w)],
{
    let ghost orig = postings@;
    while postings.len() <= f as usize
        invariant
            postings@.len() >= orig.len(),
            postings@.len() == orig.len() || (orig.len() <= f as int && postings@.len() <= f as int
                + 1),
            forall|g: int| 0 <= g < orig.len() ==> #[trigger] postings@[g] == orig[g],
            forall|g: int|
                orig.len() <= g < postings@.len() ==> #[trigger] postings@[g]@ == Seq::<
                    (u32, u32),
                >::empty(),
        decreases f as int + 1 - postings@.len(),
    {
        postings.push(Vec::new());
    }
    let ghost before = postings@;
    let fi = f as usize;
    postings[fi].push((d, w));
    proof {
        assert(postings@[f as int]@ == before[f as int]@.push((d, w)));
        if (f as int) >= orig.len() {
            assert(before[f as int]@ == Seq::<(u32, u32)>::empty());
            assert(postings@[f as int]@ =~= seq![(d, w)]);
        }
    }
}

impl DatasetIndex {
    /// Build the index from a corpus by one forward scan.
    ///
    /// Every posting stores the document's raw weight divided by the L2
    /// norm of its whole vector; a zero-norm vector contributes nothing.
    pub fn new(ds: Dataset) -> (r: DatasetIndex)
        requires
            ds.wf(),
            ds.x@.len() <= u32::MAX,
            forall|d: int| 0 <= d < ds.x@.len() ==> (#[trigger] ds.x@[d])@.len() <= u32::MAX,
            forall|d: int| 0 <= d < ds.x@.len() ==> distinct_features((#[trigger] ds.x@[d])@),
        ensures
            r.wf(),
            r.models(ds.x@),
            r.labelvecs@ == ds.y@,
            r.ndocs() == ds.x@.len(),
    {
        let Dataset { x, y } = ds;
        let mut postings: Vec<FeatureVec> = Vec::new();
        let mut nfeatures_list: Vec<u32> = Vec::new();
        let n = x.len();
        let mut i: usize = 0;
        while i < n
            invariant
                n == x@.len(),
                n <= u32::MAX,
                forall|d: int| 0 <= d < x@.len() ==> (#[trigger] x@[d])@.len() <= u32::MAX,
                forall|d: int| 0 <= d < x@.len() ==> distinct_features((#[trigger] x@[d])@),
                i <= n,
                nfeatures_list@.len() == i,
                forall|d: int|
                    0 <= d < i ==> nfeatures_list@[d] as int == (#[trigger] x@[d])@.len(),
                postings_wf(postings@, nfeatures_list@),
                postings_model(postings@, x@, i as int),
                postings@.len() <= u32::MAX as int + 1,
            decreases n - i,
        {
            let ghost xiv = x@[i as int]@;
            let xlen = x[i].len();
            let norm: u64 = vector_norm(&x[i]);
            if norm > 0 {
                proof {
                    lemma_sum_sq_nonneg(xiv);
                    assert(sum_sq(xiv) > 0);
                }
                let ghost p0 = postings@;
                let mut j: usize = 0;
                while j < xlen
                    invariant
                        i < x@.len(),
                        i < u32::MAX as int + 1,
                        xiv == x@[i as int]@,
                        xlen == xiv.len(),
                        xlen <= u32::MAX,
                        distinct_features(xiv),
                        sum_sq(xiv) > 0,
                        norm as int == fx::sqrt_floor(sum_sq(xiv)),
                        fx::is_sqrt_floor(sum_sq(xiv), norm as int),
                        norm >= 1,
                        j <= xlen,
                        nfeatures_list@.len() == i,
                        postings_wf(p0, nfeatures_list@),
                        postings_model(p0, x@, i as int),
                        postings@.len() >= p0.len(),
                        postings@.len() <= u32::MAX as int + 1,
                        forall|jj: int|
                            0 <= jj < j ==> ((#[trigger] xiv[jj]).0 as int) < postings@.len(),
                        forall|f: int|
                            0 <= f < p0.len() ==> #[trigger] postings@[f]@ == (if feats_upto(
                                xiv,
                                j as int,
                                f as u32,
                            ) {
                                p0[f]@.push(norm_entry(xiv, f as u32, i as u32))
                            } else {
                                p0[f]@
                            }),
                        forall|f: int|
                            p0.len() <= f < postings@.len() ==> #[trigger] postings@[f]@ == (
                            if feats_upto(xiv, j as int, f as u32) {
                                seq![norm_entry(xiv, f as u32, i as u32)]
                            } else {
                                Seq::<(u32, u32)>::empty()
                            }),
                    decreases xlen - j,
                {
                    let fw = x[i][j];
                    let f = fw.0;
                    let w = fw.1;
                    proof {
                        lemma_vec_feature_at(xiv, j as int);
                        lemma_sum_sq_elem(xiv, j as int);
                        fx::lemma_sqrt_floor_lower(sum_sq(xiv), w as int, norm as int);
                        assert(0 <= (w as int) * (fx::FX_ONE as int) / (norm as int)
                            <= fx::FX_ONE as int) by (nonlinear_arith)
                            requires
                                0 <= w as int <= norm as int,
                                norm >= 1,
                        ;
                        // the feature has not been seen yet in this vector
                        assert(!feats_upto(xiv, j as int, f));
                    }
                    let nw64: u64 = (w as u64) * fx::FX_ONE / norm;
                    let nw: u32 = nw64 as u32;
                    proof {
                        assert(nw as int == norm_weight(xiv, f));
                        assert((i as u32, nw) == norm_entry(xiv, f, i as u32));
                    }
                    add_posting(&mut postings, f, i as u32, nw);
                    proof {
                        assert forall|f2: int| 0 <= f2 < p0.len() implies #[trigger] postings@[
                            f2
                        ]@ == (if feats_upto(xiv, j as int + 1, f2 as u32) {
                            p0[f2]@.push(norm_entry(xiv, f2 as u32, i as u32))
                        } else {
                            p0[f2]@
                        }) by {
                            if f2 == f as int {
                                assert(xiv[j as int].0 == f);
                                assert(feats_upto(xiv, j as int + 1, f));
                            } else {
                                assert(f2 as u32 != f);
                                if feats_upto(xiv, j as int + 1, f2 as u32) {
                                    let jj = choose|jj: int|
                                        0 <= jj < j as int + 1 && (#[trigger] xiv[jj]).0 == f2 as u32;
                                    assert(jj != j as int);
                                    assert(feats_upto(xiv, j as int, f2 as u32));
                                }
                                if feats_upto(xiv, j as int, f2 as u32) {
                                    let jj = choose|jj: int|
                                        0 <= jj < j as int && (#[trigger] xiv[jj]).0 == f2 as u32;
                                    assert(feats_upto(xiv, j as int + 1, f2 as u32));
                                }
                            }
                        }
                        assert forall|f2: int| p0.len() <= f2 < postings@.len() implies
                            #[trigger] postings@[f2]@ == (if feats_upto(
                            xiv,
                            j as int + 1,
                            f2 as u32,
                        ) {
                            seq![norm_entry(xiv, f2 as u32, i as u32)]
                        } else {
                            Seq::<(u32, u32)>::empty()
                        }) by {
                            if f2 == f as int {
                                assert(xiv[j as int].0 == f);
                                assert(feats_upto(xiv, j as int + 1, f));
                            } else {
                                assert(f2 as u32 != f);
                                if feats_upto(xiv, j as int + 1, f2 as u32) {
                                    let jj = choose|jj: int|
                                        0 <= jj < j as int + 1 && (#[trigger] xiv[jj]).0 == f2 as u32;
                                    assert(jj != j as int);
                                    assert(feats_upto(xiv, j as int, f2 as u32));
                                }
                                if feats_upto(xiv, j as int, f2 as u32) {
                                    let jj = choose|jj: int|
                                        0 <= jj < j as int && (#[trigger] xiv[jj]).0 == f2 as u32;
                                    assert(feats_upto(xiv, j as int + 1, f2 as u32));
                                }
                            }
                        }
                    }
                    j = j + 1;
                }
                proof {
                    assert forall|f: u32| vec_has_feature(xiv, f) == feats_upto(
                        xiv,
                        xlen as int,
                        f,
                    ) by {}
                    assert forall|f: int| 0 <= f < p0.len() implies #[trigger] postings@[f]@ == (
                    if vec_has_feature(xiv, f as u32) {
                        p0[f]@.push(norm_entry(xiv, f as u32, i as u32))
                    } else {
                        p0[f]@
                    }) by {
                        assert(vec_has_feature(xiv, f as u32) == feats_upto(
                            xiv,
                            xlen as int,
                            f as u32,
                        ));
                    }
                    assert forall|f: int| p0.len() <= f < postings@.len() implies
                        #[trigger] postings@[f]@ == (if vec_has_feature(xiv, f as u32) {
                        seq![norm_entry(xiv, f as u32, i as u32)]
                    } else {
                        Seq::<(u32, u32)>::empty()
                    }) by {
                        assert(vec_has_feature(xiv, f as u32) == feats_upto(
                            xiv,
                            xlen as int,
                            f as u32,
                        ));
                    }
                    lemma_build_step(
                        p0,
                        postings@,
                        x@,
                        i as u32,
                        nfeatures_list@,
                        norm,
                    );
                }
            } else {
                proof {
                    assert(sum_sq(xiv) == 0);
                    assert forall|d: u32, f: u32| d < i as int + 1 implies (
                    #[trigger] pfeature_has(postings@, f, d) <==> (sum_sq(x@[d as int]@) > 0
                        && vec_has_feature(x@[d as int]@, f))) by {
                        if d == i as u32 && (f as int) < postings@.len() {
                            lemma_plist_has_exists(postings@[f as int]@, d);
                        }
                    }
                }
            }
            let xi_len = x[i].len();
            nfeatures_list.push(xi_len as u32);
            proof {
                assert forall|f: int, k: int|
                    0 <= f < postings@.len() && 0 <= k < postings@[f]@.len() implies {
                    &&& (#[trigger] postings@[f]@[k]).0 < nfeatures_list@.len()
                    &&& postings@[f]@[k].1 <= fx::FX_ONE
                    &&& nfeatures_list@[postings@[f]@[k].0 as int] >= 1
                } by {}
            }
            i = i + 1;
        }
        DatasetIndex { nfeatures_list, postings, labelvecs: y }
    }
}

} // verus!
