//! The corpus: parallel feature vectors and label sets.

use vstd::prelude::*;

verus! {

/// A sparse feature vector: `(feature identifier, raw weight)` pairs, the
/// weight in units of `fx::FX_ONE`.
pub type FeatureVec = Vec<(u32, u32)>;

/// The labels of one document.
pub type LabelVec = Vec<u32>;

/// An ordered collection of documents; position `i` in both sequences
/// refers to the same document.
pub struct Dataset {
    /// The feature vectors.
    pub x: Vec<FeatureVec>,
    /// The label sets.
    pub y: Vec<LabelVec>,
}

/// No feature identifier occurs twice within one vector.
pub open spec fn distinct_features(v: Seq<(u32, u32)>) -> bool {
    forall|j1: int, j2: int| 0 <= j1 < j2 < v.len() ==> (#[trigger] v[j1]).0 != (#[trigger] v[j2]).0
}

impl Dataset {
    /// Both sequences always have identical length.
    pub open spec fn wf(self) -> bool {
        self.x@.len() == self.y@.len()
    }

    /// An empty corpus.
    pub fn new() -> (r: Dataset)
        ensures
            r.wf(),
            r.x@.len() == 0,
            r.y@.len() == 0,
    {
        Dataset { x: Vec::new(), y: Vec::new() }
    }

    /// Append one document.
    pub fn push(&mut self, features: FeatureVec, labels: LabelVec)
        requires
            old(self).wf(),
        ensures
            final(self).wf(),
            final(self).x@ == old(self).x@.push(features),
            final(self).y@ == old(self).y@.push(labels),
    {
        self.x.push(features);
        self.y.push(labels);
    }

    /// The number of documents.
    pub fn size(&self) -> (r: usize)
        ensures
            r == self.x@.len(),
    {
        self.x.len()
    }

    /// Cut the corpus down to its first `n` documents, or pad it with
    /// empty ones up to `n`.
    pub fn resize(&mut self, n: usize)
        requires
            old(self).wf(),
        ensures
            final(self).wf(),
            final(self).x@.len() == n,
            final(self).y@.len() == n,
            forall|i: int|
                0 <= i < n && i < old(self).x@.len() ==> #[trigger] final(self).x@[i] == old(
                    self,
                ).x@[i] && final(self).y@[i] == old(self).y@[i],
            forall|i: int|
                old(self).x@.len() <= i < n ==> (#[trigger] final(self).x@[i])@.len() == 0,
            forall|i: int|
                old(self).y@.len() <= i < n ==> (#[trigger] final(self).y@[i])@.len() == 0,
    {
        if n <= self.x.len() {
            self.x.truncate(n);
            self.y.truncate(n);
        } else {
            let ghost n0 = self.x@.len();
            while self.x.len() < n
                invariant
                    self.wf(),
                    n0 <= self.x@.len() <= n,
                    forall|i: int| 0 <= i < n0 ==> #[trigger] self.x@[i] == old(self).x@[i],
                    forall|i: int| 0 <= i < n0 ==> #[trigger] self.y@[i] == old(self).y@[i],
                    forall|i: int| n0 <= i < self.x@.len() ==> (#[trigger] self.x@[i])@.len() == 0,
                    forall|i: int| n0 <= i < self.y@.len() ==> (#[trigger] self.y@[i])@.len() == 0,
                decreases n - self.x@.len(),
            {
                let ghost px = self.x@;
                let ghost py = self.y@;
                let fresh_x: FeatureVec = Vec::new();
                let fresh_y: LabelVec = Vec::new();
                self.x.push(fresh_x);
                self.y.push(fresh_y);
                proof {
                    assert forall|i: int|
                        n0 <= i < self.x@.len() implies (#[trigger] self.x@[i])@.len() == 0 by {
                        if i < px.len() {
                            assert(self.x@[i] == px[i]);
                        } else {
                            assert(self.x@[i] == fresh_x);
                        }
                    }
                    assert forall|i: int|
                        n0 <= i < self.y@.len() implies (#[trigger] self.y@[i])@.len() == 0 by {
                        if i < py.len() {
                            assert(self.y@[i] == py[i]);
                        } else {
                            assert(self.y@[i] == fresh_y);
                        }
                    }
                }
            }
        }
    }
}

} // verus!
