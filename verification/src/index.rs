//! The index behind an engine: flat or hierarchical.

use vstd::prelude::*;
use crate::arith::Arith;
use crate::flat::{FlatIndex, NearError, scored, reaching, without};
use crate::hat::{HatIndex, HatModel, Probe, found, plain, chunk_scores, all_chunks};
use crate::id::Id;
use crate::kernel::Metric;
use crate::point::Point;
use crate::rank::{SearchResult, is_top, ranked};

verus! {

/// An index of either kind.
pub enum Index {
    /// All vectors in one list.
    Flat(FlatIndex),
    /// Vectors as chunks of documents of sessions.
    Hat(HatIndex),
}

impl Index {
    /// Whether the index is consistent.
    pub open spec fn wf(&self) -> bool {
        match self {
            Index::Flat(f) => f.wf(),
            Index::Hat(h) => h.wf(),
        }
    }

    /// The dimensionality that every vector of the index has.
    pub open spec fn dim(&self) -> nat {
        match self {
            Index::Flat(f) => f.dim(),
            Index::Hat(h) => h.dim(),
        }
    }

    /// The metric by which the index scores.
    pub open spec fn metric(&self) -> Metric {
        match self {
            Index::Flat(f) => f.metric(),
            Index::Hat(h) => h.metric(),
        }
    }

    /// The number of vectors.
    pub open spec fn count(&self) -> nat {
        match self {
            Index::Flat(f) => f.entries().len(),
            Index::Hat(h) => h@.chunk_count(),
        }
    }

    /// Whether `after` is an index of the same kind with the same
    /// dimensionality, metric and settings.
    pub open spec fn same_frame(&self, after: &Index) -> bool {
        match (self, after) {
            (Index::Flat(a), Index::Flat(b)) => a.dim() == b.dim() && a.metric() == b.metric(),
            (Index::Hat(a), Index::Hat(b)) => b.same_frame(a),
            _ => false,
        }
    }

    /// Whether `after` holds what this index holds.
    pub open spec fn same_content(&self, after: &Index) -> bool {
        match (self, after) {
            (Index::Flat(a), Index::Flat(b)) => a.entries() == b.entries(),
            (Index::Hat(a), Index::Hat(b)) => a@ == b@,
            _ => false,
        }
    }

    /// Whether `after` is this index with `v` added under `id`: at the end
    /// of a flat index, in the current document of a hierarchical one.
    pub open spec fn grown<A: Arith>(&self, after: &Index, ar: &A, id: Id, v: Seq<u32>) -> bool {
        match (self, after) {
            (Index::Flat(a), Index::Flat(b)) => b.entries() == a.entries().push((id, v)),
            (Index::Hat(a), Index::Hat(b)) => !a@.holds(id) && exists|
                fresh_session: Id,
                fresh_document: Id,
            |
                b@ == #[trigger] a@.added(
                    ar,
                    a.settings().propagation_threshold,
                    a.dim(),
                    id,
                    v,
                    fresh_session,
                    fresh_document,
                ),
            _ => false,
        }
    }

    /// Whether `after` is this index without what stood under `id`.
    pub open spec fn shrunk<A: Arith>(&self, after: &Index, ar: &A, id: Id) -> bool {
        match (self, after) {
            (Index::Flat(a), Index::Flat(b)) => b.entries() == without(
                a.entries(),
                id,
                a.entries().len(),
            ),
            (Index::Hat(a), Index::Hat(b)) => b@ == a@.removed(ar, id),
            _ => false,
        }
    }

    /// Whether `after` is this index with nothing in it.
    pub open spec fn emptied(&self, after: &Index) -> bool {
        match (self, after) {
            (Index::Flat(a), Index::Flat(b)) => b.entries() == Seq::<(Id, Seq<u32>)>::empty(),
            (Index::Hat(a), Index::Hat(b)) => b@ == (HatModel {
                sessions: Seq::empty(),
                current_session: None,
                current_document: None,
            }),
            _ => false,
        }
    }

    /// Whether `out` answers a search for the `k` nearest to `q`: the best
    /// `k` of all in a flat index, what a descent finds at some time in a
    /// hierarchical one.
    pub open spec fn answers<A: Arith>(&self, ar: &A, q: Seq<u32>, k: nat, out: Seq<SearchResult>) -> bool {
        match self {
            Index::Flat(f) => is_top(out, scored(ar, f.metric(), q, f.entries()), k),
            Index::Hat(h) => exists|now_ms: u64| #[trigger]
                found(
                    ar,
                    Probe {
                        metric: h.metric(),
                        weight: h.settings().temporal_weight,
                        now_ms,
                        query: q,
                    },
                    h@.sessions,
                    h.settings().beam_width as nat,
                    k,
                    out,
                ),
        }
    }

    /// Every vector of the index with its proximity to `q`.
    pub open spec fn scores<A: Arith>(&self, ar: &A, q: Seq<u32>) -> Seq<SearchResult> {
        match self {
            Index::Flat(f) => scored(ar, f.metric(), q, f.entries()),
            Index::Hat(h) => chunk_scores(ar, plain(h.metric(), q), all_chunks(h@.sessions)),
        }
    }

    /// The dimensionality that every vector of the index has.
    pub fn dimensionality(&self) -> (d: usize)
        ensures
            d == self.dim(),
    {
        match self {
            Index::Flat(f) => f.dimensionality(),
            Index::Hat(h) => h.dimensionality(),
        }
    }

    /// The number of vectors, capped at the greatest `usize`.
    pub fn len(&self) -> (n: usize)
        requires
            self.wf(),
        ensures
            n == crate::hat::capped_count(self.count()),
    {
        match self {
            Index::Flat(f) => f.len(),
            Index::Hat(h) => h.len(),
        }
    }

    /// Whether the index can be searched, which it always can.
    pub fn is_ready(&self) -> (b: bool)
        ensures
            b,
    {
        true
    }

    /// Adds `point` under `id`.
    pub fn add<A: Arith>(&mut self, ar: &A, id: Id, point: &Point) -> (r: Result<(), NearError>)
        requires
            old(self).wf(),
        ensures
            final(self).wf(),
            old(self).same_frame(final(self)),
            match r {
                Ok(()) => point@.len() == old(self).dim() && old(self).grown(
                    final(self),
                    ar,
                    id,
                    point@,
                ),
                Err(e) => old(self).same_content(final(self)) && match e {
                    NearError::DimensionalityMismatch { expected, got } => {
                        &&& point@.len() != old(self).dim()
                        &&& expected == old(self).dim()
                        &&& got == point@.len()
                    },
                    NearError::DuplicateId(_) => point@.len() == old(self).dim()
                        && *old(self) is Hat,
                    NearError::NotFound(_) => false,
                },
            },
    {
        match self {
            Index::Flat(f) => f.add(id, point),
            Index::Hat(h) => h.add(ar, id, point),
        }
    }

    /// Removes what stands under `id`; tells whether there was anything.
    pub fn remove<A: Arith>(&mut self, ar: &A, id: Id) -> (found: bool)
        requires
            old(self).wf(),
        ensures
            final(self).wf(),
            old(self).same_frame(final(self)),
            old(self).shrunk(final(self), ar, id),
    {
        match self {
            Index::Flat(f) => f.remove(id),
            Index::Hat(h) => h.remove(ar, id),
        }
    }

    /// Forgets every vector.
    pub fn rebuild(&mut self)
        requires
            old(self).wf(),
        ensures
            final(self).wf(),
            old(self).same_frame(final(self)),
            old(self).emptied(final(self)),
    {
        match self {
            Index::Flat(f) => f.rebuild(),
            Index::Hat(h) => h.clear(),
        }
    }

    /// The `k` vectors nearest to `query`, nearest first.
    pub fn near<A: Arith>(&self, ar: &A, query: &Point, k: usize) -> (r: Result<
        Vec<SearchResult>,
        NearError,
    >)
        requires
            self.wf(),
        ensures
            match r {
                Ok(out) => query@.len() == self.dim() && ranked(out@) && out@.len() <= k
                    && self.answers(ar, query@, k as nat, out@),
                Err(NearError::DimensionalityMismatch { expected, got }) => query@.len()
                    != self.dim() && expected == self.dim() && got == query@.len(),
                Err(_) => false,
            },
    {
        match self {
            Index::Flat(f) => f.near(ar, query, k),
            Index::Hat(h) => h.near(ar, query, k),
        }
    }

    /// Every vector whose proximity to `query` reaches `threshold`,
    /// nearest first.
    pub fn within<A: Arith>(&self, ar: &A, query: &Point, threshold: u32) -> (r: Result<
        Vec<SearchResult>,
        NearError,
    >)
        requires
            self.wf(),
        ensures
            match r {
                Ok(out) => {
                    let all = self.scores(ar, query@);
                    let hits = reaching(all, threshold, all.len());
                    query@.len() == self.dim() && is_top(out@, hits, hits.len()) && ranked(out@)
                        && out@.len() == hits.len()
                },
                Err(NearError::DimensionalityMismatch { expected, got }) => query@.len()
                    != self.dim() && expected == self.dim() && got == query@.len(),
                Err(_) => false,
            },
    {
        match self {
            Index::Flat(f) => f.within(ar, query, threshold),
            Index::Hat(h) => h.within(ar, query, threshold),
        }
    }
}

} // verus!
