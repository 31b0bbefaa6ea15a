//! The flat index: a bag of vectors under identifiers that is searched by
//! scoring every one of them.

use vstd::prelude::*;
use crate::arith::{Arith, is_nan, order_key, nan, key};
use crate::id::{Id, hex_text};
use crate::text::{decimal_text, push_decimal};
use vstd::string::StringExecFns;
use crate::kernel::{Metric, proximity, proximity_spec};
use crate::point::Point;
use crate::rank::{SearchResult, is_top, ranked, rank};

verus! {

/// Why an index refused a vector.
#[derive(Debug, Clone, Copy, PartialEq, Eq, Structural)]
pub enum NearError {
    /// The vector has another dimensionality than the index.
    DimensionalityMismatch { expected: usize, got: usize },
    /// The identifier is taken.
    DuplicateId(Id),
    /// Nothing stands under the identifier.
    NotFound(Id),
}

impl NearError {
    /// The error in words.
    pub open spec fn message(self) -> Seq<char> {
        match self {
            NearError::DimensionalityMismatch { expected, got } => "dimensionality mismatch: expected "@
                + decimal_text(expected as nat) + ", got "@ + decimal_text(got as nat),
            NearError::DuplicateId(id) => "duplicate id: "@ + hex_text(id.bytes()),
            NearError::NotFound(id) => "id not found: "@ + hex_text(id.bytes()),
        }
    }

    /// The error in words.
    pub fn describe(&self) -> (s: String)
        ensures
            s@ == self.message(),
    {
        match self {
            NearError::DimensionalityMismatch { expected, got } => {
                let mut s = "dimensionality mismatch: expected ".to_owned();
                push_decimal(&mut s, *expected as u64);
                s.append(", got ");
                push_decimal(&mut s, *got as u64);
                s
            },
            NearError::DuplicateId(id) => {
                let mut s = "duplicate id: ".to_owned();
                s.append(id.to_hex().as_str());
                s
            },
            NearError::NotFound(id) => {
                let mut s = "id not found: ".to_owned();
                s.append(id.to_hex().as_str());
                s
            },
        }
    }
}

/// Whether the number `score` is at least the number `threshold`; a word
/// that is no number is at least nothing, and nothing is at least it.
pub open spec fn at_least(score: u32, threshold: u32) -> bool {
    !is_nan(score) && !is_nan(threshold) && order_key(score) >= order_key(threshold)
}

/// Whether the number `score` is at least the number `threshold`.
pub fn reaches(score: u32, threshold: u32) -> (r: bool)
    ensures
        r == at_least(score, threshold),
{
    !nan(score) && !nan(threshold) && key(score) >= key(threshold)
}

/// Each of `entries` with its proximity to `q` under `metric`.
pub open spec fn scored<A: Arith>(
    ar: &A,
    metric: Metric,
    q: Seq<u32>,
    entries: Seq<(Id, Seq<u32>)>,
) -> Seq<SearchResult> {
    Seq::new(
        entries.len(),
        |i: int| SearchResult { id: entries[i].0, score: proximity_spec(ar, metric, q, entries[i].1) },
    )
}

/// The first `n` of `results` that reach `threshold`, in their order.
pub open spec fn reaching(results: Seq<SearchResult>, threshold: u32, n: nat) -> Seq<SearchResult>
    decreases n,
{
    if n == 0 {
        Seq::empty()
    } else {
        let front = reaching(results, threshold, (n - 1) as nat);
        if at_least(results[n - 1].score, threshold) {
            front.push(results[n - 1])
        } else {
            front
        }
    }
}

/// The first `n` of `entries` that do not stand under `id`, in their order.
pub open spec fn without(entries: Seq<(Id, Seq<u32>)>, id: Id, n: nat) -> Seq<(Id, Seq<u32>)>
    decreases n,
{
    if n == 0 {
        Seq::empty()
    } else {
        let front = without(entries, id, (n - 1) as nat);
        if entries[n - 1].0 == id {
            front
        } else {
            front.push(entries[n - 1])
        }
    }
}

/// Nothing of what `without` leaves stands under the identifier, and it
/// leaves no more than there was.
pub proof fn lemma_without(entries: Seq<(Id, Seq<u32>)>, id: Id, n: nat)
    requires
        n <= entries.len(),
    ensures
        without(entries, id, n).len() <= n,
        forall|i: int|
            0 <= i < without(entries, id, n).len() ==> (#[trigger] without(entries, id, n)[i]).0
                != id && entries.take(n as int).contains(without(entries, id, n)[i]),
        (forall|i: int| 0 <= i < n ==> entries[i].0 != id) ==> without(entries, id, n)
            == entries.take(n as int),
    decreases n,
{
    if n > 0 {
        let m = (n - 1) as nat;
        lemma_without(entries, id, m);
        let front = without(entries, id, m);
        let now = without(entries, id, n);
        assert forall|i: int| 0 <= i < now.len() implies (#[trigger] now[i]).0 != id
            && entries.take(n as int).contains(now[i]) by {
            if i < front.len() {
                let e = front[i];
                let j = choose|j: int| 0 <= j < m && entries.take(m as int)[j] == e;
                assert(entries.take(n as int)[j] == e);
            } else {
                assert(entries.take(n as int)[n - 1] == entries[n - 1]);
            }
        }
        if forall|i: int| 0 <= i < n ==> entries[i].0 != id {
            assert(now =~= entries.take(n as int));
        }
    }
}

/// An index that holds every vector in one list.
pub struct FlatIndex {
    dimensionality: usize,
    metric: Metric,
    ids: Vec<Id>,
    points: Vec<Point>,
}

impl FlatIndex {
    /// Whether the index is consistent: every vector has the dimensionality
    /// of the index. Every index made and changed by the functions of this
    /// type is.
    pub closed spec fn wf(&self) -> bool {
        &&& self.ids@.len() == self.points@.len()
        &&& forall|i: int|
            0 <= i < self.points@.len() ==> (#[trigger] self.points@[i])@.len()
                == self.dimensionality
    }

    /// The vectors of the index with their identifiers, in the order in
    /// which they were added.
    pub closed spec fn entries(&self) -> Seq<(Id, Seq<u32>)> {
        Seq::new(self.ids@.len(), |i: int| (self.ids@[i], self.points@[i]@))
    }

    /// The dimensionality that every vector of the index has.
    pub closed spec fn dim(&self) -> nat {
        self.dimensionality as nat
    }

    /// The metric by which the index scores.
    pub closed spec fn metric(&self) -> Metric {
        self.metric
    }

    /// Every vector of a consistent index has its dimensionality.
    pub proof fn lemma_dimensions(&self)
        requires
            self.wf(),
        ensures
            forall|i: int|
                0 <= i < self.entries().len() ==> (#[trigger] self.entries()[i]).1.len()
                    == self.dim(),
    {
    }

    /// An empty index for vectors of the given dimensionality.
    pub fn new(dimensionality: usize, metric: Metric) -> (index: FlatIndex)
        ensures
            index.wf(),
            index.entries() == Seq::<(Id, Seq<u32>)>::empty(),
            index.dim() == dimensionality,
            index.metric() == metric,
    {
        let index = FlatIndex { dimensionality, metric, ids: Vec::new(), points: Vec::new() };
        assert(index.entries() =~= Seq::<(Id, Seq<u32>)>::empty());
        index
    }

    /// The dimensionality that every vector of the index has.
    pub fn dimensionality(&self) -> (d: usize)
        ensures
            d == self.dim(),
    {
        self.dimensionality
    }

    /// The number of vectors.
    pub fn len(&self) -> (n: usize)
        requires
            self.wf(),
        ensures
            n == self.entries().len(),
    {
        self.ids.len()
    }

    /// Whether there is no vector.
    pub fn is_empty(&self) -> (b: bool)
        requires
            self.wf(),
        ensures
            b == (self.entries().len() == 0),
    {
        self.ids.len() == 0
    }

    /// Whether the index can be searched, which a flat index always can.
    pub fn is_ready(&self) -> (b: bool)
        ensures
            b,
    {
        true
    }

    /// Adds `point` under `id`, where `point` has the dimensionality of
    /// the index.
    pub fn add(&mut self, id: Id, point: &Point) -> (r: Result<(), NearError>)
        requires
            old(self).wf(),
        ensures
            final(self).wf(),
            final(self).dim() == old(self).dim(),
            final(self).metric() == old(self).metric(),
            match r {
                Ok(()) => {
                    &&& point@.len() == old(self).dim()
                    &&& final(self).entries() == old(self).entries().push((id, point@))
                },
                Err(NearError::DimensionalityMismatch { expected, got }) => {
                    &&& point@.len() != old(self).dim()
                    &&& expected == old(self).dim()
                    &&& got == point@.len()
                    &&& final(self).entries() == old(self).entries()
                },
                Err(_) => false,
            },
    {
        if point.dimensionality() != self.dimensionality {
            return Err(
                NearError::DimensionalityMismatch {
                    expected: self.dimensionality,
                    got: point.dimensionality(),
                },
            );
        }
        self.ids.push(id);
        self.points.push(point.clone());
        assert(self.entries() =~= old(self).entries().push((id, point@)));
        Ok(())
    }

    /// Removes whatever stands under `id`; tells whether there was anything.
    pub fn remove(&mut self, id: Id) -> (found: bool)
        requires
            old(self).wf(),
        ensures
            final(self).wf(),
            final(self).dim() == old(self).dim(),
            final(self).metric() == old(self).metric(),
            final(self).entries() == without(old(self).entries(), id, old(self).entries().len()),
            found == (final(self).entries().len() < old(self).entries().len()),
    {
        let ghost before = self.entries();
        let n = self.ids.len();
        let mut ids: Vec<Id> = Vec::new();
        let mut points: Vec<Point> = Vec::new();
        let mut i: usize = 0;
        while i < n
            invariant
                i <= n,
                self.wf(),
                n == self.ids@.len(),
                before == self.entries(),
                ids@.len() == points@.len(),
                forall|j: int|
                    0 <= j < points@.len() ==> (#[trigger] points@[j])@.len()
                        == self.dimensionality,
                Seq::new(ids@.len(), |j: int| (ids@[j], points@[j]@)) == without(
                    before,
                    id,
                    i as nat,
                ),
            decreases n - i,
        {
            let ghost kept = Seq::new(ids@.len(), |j: int| (ids@[j], points@[j]@));
            if self.ids[i] != id {
                ids.push(self.ids[i]);
                points.push(self.points[i].clone());
                assert(Seq::new(ids@.len(), |j: int| (ids@[j], points@[j]@)) =~= kept.push(
                    before[i as int],
                ));
            }
            i = i + 1;
        }
        self.ids = ids;
        self.points = points;
        proof {
            assert(self.entries() =~= without(before, id, n as nat));
            lemma_without(before, id, n as nat);
        }
        self.ids.len() < n
    }

    /// Forgets every vector.
    pub fn rebuild(&mut self)
        requires
            old(self).wf(),
        ensures
            final(self).wf(),
            final(self).dim() == old(self).dim(),
            final(self).metric() == old(self).metric(),
            final(self).entries() == Seq::<(Id, Seq<u32>)>::empty(),
    {
        self.ids = Vec::new();
        self.points = Vec::new();
        assert(self.entries() =~= Seq::<(Id, Seq<u32>)>::empty());
    }

    /// Every vector of the index with its proximity to `query`.
    fn scores<A: Arith>(&self, ar: &A, query: &Point) -> (out: Vec<SearchResult>)
        requires
            self.wf(),
            query@.len() == self.dim(),
        ensures
            out@ == scored(ar, self.metric(), query@, self.entries()),
    {
        let ghost goal = scored(ar, self.metric, query@, self.entries());
        let mut out: Vec<SearchResult> = Vec::new();
        let mut i: usize = 0;
        while i < self.ids.len()
            invariant
                self.wf(),
                query@.len() == self.dim(),
                i <= self.ids@.len(),
                goal == scored(ar, self.metric, query@, self.entries()),
                out@ == goal.take(i as int),
            decreases self.ids.len() - i,
        {
            let score = match proximity(ar, self.metric, query, &self.points[i]) {
                Ok(score) => score,
                Err(_) => 0,
            };
            out.push(SearchResult { id: self.ids[i], score });
            assert(out@ =~= goal.take(i + 1));
            i = i + 1;
        }
        assert(out@ =~= goal);
        out
    }

    /// The `k` vectors nearest to `query`, nearest first.
    pub fn near<A: Arith>(&self, ar: &A, query: &Point, k: usize) -> (r: Result<
        Vec<SearchResult>,
        NearError,
    >)
        requires
            self.wf(),
        ensures
            match r {
                Ok(out) => query@.len() == self.dim() && is_top(
                    out@,
                    scored(ar, self.metric(), query@, self.entries()),
                    k as nat,
                ) && ranked(out@) && out@.len() <= k,
                Err(NearError::DimensionalityMismatch { expected, got }) => query@.len()
                    != self.dim() && expected == self.dim() && got == query@.len(),
                Err(_) => false,
            },
    {
        if query.dimensionality() != self.dimensionality {
            return Err(
                NearError::DimensionalityMismatch {
                    expected: self.dimensionality,
                    got: query.dimensionality(),
                },
            );
        }
        let all = self.scores(ar, query);
        Ok(rank(&all, k))
    }

    /// Every vector whose proximity to `query` reaches `threshold`,
    /// nearest first.
    pub fn within<A: Arith>(&self, ar: &A, query: &Point, threshold: u32) -> (r: Result<
        Vec<SearchResult>,
        NearError,
    >)
        requires
            self.wf(),
        ensures
            match r {
                Ok(out) => {
                    let all = scored(ar, self.metric(), query@, self.entries());
                    let hits = reaching(all, threshold, all.len());
                    query@.len() == self.dim() && is_top(out@, hits, hits.len()) && ranked(out@)
                        && out@.len() == hits.len()
                },
                Err(NearError::DimensionalityMismatch { expected, got }) => query@.len()
                    != self.dim() && expected == self.dim() && got == query@.len(),
                Err(_) => false,
            },
    {
        if query.dimensionality() != self.dimensionality {
            return Err(
                NearError::DimensionalityMismatch {
                    expected: self.dimensionality,
                    got: query.dimensionality(),
                },
            );
        }
        let all = self.scores(ar, query);
        let mut hits: Vec<SearchResult> = Vec::new();
        let mut i: usize = 0;
        while i < all.len()
            invariant
                i <= all@.len(),
                hits@ == reaching(all@, threshold, i as nat),
            decreases all.len() - i,
        {
            if reaches(all[i].score, threshold) {
                hits.push(all[i]);
            }
            i = i + 1;
        }
        let n = hits.len();
        Ok(rank(&hits, n))
    }
}

} // verus!
