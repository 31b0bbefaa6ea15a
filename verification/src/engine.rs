//! The engine: a payload store and an index that are written together and
//! searched under one normalization policy.

use vstd::prelude::*;
use vstd::string::StringExecFns;
use crate::arith::Arith;
use crate::config::ArmsConfig;
use crate::flat::{FlatIndex, NearError, reaching};
use crate::index::Index;
use crate::id::Id;
use crate::kernel::{
    normalize, normalize_spec, merge, merge_spec, views, proximity, proximity_spec,
    DimensionMismatch,
};
use crate::point::{Point, Blob, PlacedPoint};
use crate::rank::{SearchResult, is_top, ranked};
use crate::storage::{MemoryStorage, PlaceError, entry_size};

verus! {

/// The vector that is stored or searched for when `v` is given: `v` brought
/// to length one where the settings ask for it, else `v` itself.
pub open spec fn prepared<A: Arith>(ar: &A, config: ArmsConfig, v: Seq<u32>) -> Seq<u32> {
    if config.normalize_on_insert {
        normalize_spec(ar, v).0
    } else {
        v
    }
}

/// The message of a refusal by the index, as the store's error carries it.
pub open spec fn refusal(e: NearError) -> Seq<char> {
    "Index error: "@ + e.message()
}

/// The message of a refusal by the index.
fn index_refusal(e: &NearError) -> (message: String)
    ensures
        message@ == refusal(*e),
{
    let mut s = "Index error: ".to_owned();
    s.append(e.describe().as_str());
    s
}

/// The engine.
pub struct Arms<A: Arith> {
    config: ArmsConfig,
    storage: MemoryStorage,
    index: Index,
    arith: A,
}

impl<A: Arith> Arms<A> {
    /// Whether store and index are each consistent. Every engine made and
    /// changed by the functions of this type is.
    pub closed spec fn wf(&self) -> bool {
        self.storage.wf() && self.index.wf()
    }

    /// The settings.
    pub closed spec fn settings(&self) -> ArmsConfig {
        self.config
    }

    /// The payload store.
    pub closed spec fn store(&self) -> MemoryStorage {
        self.storage
    }

    /// The index.
    pub closed spec fn indexed(&self) -> Index {
        self.index
    }

    /// The arithmetic.
    pub closed spec fn arithmetic(&self) -> &A {
        &self.arith
    }

    /// Whether the parts that `place` does not touch are as they were.
    pub open spec fn same_frame(&self, other: &Arms<A>) -> bool {
        &&& self.settings() == other.settings()
        &&& self.arithmetic() == other.arithmetic()
        &&& self.store().dim() == other.store().dim()
        &&& self.store().budget() == other.store().budget()
        &&& other.indexed().same_frame(&self.indexed())
    }

    /// An engine with an unbounded store in memory and a flat index.
    pub fn new(config: ArmsConfig, arith: A) -> (arms: Arms<A>)
        ensures
            arms.wf(),
            arms.settings() == config,
            arms.arithmetic() == &arith,
            arms.store().entries() == Map::<Id, PlacedPoint>::empty(),
            arms.store().count() == 0,
            arms.store().dim() == config.dimensionality,
            arms.store().budget() == 0,
            arms.indexed() is Flat,
            arms.indexed().count() == 0,
            arms.indexed().dim() == config.dimensionality,
            arms.indexed().metric() == config.metric,
    {
        let storage = MemoryStorage::new(config.dimensionality);
        let index = Index::Flat(FlatIndex::new(config.dimensionality, config.metric));
        Arms { config, storage, index, arith }
    }

    /// An engine over the given store and index.
    pub fn with_adapters(config: ArmsConfig, storage: MemoryStorage, index: Index, arith: A) -> (arms:
        Arms<A>)
        requires
            storage.wf(),
            index.wf(),
        ensures
            arms.wf(),
            arms.settings() == config,
            arms.arithmetic() == &arith,
            arms.store() == storage,
            arms.indexed() == index,
    {
        Arms { config, storage, index, arith }
    }

    /// The settings.
    pub fn config(&self) -> (c: &ArmsConfig)
        ensures
            *c == self.settings(),
    {
        &self.config
    }

    /// The index.
    pub fn index(&self) -> (i: &Index)
        ensures
            *i == self.indexed(),
    {
        &self.index
    }

    /// The payload store.
    pub fn storage(&self) -> (s: &MemoryStorage)
        ensures
            *s == self.store(),
    {
        &self.storage
    }

    /// The dimensionality of the space.
    pub fn dimensionality(&self) -> (d: usize)
        ensures
            d == self.settings().dimensionality,
    {
        self.config.dimensionality
    }

    /// `point` as it is stored or searched for.
    fn prepare(&self, point: &Point) -> (p: Point)
        ensures
            p@ == prepared(&self.arith, self.config, point@),
            p@.len() == point@.len(),
    {
        if self.config.normalize_on_insert {
            normalize(&self.arith, point).0
        } else {
            point.clone()
        }
    }

    /// Places `point` with `blob` under a new identifier, in the store and
    /// in the index. Where the index refuses what the store accepted, the
    /// store is put back as it was.
    pub fn place(&mut self, point: Point, blob: Blob) -> (r: Result<Id, PlaceError>)
        requires
            old(self).wf(),
        ensures
            final(self).wf(),
            final(self).same_frame(old(self)),
            match r {
                Ok(id) => {
                    let v = prepared(old(self).arithmetic(), old(self).settings(), point@);
                    &&& v.len() == old(self).store().dim()
                    &&& v.len() == old(self).indexed().dim()
                    &&& !old(self).store().entries().contains_key(id)
                    &&& old(self).store().admits(entry_size(v.len(), blob@.len()))
                    &&& final(self).store().entries().dom() == old(self).store().entries().dom().insert(id)
                    &&& final(self).store().entries()[id].id == id
                    &&& final(self).store().entries()[id].point@ == v
                    &&& final(self).store().entries()[id].blob == blob
                    &&& forall|other: Id|
                        other != id && old(self).store().entries().contains_key(other)
                            ==> final(self).store().entries()[other] == old(self).store().entries()[other]
                    &&& final(self).store().count() == old(self).store().count() + 1
                    &&& old(self).indexed().grown(&final(self).indexed(), old(self).arithmetic(), id, v)
                },
                Err(e) => {
                    let v = prepared(old(self).arithmetic(), old(self).settings(), point@);
                    &&& final(self).store().entries() == old(self).store().entries()
                    &&& final(self).store().count() == old(self).store().count()
                    &&& final(self).store().accounted() == old(self).store().accounted()
                    &&& old(self).indexed().same_content(&final(self).indexed())
                    &&& match e {
                        PlaceError::DimensionalityMismatch { expected, got } => {
                            &&& v.len() != old(self).store().dim()
                            &&& expected == old(self).store().dim()
                            &&& got == v.len()
                        },
                        PlaceError::CapacityExceeded => {
                            &&& v.len() == old(self).store().dim()
                            &&& !old(self).store().admits(entry_size(v.len(), blob@.len()))
                        },
                        PlaceError::DuplicateId(id) => {
                            &&& v.len() == old(self).store().dim()
                            &&& old(self).store().entries().contains_key(id)
                        },
                        PlaceError::StorageError(m) => v.len() == old(self).store().dim()
                            && old(self).store().admits(entry_size(v.len(), blob@.len()))
                            && exists|e: NearError|
                            m@ == #[trigger] refusal(e) && match e {
                                NearError::DimensionalityMismatch { expected, got } => v.len()
                                    != old(self).indexed().dim()
                                    && expected == old(self).indexed().dim()
                                    && got == v.len(),
                                NearError::DuplicateId(_) => old(self).indexed() is Hat,
                                NearError::NotFound(_) => false,
                            },
                    }
                },
            },
    {
        let point = self.prepare(&point);
        let ghost before = self.storage.entries();
        let id = match self.storage.place(point.clone(), blob) {
            Ok(id) => id,
            Err(e) => {
                return Err(e);
            },
        };
        match self.index.add(&self.arith, id, &point) {
            Ok(()) => Ok(id),
            Err(e) => {
                self.storage.remove(id);
                assert(self.storage.entries() =~= before);
                let m = index_refusal(&e);
                assert(m@ == refusal(e));
                Err(PlaceError::StorageError(m))
            },
        }
    }

    /// Places each of `items`, in order. One that is refused is left out
    /// and does not stop the others.
    pub fn place_batch(&mut self, items: Vec<(Point, Blob)>) -> (out: Vec<Result<Id, PlaceError>>)
        requires
            old(self).wf(),
        ensures
            final(self).wf(),
            final(self).same_frame(old(self)),
            out@.len() == items@.len(),
            final(self).store().count() == old(self).store().count() + placed_among(
                out@,
                out@.len(),
            ),
            forall|i: int|
                0 <= i < out@.len() ==> batch_outcome(
                    old(self).arithmetic(),
                    old(self).settings(),
                    old(self).store().dim(),
                    final(self).store().entries(),
                    items@[i],
                    #[trigger] out@[i],
                ),
    {
        let mut out: Vec<Result<Id, PlaceError>> = Vec::new();
        let mut i: usize = 0;
        while i < items.len()
            invariant
                i <= items@.len(),
                self.wf(),
                self.same_frame(old(self)),
                out@.len() == i,
                self.store().count() == old(self).store().count() + placed_among(out@, i as nat),
                forall|j: int|
                    0 <= j < i ==> batch_outcome(
                        old(self).arithmetic(),
                        old(self).settings(),
                        old(self).store().dim(),
                        self.store().entries(),
                        items@[j],
                        #[trigger] out@[j],
                    ),
            decreases items.len() - i,
        {
            let point = items[i].0.clone();
            let blob = items[i].1.clone();
            let ghost before = self.store().entries();
            let ghost done = out@;
            let r = self.place(point, blob);
            out.push(r);
            proof {
                lemma_placed_among_same(done, out@, i as nat);
                assert forall|j: int| 0 <= j < i + 1 implies batch_outcome(
                    old(self).arithmetic(),
                    old(self).settings(),
                    old(self).store().dim(),
                    self.store().entries(),
                    items@[j],
                    #[trigger] out@[j],
                ) by {
                    if j < i {
                        assert(out@[j] == done[j]);
                        assert(batch_outcome(
                            old(self).arithmetic(),
                            old(self).settings(),
                            old(self).store().dim(),
                            before,
                            items@[j],
                            done[j],
                        ));
                        match (done[j], r) {
                            (Ok(id), Ok(new_id)) => {
                                assert(before.contains_key(id));
                                assert(self.store().entries().dom().contains(id));
                            },
                            _ => {},
                        }
                    } else {
                        match r {
                            Ok(new_id) => {
                                assert(self.store().entries().dom().contains(new_id));
                            },
                            Err(_) => {},
                        }
                    }
                }
            }
            i = i + 1;
        }
        out
    }

    /// Takes the entry under `id` out of the index and out of the store.
    pub fn remove(&mut self, id: Id) -> (r: Option<PlacedPoint>)
        requires
            old(self).wf(),
        ensures
            final(self).wf(),
            final(self).same_frame(old(self)),
            final(self).store().entries() == old(self).store().entries().remove(id),
            old(self).indexed().shrunk(&final(self).indexed(), old(self).arithmetic(), id),
            match r {
                Some(p) => {
                    &&& old(self).store().entries().contains_key(id)
                    &&& p == old(self).store().entries()[id]
                    &&& final(self).store().count() == old(self).store().count() - 1
                },
                None => {
                    &&& !old(self).store().entries().contains_key(id)
                    &&& final(self).store().count() == old(self).store().count()
                },
            },
    {
        self.index.remove(&self.arith, id);
        self.storage.remove(id)
    }

    /// The entry under `id`.
    pub fn get(&self, id: Id) -> (r: Option<&PlacedPoint>)
        requires
            self.wf(),
        ensures
            match r {
                Some(p) => self.store().entries().contains_key(id) && *p
                    == self.store().entries()[id] && p.id == id,
                None => !self.store().entries().contains_key(id),
            },
    {
        self.storage.get(id)
    }

    /// Whether there is an entry under `id`.
    pub fn contains(&self, id: Id) -> (b: bool)
        ensures
            b == self.store().entries().contains_key(id),
    {
        self.storage.contains(id)
    }

    /// The number of entries in the store.
    pub fn len(&self) -> (n: usize)
        ensures
            n == self.store().count(),
    {
        self.storage.len()
    }

    /// Whether the store is empty.
    pub fn is_empty(&self) -> (b: bool)
        ensures
            b == (self.store().count() == 0),
    {
        self.storage.is_empty()
    }

    /// Removes every entry from the store and from the index.
    pub fn clear(&mut self)
        requires
            old(self).wf(),
        ensures
            final(self).wf(),
            final(self).same_frame(old(self)),
            final(self).store().entries() == Map::<Id, PlacedPoint>::empty(),
            final(self).store().count() == 0,
            final(self).store().accounted() == 0,
            old(self).indexed().emptied(&final(self).indexed()),
    {
        self.storage.clear();
        self.index.rebuild();
    }

    /// The `k` entries of the index nearest to `query`, nearest first.
    pub fn near(&self, query: &Point, k: usize) -> (r: Result<Vec<SearchResult>, NearError>)
        requires
            self.wf(),
        ensures
            match r {
                Ok(out) => {
                    let q = prepared(self.arithmetic(), self.settings(), query@);
                    &&& query@.len() == self.indexed().dim()
                    &&& self.indexed().answers(self.arithmetic(), q, k as nat, out@)
                    &&& ranked(out@)
                    &&& out@.len() <= k
                },
                Err(NearError::DimensionalityMismatch { expected, got }) => query@.len()
                    != self.indexed().dim() && expected == self.indexed().dim() && got
                    == query@.len(),
                Err(_) => false,
            },
    {
        let query = self.prepare(query);
        self.index.near(&self.arith, &query, k)
    }

    /// Every entry of the index whose proximity to `query` reaches
    /// `threshold`, nearest first.
    pub fn within(&self, query: &Point, threshold: u32) -> (r: Result<
        Vec<SearchResult>,
        NearError,
    >)
        requires
            self.wf(),
        ensures
            match r {
                Ok(out) => {
                    let q = prepared(self.arithmetic(), self.settings(), query@);
                    let all = self.indexed().scores(self.arithmetic(), q);
                    let hits = reaching(all, threshold, all.len());
                    &&& query@.len() == self.indexed().dim()
                    &&& is_top(out@, hits, hits.len())
                    &&& ranked(out@)
                    &&& out@.len() == hits.len()
                },
                Err(NearError::DimensionalityMismatch { expected, got }) => query@.len()
                    != self.indexed().dim() && expected == self.indexed().dim() && got
                    == query@.len(),
                Err(_) => false,
            },
    {
        let query = self.prepare(query);
        self.index.within(&self.arith, &query, threshold)
    }

    /// The entries of `results` that the store holds, each with its score,
    /// in the order of `results`.
    pub fn with_data(&self, results: &Vec<SearchResult>) -> (out: Vec<(&PlacedPoint, u32)>)
        requires
            self.wf(),
        ensures
            referred(out@) == held(self.store().entries(), results@, results@.len()),
    {
        let mut out: Vec<(&PlacedPoint, u32)> = Vec::new();
        assert(referred(out@) =~= Seq::empty());
        let mut i: usize = 0;
        while i < results.len()
            invariant
                i <= results@.len(),
                self.wf(),
                referred(out@) == held(self.store().entries(), results@, i as nat),
            decreases results.len() - i,
        {
            let ghost before = referred(out@);
            match self.storage.get(results[i].id) {
                Some(p) => {
                    out.push((p, results[i].score));
                    assert(referred(out@) =~= before.push((*p, results@[i as int].score)));
                },
                None => {},
            }
            i = i + 1;
        }
        out
    }

    /// The `k` entries nearest to `query` with what the store holds for
    /// them, nearest first; what the store does not hold is left out.
    pub fn near_with_data(&self, query: &Point, k: usize) -> (r: Result<
        Vec<(&PlacedPoint, u32)>,
        NearError,
    >)
        requires
            self.wf(),
        ensures
            match r {
                Ok(out) => {
                    let q = prepared(self.arithmetic(), self.settings(), query@);
                    &&& query@.len() == self.indexed().dim()
                    &&& exists|found: Seq<SearchResult>| #[trigger]
                        self.indexed().answers(self.arithmetic(), q, k as nat, found) && referred(
                            out@,
                        ) == held(self.store().entries(), found, found.len())
                },
                Err(NearError::DimensionalityMismatch { expected, got }) => query@.len()
                    != self.indexed().dim() && expected == self.indexed().dim() && got
                    == query@.len(),
                Err(_) => false,
            },
    {
        match self.near(query, k) {
            Err(e) => Err(e),
            Ok(found) => Ok(self.with_data(&found)),
        }
    }

    /// The merge of `points` by the configured way of merging.
    pub fn merge(&self, points: &[Point]) -> (p: Point)
        ensures
            p@ == merge_spec(
                self.arithmetic(),
                self.settings().merge,
                views(points@),
                self.settings().dimensionality as nat,
            ),
            p@.len() == self.settings().dimensionality,
    {
        merge(&self.arith, self.config.merge, points, self.config.dimensionality)
    }

    /// The proximity of `a` and `b` under the configured metric.
    pub fn proximity(&self, a: &Point, b: &Point) -> (r: Result<u32, DimensionMismatch>)
        ensures
            match r {
                Ok(s) => a@.len() == b@.len() && s == proximity_spec(
                    self.arithmetic(),
                    self.settings().metric,
                    a@,
                    b@,
                ),
                Err(e) => a@.len() != b@.len() && e.expected == a@.len() && e.got == b@.len(),
            },
    {
        proximity(&self.arith, self.config.metric, a, b)
    }

    /// The bytes that the store accounts for.
    pub fn size_bytes(&self) -> (n: usize)
        ensures
            n == self.store().accounted(),
    {
        self.storage.size_bytes()
    }

    /// The number of vectors in the index.
    pub fn index_len(&self) -> (n: usize)
        requires
            self.wf(),
        ensures
            n == crate::hat::capped_count(self.indexed().count()),
    {
        self.index.len()
    }

    /// Whether the index can be searched.
    pub fn is_ready(&self) -> (b: bool)
        ensures
            b,
    {
        self.index.is_ready()
    }
}

/// How many of the first `n` of `out` were placed.
pub open spec fn placed_among(out: Seq<Result<Id, PlaceError>>, n: nat) -> nat
    decreases n,
{
    if n == 0 {
        0
    } else {
        placed_among(out, (n - 1) as nat) + if out[n - 1] is Ok {
            1nat
        } else {
            0nat
        }
    }
}

/// The count depends only on what is counted.
pub proof fn lemma_placed_among_same(
    a: Seq<Result<Id, PlaceError>>,
    b: Seq<Result<Id, PlaceError>>,
    n: nat,
)
    requires
        n <= a.len(),
        n <= b.len(),
        forall|i: int| 0 <= i < n ==> a[i] == b[i],
    ensures
        placed_among(a, n) == placed_among(b, n),
    decreases n,
{
    if n > 0 {
        lemma_placed_among_same(a, b, (n - 1) as nat);
    }
}

/// Whether `outcome` is what placing `item` in a batch came to, with
/// `entries` in a store of `dim` dimensions afterwards: an item that was
/// placed lies in the store under its identifier, as it was prepared and
/// with its payload, and an item is refused for its dimensionality only
/// where that is not the one of the store.
pub open spec fn batch_outcome<A: Arith>(
    ar: &A,
    config: ArmsConfig,
    dim: nat,
    entries: Map<Id, PlacedPoint>,
    item: (Point, Blob),
    outcome: Result<Id, PlaceError>,
) -> bool {
    let v = prepared(ar, config, item.0@);
    match outcome {
        Ok(id) => {
            &&& v.len() == dim
            &&& entries.contains_key(id)
            &&& entries[id].id == id
            &&& entries[id].point@ == v
            &&& entries[id].blob@ == item.1@
        },
        Err(PlaceError::DimensionalityMismatch { expected, got }) => {
            &&& v.len() != dim
            &&& expected == dim
            &&& got == v.len()
        },
        Err(_) => v.len() == dim,
    }
}

/// The first `n` of `results` that `entries` holds, each with what is
/// held for it and its score.
pub open spec fn held(entries: Map<Id, PlacedPoint>, results: Seq<SearchResult>, n: nat) -> Seq<
    (PlacedPoint, u32),
>
    decreases n,
{
    if n == 0 {
        Seq::empty()
    } else {
        let front = held(entries, results, (n - 1) as nat);
        let r = results[n - 1];
        if entries.contains_key(r.id) {
            front.push((entries[r.id], r.score))
        } else {
            front
        }
    }
}

/// What the references of `out` refer to.
pub open spec fn referred(out: Seq<(&PlacedPoint, u32)>) -> Seq<(PlacedPoint, u32)> {
    Seq::new(out.len(), |i: int| (*out[i].0, out[i].1))
}

} // verus!
