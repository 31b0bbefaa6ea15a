//! The in-memory payload store: a hash map from identifier to placed
//! entry, with a budget in bytes.

use vstd::prelude::*;
use std::collections::HashMap;
use crate::id::Id;
use crate::point::{Point, Blob, PlacedPoint};

verus! {

broadcast use vstd::std_specs::hash::group_hash_axioms;

/// Why an entry was not placed.
#[derive(Debug)]
pub enum PlaceError {
    /// The vector has another dimensionality than the store.
    DimensionalityMismatch { expected: usize, got: usize },
    /// The entry does not fit the budget of the store.
    CapacityExceeded,
    /// The identifier is taken.
    DuplicateId(Id),
    /// The store or the index behind it failed in the way that the message
    /// names.
    StorageError(String),
}

/// The bytes that an entry is accounted with: sixteen for the identifier,
/// four for each component, the payload, and forty-eight of overhead.
pub open spec fn entry_size(dim: nat, payload: nat) -> nat {
    16 + 4 * dim + payload + 48
}

/// The bytes that `p` is accounted with.
pub open spec fn placed_size(p: PlacedPoint) -> nat {
    entry_size(p.point@.len(), p.blob@.len())
}

/// The bytes that all entries of `m` together are accounted with.
pub open spec fn total_size(m: Map<u128, PlacedPoint>) -> nat
    decreases m.dom().len(),
    when m.dom().finite()
{
    if m.dom().len() == 0 {
        0
    } else {
        let k = m.dom().choose();
        placed_size(m[k]) + total_size(m.remove(k))
    }
}

/// The total is the size of any one entry and the total of the others.
pub proof fn lemma_total_remove(m: Map<u128, PlacedPoint>, k: u128)
    requires
        m.dom().finite(),
        m.contains_key(k),
    ensures
        total_size(m) == placed_size(m[k]) + total_size(m.remove(k)),
    decreases m.dom().len(),
{
    let c = m.dom().choose();
    if m.dom().len() == 0 {
        assert(false);
    }
    if c != k {
        let mc = m.remove(c);
        let mk = m.remove(k);
        assert(mc.dom().len() < m.dom().len());
        assert(mk.dom().len() < m.dom().len());
        lemma_total_remove(mc, k);
        lemma_total_remove(mk, c);
        assert(mc.remove(k) =~= mk.remove(c));
    }
}

/// A new entry adds its size to the total.
pub proof fn lemma_total_insert(m: Map<u128, PlacedPoint>, k: u128, p: PlacedPoint)
    requires
        m.dom().finite(),
        !m.contains_key(k),
    ensures
        total_size(m.insert(k, p)) == total_size(m) + placed_size(p),
{
    lemma_total_remove(m.insert(k, p), k);
    assert(m.insert(k, p).remove(k) =~= m);
}

/// A store of placed entries in memory.
pub struct MemoryStorage {
    points: HashMap<u128, PlacedPoint>,
    dimensionality: usize,
    capacity: usize,
    current_size: usize,
}

impl MemoryStorage {
    /// Whether the store is consistent: every entry lies under its own
    /// identifier and has the dimensionality of the store, and the bytes
    /// accounted are those of the entries. Every store made and changed by
    /// the functions of this type is.
    pub closed spec fn wf(&self) -> bool {
        &&& forall|k: u128| #[trigger]
            self.points@.contains_key(k) ==> self.points@[k].id.key() == k
                && self.points@[k].point@.len() == self.dimensionality
        &&& self.current_size == total_size(self.points@)
    }

    /// The entries of the store by identifier.
    pub closed spec fn entries(&self) -> Map<Id, PlacedPoint> {
        Map::new(|id: Id| self.points@.contains_key(id.key()), |id: Id| self.points@[id.key()])
    }

    /// The number of entries.
    pub closed spec fn count(&self) -> nat {
        self.points@.len()
    }

    /// The dimensionality that every vector of the store has.
    pub closed spec fn dim(&self) -> nat {
        self.dimensionality as nat
    }

    /// The budget in bytes; zero stands for no limit.
    pub closed spec fn budget(&self) -> nat {
        self.capacity as nat
    }

    /// The bytes that the entries are accounted with.
    pub closed spec fn accounted(&self) -> nat {
        self.current_size as nat
    }

    /// Whether an entry of the given size still fits the store.
    pub open spec fn admits(&self, size: nat) -> bool {
        &&& self.budget() == 0 || self.accounted() + size <= self.budget()
        &&& self.accounted() + size <= usize::MAX
    }

    /// Every entry of a consistent store lies under its own identifier and
    /// has the dimensionality of the store.
    pub proof fn lemma_dimensions(&self)
        requires
            self.wf(),
        ensures
            forall|id: Id| #[trigger]
                self.entries().contains_key(id) ==> self.entries()[id].id == id
                    && self.entries()[id].point@.len() == self.dim(),
    {
        assert forall|id: Id| #[trigger] self.entries().contains_key(id) implies self.entries()[id].id
            == id && self.entries()[id].point@.len() == self.dim() by {
            Id::lemma_key_injective(self.points@[id.key()].id, id);
        }
    }

    /// An empty store without a limit for vectors of the given dimensionality.
    pub fn new(dimensionality: usize) -> (s: MemoryStorage)
        ensures
            s.wf(),
            s.entries() == Map::<Id, PlacedPoint>::empty(),
            s.count() == 0,
            s.dim() == dimensionality,
            s.budget() == 0,
            s.accounted() == 0,
    {
        MemoryStorage::with_capacity(dimensionality, 0)
    }

    /// An empty store with the given budget in bytes.
    pub fn with_capacity(dimensionality: usize, capacity: usize) -> (s: MemoryStorage)
        ensures
            s.wf(),
            s.entries() == Map::<Id, PlacedPoint>::empty(),
            s.count() == 0,
            s.dim() == dimensionality,
            s.budget() == capacity,
            s.accounted() == 0,
    {
        let points: HashMap<u128, PlacedPoint> = HashMap::new();
        let s = MemoryStorage { points, dimensionality, capacity, current_size: 0 };
        assert(s.entries() =~= Map::<Id, PlacedPoint>::empty());
        s
    }

    /// The bytes that `point` is accounted with, where they can be counted.
    pub fn point_size(point: &PlacedPoint) -> (n: Option<usize>)
        ensures
            match n {
                Some(n) => n == placed_size(*point),
                None => placed_size(*point) > usize::MAX,
            },
    {
        let dim = point.point.dimensionality() as u128;
        let size: u128 = 16 + 4 * dim + (point.blob.size() as u128) + 48;
        if size > usize::MAX as u128 {
            None
        } else {
            Some(size as usize)
        }
    }

    /// The dimensionality that every vector of the store has.
    pub fn dimensionality(&self) -> (d: usize)
        ensures
            d == self.dim(),
    {
        self.dimensionality
    }

    /// The budget in bytes; zero stands for no limit.
    pub fn capacity(&self) -> (c: usize)
        ensures
            c == self.budget(),
    {
        self.capacity
    }

    /// Places `point` with `blob` under a new identifier.
    ///
    /// The identifier is drawn from the clock and from entropy, so nothing
    /// is known of it in advance; should it be taken already, the entry is
    /// refused as a duplicate and the store is left as it was.
    pub fn place(&mut self, point: Point, blob: Blob) -> (r: Result<Id, PlaceError>)
        requires
            old(self).wf(),
        ensures
            final(self).wf(),
            final(self).dim() == old(self).dim(),
            final(self).budget() == old(self).budget(),
            placed(*old(self), *final(self), point, blob, r),
    {
        let id = Id::now();
        match self.place_with_id(id, point, blob) {
            Ok(()) => Ok(id),
            Err(e) => Err(e),
        }
    }

    /// Places `point` with `blob` under `id`.
    pub fn place_with_id(&mut self, id: Id, point: Point, blob: Blob) -> (r: Result<
        (),
        PlaceError,
    >)
        requires
            old(self).wf(),
        ensures
            final(self).wf(),
            final(self).dim() == old(self).dim(),
            final(self).budget() == old(self).budget(),
            placed_under(*old(self), *final(self), id, point, blob, r),
    {
        if point.dimensionality() != self.dimensionality {
            return Err(
                PlaceError::DimensionalityMismatch {
                    expected: self.dimensionality,
                    got: point.dimensionality(),
                },
            );
        }
        let key = id.as_u128();
        if self.points.contains_key(&key) {
            return Err(PlaceError::DuplicateId(id));
        }
        let placed = PlacedPoint::new(id, point, blob);
        let size = match MemoryStorage::point_size(&placed) {
            Some(size) => size,
            None => { return Err(PlaceError::CapacityExceeded); },
        };
        if size > usize::MAX - self.current_size {
            return Err(PlaceError::CapacityExceeded);
        }
        if self.capacity > 0 && self.current_size + size > self.capacity {
            return Err(PlaceError::CapacityExceeded);
        }
        proof {
            lemma_total_insert(self.points@, key, placed);
            assert forall|k: u128| #[trigger]
                self.points@.insert(key, placed).contains_key(k) implies self.points@.insert(
                key,
                placed,
            )[k].id.key() == k && self.points@.insert(key, placed)[k].point@.len()
                == self.dimensionality by {}
        }
        let ghost before = self.entries();
        self.current_size = self.current_size + size;
        self.points.insert(key, placed);
        proof {
            assert(self.entries() =~= before.insert(id, placed)) by {
                assert forall|other: Id| other.key() == key implies other == id by {
                    Id::lemma_key_injective(other, id);
                }
            }
        }
        Ok(())
    }

    /// Takes the entry under `id` out of the store.
    pub fn remove(&mut self, id: Id) -> (r: Option<PlacedPoint>)
        requires
            old(self).wf(),
        ensures
            final(self).wf(),
            final(self).dim() == old(self).dim(),
            final(self).budget() == old(self).budget(),
            final(self).entries() == old(self).entries().remove(id),
            match r {
                Some(p) => old(self).entries().contains_key(id) && p == old(self).entries()[id]
                    && final(self).accounted() == old(self).accounted() - placed_size(p)
                    && final(self).count() == old(self).count() - 1,
                None => !old(self).entries().contains_key(id) && final(self).accounted() == old(
                    self,
                ).accounted() && final(self).count() == old(self).count(),
            },
    {
        let key = id.as_u128();
        let ghost before = self.entries();
        let ghost map = self.points@;
        if !self.points.contains_key(&key) {
            assert(self.entries() =~= before.remove(id));
            return None;
        }
        proof {
            lemma_total_remove(map, key);
        }
        let size = match MemoryStorage::point_size(self.points.get(&key).unwrap()) {
            Some(size) => size,
            None => 0,
        };
        self.current_size = self.current_size - size;
        let out = self.points.remove(&key);
        proof {
            assert(self.points@ == map.remove(key));
            assert(self.entries() =~= before.remove(id)) by {
                assert forall|other: Id| other.key() == key implies other == id by {
                    Id::lemma_key_injective(other, id);
                }
            }
        }
        out
    }

    /// The entry under `id`.
    pub fn get(&self, id: Id) -> (r: Option<&PlacedPoint>)
        requires
            self.wf(),
        ensures
            match r {
                Some(p) => self.entries().contains_key(id) && *p == self.entries()[id] && p.id
                    == id && p.point@.len() == self.dim(),
                None => !self.entries().contains_key(id),
            },
    {
        let key = id.as_u128();
        let r = self.points.get(&key);
        proof {
            if r.is_some() {
                Id::lemma_key_injective(self.points@[key].id, id);
            }
        }
        r
    }

    /// Whether there is an entry under `id`.
    pub fn contains(&self, id: Id) -> (b: bool)
        ensures
            b == self.entries().contains_key(id),
    {
        let key = id.as_u128();
        self.points.contains_key(&key)
    }

    /// The number of entries.
    pub fn len(&self) -> (n: usize)
        ensures
            n == self.count(),
    {
        self.points.len()
    }

    /// Whether there is no entry.
    pub fn is_empty(&self) -> (b: bool)
        ensures
            b == (self.count() == 0),
    {
        self.points.len() == 0
    }

    /// The entries, each once, in no particular order.
    pub fn iter(&self) -> (out: Vec<&PlacedPoint>)
        requires
            self.wf(),
        ensures
            out@.len() == self.count(),
            forall|i: int|
                0 <= i < out@.len() ==> self.entries().contains_key((#[trigger] out@[i]).id)
                    && self.entries()[out@[i].id] == *out@[i],
            forall|i: int, j: int| 0 <= i < j < out@.len() ==> out@[i].id != out@[j].id,
    {
        let mut out: Vec<&PlacedPoint> = Vec::new();
        for pair in it: self.points.iter()
            invariant
                out@.len() == it.index(),
                it.seq().len() == self.points@.len(),
                it.seq().no_duplicates(),
                forall|k: u128| #[trigger]
                    self.points@.contains_key(k) ==> self.points@[k].id.key() == k,
                forall|i: int|
                    0 <= i < it.seq().len() ==> self.points@.contains_key(*(#[trigger] it.seq()[i]).0)
                        && self.points@[*it.seq()[i].0] == *it.seq()[i].1,
                forall|i: int|
                    0 <= i < out@.len() ==> *(#[trigger] out@[i]) == *it.seq()[i].1,
        {
            out.push(pair.1);
        }
        proof {
            assert forall|i: int, j: int| 0 <= i < j < out@.len() implies out@[i].id
                != out@[j].id by {
                Id::lemma_key_injective(out@[i].id, out@[j].id);
            }
        }
        out
    }

    /// The bytes that the entries are accounted with: an upper bound on
    /// the memory that the store holds for them.
    pub fn size_bytes(&self) -> (n: usize)
        ensures
            n == self.accounted(),
    {
        self.current_size
    }

    /// Removes every entry.
    pub fn clear(&mut self)
        requires
            old(self).wf(),
        ensures
            final(self).wf(),
            final(self).dim() == old(self).dim(),
            final(self).budget() == old(self).budget(),
            final(self).entries() == Map::<Id, PlacedPoint>::empty(),
            final(self).count() == 0,
            final(self).accounted() == 0,
    {
        self.points.clear();
        self.current_size = 0;
        assert(self.entries() =~= Map::<Id, PlacedPoint>::empty());
    }
}

/// What `place_with_id` does to a store, and when.
pub open spec fn placed_under(
    before: MemoryStorage,
    after: MemoryStorage,
    id: Id,
    point: Point,
    blob: Blob,
    r: Result<(), PlaceError>,
) -> bool {
    let size = entry_size(point@.len(), blob@.len());
    match r {
        Ok(()) => {
            &&& point@.len() == before.dim()
            &&& !before.entries().contains_key(id)
            &&& before.admits(size)
            &&& after.entries() == before.entries().insert(id, PlacedPoint { id, point, blob })
            &&& after.count() == before.count() + 1
            &&& after.accounted() == before.accounted() + size
        },
        Err(e) => {
            &&& after.entries() == before.entries()
            &&& after.count() == before.count()
            &&& after.accounted() == before.accounted()
            &&& match e {
                PlaceError::DimensionalityMismatch { expected, got } => {
                    &&& point@.len() != before.dim()
                    &&& expected == before.dim()
                    &&& got == point@.len()
                },
                PlaceError::DuplicateId(d) => {
                    &&& point@.len() == before.dim()
                    &&& d == id
                    &&& before.entries().contains_key(id)
                },
                PlaceError::CapacityExceeded => {
                    &&& point@.len() == before.dim()
                    &&& !before.entries().contains_key(id)
                    &&& !before.admits(size)
                },
                PlaceError::StorageError(_) => false,
            }
        },
    }
}

/// What `place` does to a store: what `place_with_id` does under the
/// identifier that was drawn.
pub open spec fn placed(
    before: MemoryStorage,
    after: MemoryStorage,
    point: Point,
    blob: Blob,
    r: Result<Id, PlaceError>,
) -> bool {
    let size = entry_size(point@.len(), blob@.len());
    match r {
        Ok(id) => placed_under(before, after, id, point, blob, Ok(())),
        Err(e) => {
            &&& after.entries() == before.entries()
            &&& after.count() == before.count()
            &&& after.accounted() == before.accounted()
            &&& match e {
                PlaceError::DimensionalityMismatch { expected, got } => {
                    &&& point@.len() != before.dim()
                    &&& expected == before.dim()
                    &&& got == point@.len()
                },
                PlaceError::DuplicateId(d) => {
                    &&& point@.len() == before.dim()
                    &&& before.entries().contains_key(d)
                },
                PlaceError::CapacityExceeded => {
                    &&& point@.len() == before.dim()
                    &&& !before.admits(size)
                },
                PlaceError::StorageError(_) => false,
            }
        },
    }
}

} // verus!
