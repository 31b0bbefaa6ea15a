//! The hierarchical index: sessions hold documents, documents hold chunks,
//! and every session and document carries the centroid of the chunks below
//! it. A search descends from the nearest sessions through their nearest
//! documents to the chunks.

use vstd::prelude::*;
use crate::arith::{Arith, ZERO, ONE, less, lt, zero, magnitude};
use crate::flat::{NearError, at_least, reaches, reaching};
use crate::id::Id;
use crate::kernel::{
    Metric, cosine_spec, proximity, proximity_spec, shift, shifted, unshift, unshifted, spread, spread_spec,
    mean, mean_spec, weighted_mean, weighted_mean_spec, views,
};
use crate::persist::{Header, LoadError, Node, NodeModel, Snapshot, SnapshotModel, node_models};
use crate::point::Point;
use crate::rank::{SearchResult, is_selection, is_top, picked, ranked, rank, select};

verus! {

/// Below this many chunks the centroid of a document is computed afresh
/// when a chunk leaves.
pub const SMALL: usize = 16;

/// The age at which a node has lost all but 1/e of its temporal weight:
/// six hours, in milliseconds.
pub const HALF_LIFE_MS: u64 = 21_600_000;

/// The settings of a hierarchical index.
#[derive(Debug, Clone, Copy, PartialEq, Eq, Structural)]
pub struct HatConfig {
    /// How many sessions, and then how many documents, a search descends into.
    pub beam_width: usize,
    /// How much recency counts against proximity, as a number from zero (not
    /// at all) to one (alone).
    pub temporal_weight: u32,
    /// Below this change of a document's centroid the session's centroid
    /// is left as it is and marked instead.
    pub propagation_threshold: u32,
    /// The most chunks that two merged documents may hold together.
    pub merge_cap: usize,
    /// The most chunks that a document may hold before it is split.
    pub split_cap: usize,
}

impl HatConfig {
    /// The usual settings: a beam of three, no temporal weight, a
    /// propagation threshold of 0.001, merging up to 256 chunks and
    /// splitting above 1024.
    pub open spec fn usual() -> HatConfig {
        HatConfig {
            beam_width: 3,
            temporal_weight: ZERO,
            propagation_threshold: 0x3a83_126f,
            merge_cap: 256,
            split_cap: 1024,
        }
    }

    /// The usual settings.
    pub fn new() -> (c: HatConfig)
        ensures
            c == HatConfig::usual(),
    {
        HatConfig {
            beam_width: 3,
            temporal_weight: ZERO,
            propagation_threshold: 0x3a83_126f,
            merge_cap: 256,
            split_cap: 1024,
        }
    }

    /// The settings with another beam width.
    pub fn with_beam_width(self, beam_width: usize) -> (c: HatConfig)
        ensures
            c == (HatConfig { beam_width, ..self }),
    {
        HatConfig { beam_width, ..self }
    }

    /// The settings with another temporal weight.
    pub fn with_temporal_weight(self, temporal_weight: u32) -> (c: HatConfig)
        ensures
            c == (HatConfig { temporal_weight, ..self }),
    {
        HatConfig { temporal_weight, ..self }
    }

    /// The settings with another propagation threshold.
    pub fn with_propagation_threshold(self, propagation_threshold: u32) -> (c: HatConfig)
        ensures
            c == (HatConfig { propagation_threshold, ..self }),
    {
        HatConfig { propagation_threshold, ..self }
    }
}

impl Default for HatConfig {
    fn default() -> (c: HatConfig)
        ensures
            c == HatConfig::usual(),
    {
        HatConfig::new()
    }
}

/// A chunk: one vector under its identifier.
pub struct ChunkModel {
    pub id: Id,
    pub vector: Seq<u32>,
}

/// A document: chunks in order, and their centroid. The mark says that the
/// centroid was moved step by step since it was last computed afresh.
pub struct DocumentModel {
    pub id: Id,
    pub timestamp_ms: u64,
    pub centroid: Seq<u32>,
    pub dirty: bool,
    pub chunks: Seq<ChunkModel>,
}

/// A session: documents in order, and the centroid of all their chunks.
/// The mark says that a change below the threshold was not carried up.
pub struct SessionModel {
    pub id: Id,
    pub timestamp_ms: u64,
    pub centroid: Seq<u32>,
    pub dirty: bool,
    pub documents: Seq<DocumentModel>,
}

/// What a hierarchical index holds: its sessions, and the session and the
/// document that the next chunk goes to, where they are settled.
pub struct HatModel {
    pub sessions: Seq<SessionModel>,
    pub current_session: Option<Id>,
    pub current_document: Option<Id>,
}

/// A count as it enters the arithmetic: capped at the greatest `u64`.
pub open spec fn capped64(n: nat) -> u64 {
    if n > u64::MAX {
        u64::MAX
    } else {
        n as u64
    }
}

/// The number of chunks in the first `n` of `documents`.
pub open spec fn chunks_upto(documents: Seq<DocumentModel>, n: nat) -> nat
    decreases n,
{
    if n == 0 {
        0
    } else {
        chunks_upto(documents, (n - 1) as nat) + documents[n - 1].chunks.len()
    }
}

/// The number of documents in the first `n` of `sessions`.
pub open spec fn documents_upto(sessions: Seq<SessionModel>, n: nat) -> nat
    decreases n,
{
    if n == 0 {
        0
    } else {
        documents_upto(sessions, (n - 1) as nat) + sessions[n - 1].documents.len()
    }
}

/// The number of chunks in the first `n` of `sessions`.
pub open spec fn session_chunks_upto(sessions: Seq<SessionModel>, n: nat) -> nat
    decreases n,
{
    if n == 0 {
        0
    } else {
        session_chunks_upto(sessions, (n - 1) as nat) + sessions[n - 1].count()
    }
}

/// The first place at which `chunks` holds one under `id`, or their number.
pub open spec fn find_chunk(chunks: Seq<ChunkModel>, id: Id, n: nat) -> int
    decreases n,
{
    if n == 0 {
        0
    } else {
        let before = find_chunk(chunks, id, (n - 1) as nat);
        if before < n - 1 {
            before
        } else if chunks[n - 1].id == id {
            n - 1
        } else {
            n as int
        }
    }
}

/// The first place at which `documents` holds one under `id`, or their
/// number.
pub open spec fn find_document(documents: Seq<DocumentModel>, id: Id, n: nat) -> int
    decreases n,
{
    if n == 0 {
        0
    } else {
        let before = find_document(documents, id, (n - 1) as nat);
        if before < n - 1 {
            before
        } else if documents[n - 1].id == id {
            n - 1
        } else {
            n as int
        }
    }
}

/// The first place at which `sessions` holds one under `id`, or their
/// number.
pub open spec fn find_session(sessions: Seq<SessionModel>, id: Id, n: nat) -> int
    decreases n,
{
    if n == 0 {
        0
    } else {
        let before = find_session(sessions, id, (n - 1) as nat);
        if before < n - 1 {
            before
        } else if sessions[n - 1].id == id {
            n - 1
        } else {
            n as int
        }
    }
}

impl DocumentModel {
    /// Whether the document holds a chunk under `id`.
    pub open spec fn holds(self, id: Id) -> bool {
        find_chunk(self.chunks, id, self.chunks.len()) < self.chunks.len()
    }

    /// Whether every vector of the document has `dim` components.
    pub open spec fn fits(self, dim: nat) -> bool {
        &&& self.centroid.len() == dim
        &&& forall|i: int| 0 <= i < self.chunks.len() ==> (#[trigger] self.chunks[i]).vector.len() == dim
    }

    /// The vectors of the chunks.
    pub open spec fn vectors(self) -> Seq<Seq<u32>> {
        Seq::new(self.chunks.len(), |i: int| self.chunks[i].vector)
    }

    /// The document after the chunk `id` with the vector `v` has joined it:
    /// the centroid moves towards `v`.
    pub open spec fn joined<A: Arith>(self, ar: &A, id: Id, v: Seq<u32>) -> DocumentModel {
        DocumentModel {
            centroid: shifted(ar, self.centroid, v, capped64(self.chunks.len() + 1)),
            chunks: self.chunks.push(ChunkModel { id, vector: v }),
            ..self
        }
    }
}

impl SessionModel {
    /// The number of chunks in the session.
    pub open spec fn count(self) -> nat {
        chunks_upto(self.documents, self.documents.len())
    }

    /// Whether every vector of the session has `dim` components.
    pub open spec fn fits(self, dim: nat) -> bool {
        &&& self.centroid.len() == dim
        &&& forall|i: int| 0 <= i < self.documents.len() ==> (#[trigger] self.documents[i]).fits(dim)
    }

    /// Whether some document of the session holds a chunk under `id`.
    pub open spec fn holds(self, id: Id) -> bool {
        exists|i: int| 0 <= i < self.documents.len() && (#[trigger] self.documents[i]).holds(id)
    }

    /// The session after the chunk `id` with the vector `v` has joined its
    /// document at place `di`. The centroid of the session moves towards
    /// `v` unless that of the document moved by less than `threshold`; then
    /// the session is marked instead.
    pub open spec fn joined<A: Arith>(
        self,
        ar: &A,
        threshold: u32,
        di: int,
        id: Id,
        v: Seq<u32>,
    ) -> SessionModel {
        let before = self.documents[di];
        let after = before.joined(ar, id, v);
        let documents = self.documents.update(di, after);
        if less(spread_spec(ar, after.centroid, before.centroid), threshold) {
            SessionModel { dirty: true, documents, ..self }
        } else {
            SessionModel {
                centroid: shifted(ar, self.centroid, v, capped64(self.count() + 1)),
                documents,
                ..self
            }
        }
    }

    /// The session with an empty document under `id` at its end.
    pub open spec fn opened(self, id: Id, dim: nat) -> SessionModel {
        SessionModel {
            documents: self.documents.push(
                DocumentModel {
                    id,
                    timestamp_ms: id.millis,
                    centroid: Seq::new(dim, |j: int| ZERO),
                    dirty: false,
                    chunks: Seq::empty(),
                },
            ),
            ..self
        }
    }
}

/// The first place among the first `n` of `documents` at which one holds a
/// chunk under `id`, or `n`.
pub open spec fn holding_document(documents: Seq<DocumentModel>, id: Id, n: nat) -> int
    decreases n,
{
    if n == 0 {
        0
    } else {
        let before = holding_document(documents, id, (n - 1) as nat);
        if before < n - 1 {
            before
        } else if documents[n - 1].holds(id) {
            n - 1
        } else {
            n as int
        }
    }
}

/// The first place among the first `n` of `sessions` at which one holds a
/// chunk under `id`, or `n`.
pub open spec fn holding_session(sessions: Seq<SessionModel>, id: Id, n: nat) -> int
    decreases n,
{
    if n == 0 {
        0
    } else {
        let before = holding_session(sessions, id, (n - 1) as nat);
        if before < n - 1 {
            before
        } else if sessions[n - 1].holds(id) {
            n - 1
        } else {
            n as int
        }
    }
}

/// The centroids of `documents`.
pub open spec fn centroids(documents: Seq<DocumentModel>) -> Seq<Seq<u32>> {
    Seq::new(documents.len(), |i: int| documents[i].centroid)
}

/// The number of chunks of each of `documents`, as a word.
pub open spec fn weights<A: Arith>(ar: &A, documents: Seq<DocumentModel>) -> Seq<u32> {
    Seq::new(documents.len(), |i: int| ar.count_spec(capped64(documents[i].chunks.len())))
}

impl DocumentModel {
    /// The document after the chunk at place `ci` has left it. Where fewer
    /// than [`SMALL`] chunks remain the centroid is their mean, computed
    /// afresh; else it moves away from the chunk that left, and the
    /// document is marked.
    pub open spec fn left<A: Arith>(self, ar: &A, ci: int) -> DocumentModel {
        let chunks = self.chunks.remove(ci);
        let rest = DocumentModel { chunks, ..self };
        if chunks.len() < SMALL {
            DocumentModel {
                centroid: mean_spec(ar, rest.vectors(), self.centroid.len()),
                dirty: false,
                ..rest
            }
        } else {
            DocumentModel {
                centroid: unshifted(
                    ar,
                    self.centroid,
                    self.chunks[ci].vector,
                    capped64(chunks.len()),
                ),
                dirty: true,
                ..rest
            }
        }
    }
}

impl SessionModel {
    /// The session with its centroid computed afresh: the mean of the
    /// centroids of its documents, each weighted by its number of chunks.
    pub open spec fn settled<A: Arith>(self, ar: &A) -> SessionModel {
        SessionModel {
            centroid: weighted_mean_spec(
                ar,
                centroids(self.documents),
                weights(ar, self.documents),
                self.centroid.len(),
            ),
            dirty: false,
            ..self
        }
    }

    /// The session after the chunk at place `ci` of the document at place
    /// `di` has left it: a document that is left empty goes too, and the
    /// centroid of the session is computed afresh.
    pub open spec fn left<A: Arith>(self, ar: &A, di: int, ci: int) -> SessionModel {
        let after = self.documents[di].left(ar, ci);
        let documents = if after.chunks.len() == 0 {
            self.documents.remove(di)
        } else {
            self.documents.update(di, after)
        };
        (SessionModel { documents, ..self }).settled(ar)
    }
}

impl HatModel {
    /// The index after the first chunk under `id` has left it, with the
    /// document and the session that it left empty. A document or a session
    /// that goes is no longer the current one.
    pub open spec fn removed<A: Arith>(self, ar: &A, id: Id) -> HatModel {
        let si = holding_session(self.sessions, id, self.sessions.len());
        if si >= self.sessions.len() {
            self
        } else {
            let session = self.sessions[si];
            let di = holding_document(session.documents, id, session.documents.len());
            let document = session.documents[di];
            let ci = find_chunk(document.chunks, id, document.chunks.len());
            let after = session.left(ar, di, ci);
            let is_current = self.current_session == Some(session.id);
            if after.documents.len() == 0 {
                HatModel {
                    sessions: self.sessions.remove(si),
                    current_session: if is_current {
                        None
                    } else {
                        self.current_session
                    },
                    current_document: if is_current {
                        None
                    } else {
                        self.current_document
                    },
                }
            } else {
                HatModel {
                    sessions: self.sessions.update(si, after),
                    current_session: self.current_session,
                    current_document: if is_current && document.chunks.len() == 1
                        && self.current_document == Some(document.id) {
                        None
                    } else {
                        self.current_document
                    },
                }
            }
        }
    }

    /// Whether every vector of the index has `dim` components.
    pub open spec fn fits(self, dim: nat) -> bool {
        forall|i: int| 0 <= i < self.sessions.len() ==> (#[trigger] self.sessions[i]).fits(dim)
    }

    /// Whether some session holds a chunk under `id`.
    pub open spec fn holds(self, id: Id) -> bool {
        exists|i: int| 0 <= i < self.sessions.len() && (#[trigger] self.sessions[i]).holds(id)
    }

    /// The number of sessions.
    pub open spec fn session_count(self) -> nat {
        self.sessions.len()
    }

    /// The number of documents.
    pub open spec fn document_count(self) -> nat {
        documents_upto(self.sessions, self.sessions.len())
    }

    /// The number of chunks.
    pub open spec fn chunk_count(self) -> nat {
        session_chunks_upto(self.sessions, self.sessions.len())
    }

    /// The place of the current session, or the number of sessions where
    /// none is settled or the settled one is gone.
    pub open spec fn current_session_place(self) -> int {
        match self.current_session {
            Some(id) => find_session(self.sessions, id, self.sessions.len()),
            None => self.sessions.len() as int,
        }
    }

    /// The place of the current document in the session at place `si`, or
    /// the number of its documents where none is settled or the settled
    /// one is gone.
    pub open spec fn current_document_place(self, si: int) -> int {
        let documents = self.sessions[si].documents;
        match self.current_document {
            Some(id) => find_document(documents, id, documents.len()),
            None => documents.len() as int,
        }
    }

    /// The index with an empty session under `id` at its end, settled as
    /// the current one; no document is settled.
    pub open spec fn with_session(self, id: Id, dim: nat) -> HatModel {
        HatModel {
            sessions: self.sessions.push(
                SessionModel {
                    id,
                    timestamp_ms: id.millis,
                    centroid: Seq::new(dim, |j: int| ZERO),
                    dirty: false,
                    documents: Seq::empty(),
                },
            ),
            current_session: Some(id),
            current_document: None,
        }
    }

    /// The index with an empty document under `id` at the end of the
    /// session at place `si`, settled as the current one.
    pub open spec fn with_document(self, si: int, id: Id, dim: nat) -> HatModel {
        HatModel {
            sessions: self.sessions.update(si, self.sessions[si].opened(id, dim)),
            current_document: Some(id),
            ..self
        }
    }

    /// The index after the chunk `id` with the vector `v` was added, with
    /// `fresh_session` and `fresh_document` at hand for a session and a
    /// document that have to be made: the chunk goes to the current
    /// document of the current session, and where one of them is not
    /// settled or gone, a new one is made at the end and settled.
    pub open spec fn added<A: Arith>(
        self,
        ar: &A,
        threshold: u32,
        dim: nat,
        id: Id,
        v: Seq<u32>,
        fresh_session: Id,
        fresh_document: Id,
    ) -> HatModel {
        let si = self.current_session_place();
        let m1 = if si < self.sessions.len() {
            self
        } else {
            self.with_session(fresh_session, dim)
        };
        let di = m1.current_document_place(si);
        let m2 = if di < m1.sessions[si].documents.len() {
            m1
        } else {
            m1.with_document(si, fresh_document, dim)
        };
        m2.with_chunk(ar, threshold, si, di, id, v)
    }

    /// The identifier that stands in the way of adding a chunk under `id`,
    /// if one does: `id` itself where a chunk stands under it, the fresh
    /// identifier of a session or a document that has to be made where a
    /// session, or a document of the current session, stands under it.
    pub open spec fn taken(self, id: Id, fresh_session: Id, fresh_document: Id) -> Option<Id> {
        let si = self.current_session_place();
        if self.holds(id) {
            Some(id)
        } else if si >= self.sessions.len() {
            if find_session(self.sessions, fresh_session, self.sessions.len())
                < self.sessions.len() {
                Some(fresh_session)
            } else {
                None
            }
        } else {
            let documents = self.sessions[si].documents;
            if self.current_document_place(si) >= documents.len() && find_document(
                documents,
                fresh_document,
                documents.len(),
            ) < documents.len() {
                Some(fresh_document)
            } else {
                None
            }
        }
    }

    /// The index after the chunk `id` with the vector `v` has joined the
    /// document at place `di` of the session at place `si`.
    pub open spec fn with_chunk<A: Arith>(
        self,
        ar: &A,
        threshold: u32,
        si: int,
        di: int,
        id: Id,
        v: Seq<u32>,
    ) -> HatModel {
        HatModel {
            sessions: self.sessions.update(si, self.sessions[si].joined(ar, threshold, di, id, v)),
            ..self
        }
    }
}

/// The numbers of an index.
#[derive(Debug, Clone, Copy, PartialEq, Eq, Structural)]
pub struct HatStats {
    /// The number of chunks.
    pub global_count: usize,
    /// The number of sessions.
    pub session_count: usize,
    /// The number of documents.
    pub document_count: usize,
    /// The number of chunks.
    pub chunk_count: usize,
}

/// A count as a `usize`, capped at the greatest.
pub open spec fn capped_count(n: nat) -> usize {
    if n > usize::MAX {
        usize::MAX
    } else {
        n as usize
    }
}

/// The sum of two counts, capped at the greatest `usize`.
fn count_sum(a: usize, b: usize) -> (r: usize)
    ensures
        r == capped_count(a as nat + b as nat),
{
    if a > usize::MAX - b {
        usize::MAX
    } else {
        a + b
    }
}

struct Chunk {
    id: Id,
    vector: Point,
}

struct Document {
    id: Id,
    timestamp_ms: u64,
    centroid: Point,
    dirty: bool,
    chunks: Vec<Chunk>,
}

struct Session {
    id: Id,
    timestamp_ms: u64,
    centroid: Point,
    dirty: bool,
    documents: Vec<Document>,
}

impl View for Chunk {
    type V = ChunkModel;

    closed spec fn view(&self) -> ChunkModel {
        ChunkModel { id: self.id, vector: self.vector@ }
    }
}

/// What each of the chunks holds.
spec fn chunk_models(chunks: Seq<Chunk>) -> Seq<ChunkModel> {
    Seq::new(chunks.len(), |i: int| chunks[i]@)
}

impl View for Document {
    type V = DocumentModel;

    closed spec fn view(&self) -> DocumentModel {
        DocumentModel {
            id: self.id,
            timestamp_ms: self.timestamp_ms,
            centroid: self.centroid@,
            dirty: self.dirty,
            chunks: chunk_models(self.chunks@),
        }
    }
}

/// What each of the documents holds.
spec fn document_models(documents: Seq<Document>) -> Seq<DocumentModel> {
    Seq::new(documents.len(), |i: int| documents[i]@)
}

impl View for Session {
    type V = SessionModel;

    closed spec fn view(&self) -> SessionModel {
        SessionModel {
            id: self.id,
            timestamp_ms: self.timestamp_ms,
            centroid: self.centroid@,
            dirty: self.dirty,
            documents: document_models(self.documents@),
        }
    }
}

/// What each of the sessions holds.
spec fn session_models(sessions: Seq<Session>) -> Seq<SessionModel> {
    Seq::new(sessions.len(), |i: int| sessions[i]@)
}

impl Document {
    /// The place of the first chunk under `id`, or the number of chunks.
    fn find(&self, id: Id) -> (i: usize)
        ensures
            i == find_chunk(self@.chunks, id, self@.chunks.len()),
            i <= self@.chunks.len(),
    {
        let mut i: usize = 0;
        while i < self.chunks.len()
            invariant
                i <= self.chunks@.len(),
                find_chunk(self@.chunks, id, i as nat) == i,
            decreases self.chunks.len() - i,
        {
            if self.chunks[i].id == id {
                proof {
                    lemma_find_chunk_stays(self@.chunks, id, (i + 1) as nat, self@.chunks.len());
                }
                return i;
            }
            i = i + 1;
        }
        i
    }
}

/// Once a chunk is found, it stays found among more.
proof fn lemma_find_chunk_stays(chunks: Seq<ChunkModel>, id: Id, n: nat, m: nat)
    requires
        n <= m,
        find_chunk(chunks, id, n) < n,
    ensures
        find_chunk(chunks, id, m) == find_chunk(chunks, id, n),
    decreases m - n,
{
    if n < m {
        lemma_find_chunk_stays(chunks, id, n, (m - 1) as nat);
    }
}

/// Once a document is found, it stays found among more.
proof fn lemma_find_document_stays(documents: Seq<DocumentModel>, id: Id, n: nat, m: nat)
    requires
        n <= m,
        find_document(documents, id, n) < n,
    ensures
        find_document(documents, id, m) == find_document(documents, id, n),
    decreases m - n,
{
    if n < m {
        lemma_find_document_stays(documents, id, n, (m - 1) as nat);
    }
}

/// Once a session is found, it stays found among more.
proof fn lemma_find_session_stays(sessions: Seq<SessionModel>, id: Id, n: nat, m: nat)
    requires
        n <= m,
        find_session(sessions, id, n) < n,
    ensures
        find_session(sessions, id, m) == find_session(sessions, id, n),
    decreases m - n,
{
    if n < m {
        lemma_find_session_stays(sessions, id, n, (m - 1) as nat);
    }
}

impl Session {
    /// The number of chunks, capped at the greatest `usize`.
    fn count(&self) -> (n: usize)
        ensures
            n == capped_count(self@.count()),
    {
        let mut n: usize = 0;
        let mut i: usize = 0;
        while i < self.documents.len()
            invariant
                i <= self.documents@.len(),
                n == capped_count(chunks_upto(self@.documents, i as nat)),
            decreases self.documents.len() - i,
        {
            n = count_sum(n, self.documents[i].chunks.len());
            i = i + 1;
        }
        n
    }

    /// The place of the first document under `id`, or the number of
    /// documents.
    fn find(&self, id: Id) -> (i: usize)
        ensures
            i == find_document(self@.documents, id, self@.documents.len()),
            i <= self@.documents.len(),
    {
        let mut i: usize = 0;
        while i < self.documents.len()
            invariant
                i <= self.documents@.len(),
                find_document(self@.documents, id, i as nat) == i,
            decreases self.documents.len() - i,
        {
            if self.documents[i].id == id {
                proof {
                    lemma_find_document_stays(
                        self@.documents,
                        id,
                        (i + 1) as nat,
                        self@.documents.len(),
                    );
                }
                return i;
            }
            i = i + 1;
        }
        i
    }

    /// Whether some document holds a chunk under `id`.
    fn holds(&self, id: Id) -> (b: bool)
        ensures
            b == self@.holds(id),
    {
        let mut i: usize = 0;
        while i < self.documents.len()
            invariant
                i <= self.documents@.len(),
                forall|j: int| 0 <= j < i ==> !(#[trigger] self@.documents[j]).holds(id),
            decreases self.documents.len() - i,
        {
            let at = self.documents[i].find(id);
            if at < self.documents[i].chunks.len() {
                assert(self@.documents[i as int].holds(id));
                return true;
            }
            i = i + 1;
        }
        false
    }
}

/// `n + 1` as it enters the arithmetic.
fn next_count(n: u64) -> (r: u64)
    ensures
        r == capped64(n as nat + 1),
{
    if n == u64::MAX {
        n
    } else {
        n + 1
    }
}

impl Session {
    /// The number of chunks as it enters the arithmetic.
    fn count64(&self) -> (n: u64)
        ensures
            n == capped64(self@.count()),
    {
        let mut n: u64 = 0;
        let mut i: usize = 0;
        while i < self.documents.len()
            invariant
                i <= self.documents@.len(),
                n == capped64(chunks_upto(self@.documents, i as nat)),
            decreases self.documents.len() - i,
        {
            let more = self.documents[i].chunks.len() as u64;
            n = if n > u64::MAX - more {
                u64::MAX
            } else {
                n + more
            };
            i = i + 1;
        }
        n
    }

    /// Adds the chunk `id` with the vector `v` to the document at place `di`.
    fn join<A: Arith>(&mut self, ar: &A, threshold: u32, di: usize, id: Id, v: &Point)
        requires
            di < old(self)@.documents.len(),
        ensures
            final(self)@ == old(self)@.joined(ar, threshold, di as int, id, v@),
    {
        let ghost before = self@;
        let count = self.count64();
        let own = self.documents[di].chunks.len() as u64;
        let moved = shift(ar, &self.documents[di].centroid, v, next_count(own));
        let change = spread(ar, &moved, &self.documents[di].centroid);
        if lt(change, threshold) {
            self.dirty = true;
        } else {
            self.centroid = shift(ar, &self.centroid, v, next_count(count));
        }
        self.documents[di].centroid = moved;
        self.documents[di].chunks.push(Chunk { id, vector: v.clone() });
        proof {
            let after = before.documents[di as int].joined(ar, id, v@);
            assert(self@.documents[di as int].chunks =~= after.chunks);
            assert(self@.documents[di as int] == after);
            assert(self@.documents =~= before.documents.update(di as int, after));
        }
    }
}

/// A hierarchical index.
pub struct HatIndex {
    dimensionality: usize,
    metric: Metric,
    config: HatConfig,
    sessions: Vec<Session>,
    current_session: Option<Id>,
    current_document: Option<Id>,
}

impl View for HatIndex {
    type V = HatModel;

    closed spec fn view(&self) -> HatModel {
        HatModel {
            sessions: session_models(self.sessions@),
            current_session: self.current_session,
            current_document: self.current_document,
        }
    }
}

impl HatIndex {
    /// The dimensionality that every vector of the index has.
    pub closed spec fn dim(&self) -> nat {
        self.dimensionality as nat
    }

    /// The metric by which the index scores.
    pub closed spec fn metric(&self) -> Metric {
        self.metric
    }

    /// The settings.
    pub closed spec fn settings(&self) -> HatConfig {
        self.config
    }

    /// Whether the index is consistent: every vector and every centroid has
    /// the dimensionality of the index. Every index made and changed by the
    /// functions of this type is.
    pub open spec fn wf(&self) -> bool {
        self@.fits(self.dim())
    }

    /// Whether `other` has the dimensionality, the metric and the settings
    /// of this index.
    pub open spec fn same_frame(&self, other: &HatIndex) -> bool {
        &&& self.dim() == other.dim()
        &&& self.metric() == other.metric()
        &&& self.settings() == other.settings()
    }

    /// An empty index.
    pub fn new(dimensionality: usize, metric: Metric, config: HatConfig) -> (index: HatIndex)
        ensures
            index.wf(),
            index.dim() == dimensionality,
            index.metric() == metric,
            index.settings() == config,
            index@ == (HatModel {
                sessions: Seq::empty(),
                current_session: None,
                current_document: None,
            }),
    {
        let index = HatIndex {
            dimensionality,
            metric,
            config,
            sessions: Vec::new(),
            current_session: None,
            current_document: None,
        };
        assert(index@.sessions =~= Seq::empty());
        index
    }

    /// An empty index with the usual settings that scores by the cosine.
    pub fn cosine(dimensionality: usize) -> (index: HatIndex)
        ensures
            index.wf(),
            index.dim() == dimensionality,
            index.metric() == Metric::Cosine,
            index.settings() == HatConfig::usual(),
            index@ == (HatModel {
                sessions: Seq::empty(),
                current_session: None,
                current_document: None,
            }),
    {
        HatIndex::new(dimensionality, Metric::Cosine, HatConfig::new())
    }

    /// The index with other settings.
    pub fn with_config(self, config: HatConfig) -> (index: HatIndex)
        ensures
            index@ == self@,
            index.dim() == self.dim(),
            index.metric() == self.metric(),
            index.settings() == config,
    {
        let mut index = self;
        index.config = config;
        index
    }

    /// The dimensionality that every vector of the index has.
    pub fn dimensionality(&self) -> (d: usize)
        ensures
            d == self.dim(),
    {
        self.dimensionality
    }

    /// The settings.
    pub fn config(&self) -> (c: HatConfig)
        ensures
            c == self.settings(),
    {
        self.config
    }

    /// The session that the next chunk goes to, where it is settled.
    pub fn current_session(&self) -> (id: Option<Id>)
        ensures
            id == self@.current_session,
    {
        self.current_session
    }

    /// The document that the next chunk goes to, where it is settled.
    pub fn current_document(&self) -> (id: Option<Id>)
        ensures
            id == self@.current_document,
    {
        self.current_document
    }

    /// Lets the next chunk open a new session, and a new document in it.
    pub fn new_session(&mut self)
        ensures
            final(self).same_frame(old(self)),
            final(self)@ == (HatModel {
                current_session: None,
                current_document: None,
                ..old(self)@
            }),
    {
        self.current_session = None;
        self.current_document = None;
    }

    /// Lets the next chunk open a new document in the current session.
    pub fn new_document(&mut self)
        ensures
            final(self).same_frame(old(self)),
            final(self)@ == (HatModel { current_document: None, ..old(self)@ }),
    {
        self.current_document = None;
    }

    /// The place of the first session under `id`, or the number of sessions.
    fn find_session(&self, id: Id) -> (i: usize)
        ensures
            i == find_session(self@.sessions, id, self@.sessions.len()),
            i <= self@.sessions.len(),
    {
        let mut i: usize = 0;
        while i < self.sessions.len()
            invariant
                i <= self.sessions@.len(),
                find_session(self@.sessions, id, i as nat) == i,
            decreases self.sessions.len() - i,
        {
            if self.sessions[i].id == id {
                proof {
                    lemma_find_session_stays(self@.sessions, id, (i + 1) as nat, self@.sessions.len());
                }
                return i;
            }
            i = i + 1;
        }
        i
    }

    /// Whether a chunk stands under `id`.
    pub fn contains(&self, id: Id) -> (b: bool)
        ensures
            b == self@.holds(id),
    {
        let mut i: usize = 0;
        while i < self.sessions.len()
            invariant
                i <= self.sessions@.len(),
                forall|j: int| 0 <= j < i ==> !(#[trigger] self@.sessions[j]).holds(id),
            decreases self.sessions.len() - i,
        {
            if self.sessions[i].holds(id) {
                assert(self@.sessions[i as int].holds(id));
                return true;
            }
            i = i + 1;
        }
        false
    }

    /// Adds `point` under `id` to the current document of the current
    /// session. `fresh_session` and `fresh_document` are the identifiers
    /// for a session and a document that have to be made first.
    pub fn add_with<A: Arith>(
        &mut self,
        ar: &A,
        id: Id,
        point: &Point,
        fresh_session: Id,
        fresh_document: Id,
    ) -> (r: Result<(), NearError>)
        requires
            old(self).wf(),
        ensures
            final(self).wf(),
            final(self).same_frame(old(self)),
            match r {
                Ok(()) => {
                    &&& point@.len() == old(self).dim()
                    &&& old(self)@.taken(id, fresh_session, fresh_document).is_none()
                    &&& final(self)@ == old(self)@.added(
                        ar,
                        old(self).settings().propagation_threshold,
                        old(self).dim(),
                        id,
                        point@,
                        fresh_session,
                        fresh_document,
                    )
                },
                Err(NearError::DimensionalityMismatch { expected, got }) => {
                    &&& point@.len() != old(self).dim()
                    &&& expected == old(self).dim()
                    &&& got == point@.len()
                    &&& final(self)@ == old(self)@
                },
                Err(NearError::DuplicateId(taken)) => {
                    &&& point@.len() == old(self).dim()
                    &&& old(self)@.taken(id, fresh_session, fresh_document) == Some(taken)
                    &&& final(self)@ == old(self)@
                },
                Err(NearError::NotFound(_)) => false,
            },
    {
        if point.dimensionality() != self.dimensionality {
            return Err(
                NearError::DimensionalityMismatch {
                    expected: self.dimensionality,
                    got: point.dimensionality(),
                },
            );
        }
        if self.contains(id) {
            return Err(NearError::DuplicateId(id));
        }
        let ghost m0 = self@;
        let n = self.sessions.len();
        let si = match self.current_session {
            Some(sid) => self.find_session(sid),
            None => n,
        };
        if si >= n {
            if self.find_session(fresh_session) < n {
                return Err(NearError::DuplicateId(fresh_session));
            }
            self.sessions.push(
                Session {
                    id: fresh_session,
                    timestamp_ms: fresh_session.millis,
                    centroid: Point::filled(self.dimensionality, ZERO),
                    dirty: false,
                    documents: Vec::new(),
                },
            );
            self.current_session = Some(fresh_session);
            self.current_document = None;
            proof {
                let made = m0.with_session(fresh_session, self.dim());
                assert(self@.sessions[si as int].documents =~= made.sessions[si as int].documents);
                assert(self@.sessions =~= made.sessions);
            }
        }
        let ghost m1 = self@;
        let docs = self.sessions[si].documents.len();
        let di = match self.current_document {
            Some(did) => self.sessions[si].find(did),
            None => docs,
        };
        if di >= docs {
            if self.sessions[si].find(fresh_document) < docs {
                return Err(NearError::DuplicateId(fresh_document));
            }
            self.sessions[si].documents.push(
                Document {
                    id: fresh_document,
                    timestamp_ms: fresh_document.millis,
                    centroid: Point::filled(self.dimensionality, ZERO),
                    dirty: false,
                    chunks: Vec::new(),
                },
            );
            self.current_document = Some(fresh_document);
            proof {
                let made = m1.with_document(si as int, fresh_document, self.dim());
                assert(self@.sessions[si as int].documents[di as int].chunks =~= Seq::empty());
                assert(self@.sessions[si as int].documents =~= made.sessions[si as int].documents);
                assert(self@.sessions =~= made.sessions);
            }
        }
        let ghost m2 = self@;
        self.sessions[si].join(ar, self.config.propagation_threshold, di, id, point);
        proof {
            let done = m2.with_chunk(
                ar,
                self.config.propagation_threshold,
                si as int,
                di as int,
                id,
                point@,
            );
            assert(self@.sessions =~= done.sessions);
            assert forall|i: int| 0 <= i < self@.sessions.len() implies (
            #[trigger] self@.sessions[i]).fits(self.dim()) by {
                if i == si {
                    let s = self@.sessions[i];
                    assert forall|j: int| 0 <= j < s.documents.len() implies (
                    #[trigger] s.documents[j]).fits(self.dim()) by {
                        if j != di {
                            assert(s.documents[j] == m2.sessions[i].documents[j]);
                            if i < m0.sessions.len() && j < m0.sessions[i].documents.len() {
                                assert(m2.sessions[i].documents[j] == m0.sessions[i].documents[j]);
                                assert(m0.sessions[i].fits(self.dim()));
                            }
                        }
                    }
                } else {
                    assert(self@.sessions[i] == m0.sessions[i]);
                }
            }
        }
        Ok(())
    }

    /// Adds `point` under `id` to the current document of the current
    /// session. A session or a document that has to be made first gets a
    /// new identifier, stamped with the current time.
    pub fn add<A: Arith>(&mut self, ar: &A, id: Id, point: &Point) -> (r: Result<(), NearError>)
        requires
            old(self).wf(),
        ensures
            final(self).wf(),
            final(self).same_frame(old(self)),
            match r {
                Ok(()) => {
                    &&& point@.len() == old(self).dim()
                    &&& !old(self)@.holds(id)
                    &&& exists|fresh_session: Id, fresh_document: Id|
                        final(self)@ == #[trigger] old(self)@.added(
                            ar,
                            old(self).settings().propagation_threshold,
                            old(self).dim(),
                            id,
                            point@,
                            fresh_session,
                            fresh_document,
                        )
                },
                Err(NearError::DimensionalityMismatch { expected, got }) => {
                    &&& point@.len() != old(self).dim()
                    &&& expected == old(self).dim()
                    &&& got == point@.len()
                    &&& final(self)@ == old(self)@
                },
                Err(NearError::DuplicateId(taken)) => {
                    &&& point@.len() == old(self).dim()
                    &&& final(self)@ == old(self)@
                    &&& old(self)@.holds(id) ==> taken == id
                    &&& exists|fresh_session: Id, fresh_document: Id|
                        #[trigger] old(self)@.taken(id, fresh_session, fresh_document) == Some(
                            taken,
                        )
                },
                Err(NearError::NotFound(_)) => false,
            },
    {
        let fresh_session = Id::now();
        let fresh_document = Id::now();
        self.add_with(ar, id, point, fresh_session, fresh_document)
    }
}

/// Once a document that holds the chunk is found, it stays found.
proof fn lemma_holding_document_stays(documents: Seq<DocumentModel>, id: Id, n: nat, m: nat)
    requires
        n <= m,
        holding_document(documents, id, n) < n,
    ensures
        holding_document(documents, id, m) == holding_document(documents, id, n),
    decreases m - n,
{
    if n < m {
        lemma_holding_document_stays(documents, id, n, (m - 1) as nat);
    }
}

/// Once a session that holds the chunk is found, it stays found.
proof fn lemma_holding_session_stays(sessions: Seq<SessionModel>, id: Id, n: nat, m: nat)
    requires
        n <= m,
        holding_session(sessions, id, n) < n,
    ensures
        holding_session(sessions, id, m) == holding_session(sessions, id, n),
    decreases m - n,
{
    if n < m {
        lemma_holding_session_stays(sessions, id, n, (m - 1) as nat);
    }
}

/// The first document that holds the chunk is the first of those that do.
proof fn lemma_holding_document(documents: Seq<DocumentModel>, id: Id, n: nat)
    requires
        n <= documents.len(),
    ensures
        0 <= holding_document(documents, id, n) <= n,
        holding_document(documents, id, n) < n ==> documents[holding_document(
            documents,
            id,
            n,
        )].holds(id),
        forall|j: int|
            0 <= j < holding_document(documents, id, n) ==> !(#[trigger] documents[j]).holds(id),
    decreases n,
{
    if n > 0 {
        lemma_holding_document(documents, id, (n - 1) as nat);
    }
}

impl Document {
    /// The vectors of the chunks.
    fn vectors(&self) -> (out: Vec<Point>)
        ensures
            views(out@) == self@.vectors(),
    {
        let mut out: Vec<Point> = Vec::new();
        let mut i: usize = 0;
        while i < self.chunks.len()
            invariant
                i <= self.chunks@.len(),
                out@.len() == i,
                forall|j: int| 0 <= j < i ==> out@[j]@ == self.chunks@[j].vector@,
            decreases self.chunks.len() - i,
        {
            out.push(self.chunks[i].vector.clone());
            i = i + 1;
        }
        assert(views(out@) =~= self@.vectors());
        out
    }

    /// Takes the chunk at place `ci` out of the document.
    fn leave<A: Arith>(&mut self, ar: &A, ci: usize)
        requires
            ci < old(self)@.chunks.len(),
        ensures
            final(self)@ == old(self)@.left(ar, ci as int),
    {
        let ghost before = self@;
        let gone = self.chunks.remove(ci);
        assert(self@.chunks =~= before.chunks.remove(ci as int));
        assert(gone@ == before.chunks[ci as int]);
        let dim = self.centroid.dimensionality();
        if self.chunks.len() < SMALL {
            let vectors = self.vectors();
            self.centroid = mean(ar, vectors.as_slice(), dim);
            self.dirty = false;
        } else {
            let n = self.chunks.len() as u64;
            self.centroid = unshift(ar, &self.centroid, &gone.vector, n);
            self.dirty = true;
        }
    }
}

impl Session {
    /// Computes the centroid afresh from those of the documents.
    fn settle<A: Arith>(&mut self, ar: &A)
        ensures
            final(self)@ == old(self)@.settled(ar),
    {
        let mut points: Vec<Point> = Vec::new();
        let mut ws: Vec<u32> = Vec::new();
        let mut i: usize = 0;
        while i < self.documents.len()
            invariant
                i <= self.documents@.len(),
                points@.len() == i,
                ws@.len() == i,
                forall|j: int| 0 <= j < i ==> points@[j]@ == self@.documents[j].centroid,
                forall|j: int|
                    0 <= j < i ==> ws@[j] == ar.count_spec(
                        capped64(self@.documents[j].chunks.len()),
                    ),
            decreases self.documents.len() - i,
        {
            points.push(self.documents[i].centroid.clone());
            ws.push(ar.from_count(self.documents[i].chunks.len() as u64));
            i = i + 1;
        }
        assert(views(points@) =~= centroids(self@.documents));
        assert(ws@ =~= weights(ar, self@.documents));
        let dim = self.centroid.dimensionality();
        self.centroid = weighted_mean(ar, points.as_slice(), ws.as_slice(), dim);
        self.dirty = false;
    }

    /// Takes the chunk at place `ci` of the document at place `di` out of
    /// the session.
    fn leave<A: Arith>(&mut self, ar: &A, di: usize, ci: usize)
        requires
            di < old(self)@.documents.len(),
            ci < old(self)@.documents[di as int].chunks.len(),
        ensures
            final(self)@ == old(self)@.left(ar, di as int, ci as int),
    {
        let ghost before = self@;
        self.documents[di].leave(ar, ci);
        let ghost after = before.documents[di as int].left(ar, ci as int);
        assert(self@.documents =~= before.documents.update(di as int, after));
        if self.documents[di].chunks.len() == 0 {
            self.documents.remove(di);
            assert(self@.documents =~= before.documents.remove(di as int));
        }
        self.settle(ar);
    }

    /// The place of the first document that holds a chunk under `id`, or
    /// the number of documents.
    fn holder(&self, id: Id) -> (i: usize)
        ensures
            i == holding_document(self@.documents, id, self@.documents.len()),
            i <= self@.documents.len(),
    {
        let mut i: usize = 0;
        while i < self.documents.len()
            invariant
                i <= self.documents@.len(),
                holding_document(self@.documents, id, i as nat) == i,
            decreases self.documents.len() - i,
        {
            let at = self.documents[i].find(id);
            if at < self.documents[i].chunks.len() {
                proof {
                    lemma_holding_document_stays(
                        self@.documents,
                        id,
                        (i + 1) as nat,
                        self@.documents.len(),
                    );
                }
                return i;
            }
            i = i + 1;
        }
        i
    }
}

impl HatIndex {
    /// The place of the first session that holds a chunk under `id`, or the
    /// number of sessions.
    fn holder(&self, id: Id) -> (i: usize)
        ensures
            i == holding_session(self@.sessions, id, self@.sessions.len()),
            i <= self@.sessions.len(),
    {
        let mut i: usize = 0;
        while i < self.sessions.len()
            invariant
                i <= self.sessions@.len(),
                holding_session(self@.sessions, id, i as nat) == i,
            decreases self.sessions.len() - i,
        {
            if self.sessions[i].holds(id) {
                proof {
                    lemma_holding_session_stays(
                        self@.sessions,
                        id,
                        (i + 1) as nat,
                        self@.sessions.len(),
                    );
                }
                return i;
            }
            i = i + 1;
        }
        i
    }

    /// Takes the first chunk under `id` out of the index, with the document
    /// and the session that it leaves empty; tells whether there was one.
    pub fn remove<A: Arith>(&mut self, ar: &A, id: Id) -> (found: bool)
        requires
            old(self).wf(),
        ensures
            final(self).wf(),
            final(self).same_frame(old(self)),
            final(self)@ == old(self)@.removed(ar, id),
            found == old(self)@.holds(id),
    {
        let ghost m0 = self@;
        let si = self.holder(id);
        proof {
            lemma_holding_session(m0.sessions, id, m0.sessions.len());
        }
        if si >= self.sessions.len() {
            return false;
        }
        let di = self.sessions[si].holder(id);
        proof {
            lemma_holding_document(
                m0.sessions[si as int].documents,
                id,
                m0.sessions[si as int].documents.len(),
            );
            assert(m0.sessions[si as int].holds(id));
            let witness = choose|i: int|
                0 <= i < m0.sessions[si as int].documents.len() && (
                #[trigger] m0.sessions[si as int].documents[i]).holds(id);
            assert(di < m0.sessions[si as int].documents.len());
        }
        let ci = self.sessions[si].documents[di].find(id);
        let is_current = match self.current_session {
            Some(c) => c == self.sessions[si].id,
            None => false,
        };
        let was_current_document = is_current && self.sessions[si].documents[di].chunks.len() == 1
            && match self.current_document {
            Some(c) => c == self.sessions[si].documents[di].id,
            None => false,
        };
        self.sessions[si].leave(ar, di, ci);
        let ghost after = m0.sessions[si as int].left(ar, di as int, ci as int);
        assert(self@.sessions =~= m0.sessions.update(si as int, after));
        if self.sessions[si].documents.len() == 0 {
            self.sessions.remove(si);
            assert(self@.sessions =~= m0.sessions.remove(si as int));
            if is_current {
                self.current_session = None;
                self.current_document = None;
            }
        } else if was_current_document {
            self.current_document = None;
        }
        proof {
            assert forall|i: int| 0 <= i < self@.sessions.len() implies (
            #[trigger] self@.sessions[i]).fits(self.dim()) by {
                let old_i = if after.documents.len() == 0 && i >= si {
                    i + 1
                } else {
                    i
                };
                assert(m0.sessions[old_i].fits(self.dim()));
                if old_i == si {
                    let rest0 = m0.sessions[si as int];
                    let d0 = rest0.documents[di as int];
                    assert(d0.fits(self.dim()));
                    assert forall|j: int| 0 <= j < after.documents.len() implies (
                    #[trigger] after.documents[j]).fits(self.dim()) by {
                        let old_j = if d0.chunks.len() == 1 && j >= di {
                            j + 1
                        } else {
                            j
                        };
                        assert(rest0.documents[old_j].fits(self.dim()));
                        if old_j == di {
                            let d1 = d0.left(ar, ci as int);
                            assert forall|c: int| 0 <= c < d1.chunks.len() implies (
                            #[trigger] d1.chunks[c]).vector.len() == self.dim() by {
                                let old_c = if c >= ci {
                                    c + 1
                                } else {
                                    c
                                };
                                assert(d0.chunks[old_c].vector.len() == self.dim());
                            }
                        }
                    }
                }
            }
        }
        true
    }
}

/// The first session that holds the chunk is the first of those that do.
proof fn lemma_holding_session(sessions: Seq<SessionModel>, id: Id, n: nat)
    requires
        n <= sessions.len(),
    ensures
        0 <= holding_session(sessions, id, n) <= n,
        holding_session(sessions, id, n) < n ==> sessions[holding_session(sessions, id, n)].holds(
            id,
        ),
        forall|j: int|
            0 <= j < holding_session(sessions, id, n) ==> !(#[trigger] sessions[j]).holds(id),
    decreases n,
{
    if n > 0 {
        lemma_holding_session(sessions, id, (n - 1) as nat);
    }
}

/// How long before `now_ms` the time `then_ms` lies; zero where it does
/// not lie before.
pub open spec fn age(now_ms: u64, then_ms: u64) -> u64 {
    if now_ms >= then_ms {
        (now_ms - then_ms) as u64
    } else {
        0
    }
}

/// The score of a node with the vector `v`, made at `then_ms`, for the
/// query `q` at the time `now_ms`: the proximity alone where the temporal
/// weight `w` is zero, else `(1 - w)` of the proximity and `w` of what the
/// node keeps of its weight at its age.
pub open spec fn node_score<A: Arith>(
    ar: &A,
    metric: Metric,
    w: u32,
    now_ms: u64,
    q: Seq<u32>,
    v: Seq<u32>,
    then_ms: u64,
) -> u32 {
    let rho = proximity_spec(ar, metric, q, v);
    if magnitude(w) == 0 {
        rho
    } else {
        ar.sum_spec(
            ar.prod_spec(ar.diff_spec(ONE, w), rho),
            ar.prod_spec(w, ar.decay_spec(age(now_ms, then_ms), HALF_LIFE_MS)),
        )
    }
}

/// What a search is made with: the arithmetic aside, the metric, the
/// temporal weight, the time and the query.
pub struct Probe {
    pub metric: Metric,
    pub weight: u32,
    pub now_ms: u64,
    pub query: Seq<u32>,
}

/// Each session with its score.
pub open spec fn session_scores<A: Arith>(ar: &A, p: Probe, sessions: Seq<SessionModel>) -> Seq<
    SearchResult,
> {
    Seq::new(
        sessions.len(),
        |i: int|
            SearchResult {
                id: sessions[i].id,
                score: node_score(
                    ar,
                    p.metric,
                    p.weight,
                    p.now_ms,
                    p.query,
                    sessions[i].centroid,
                    sessions[i].timestamp_ms,
                ),
            },
    )
}

/// Each document with its score.
pub open spec fn document_scores<A: Arith>(ar: &A, p: Probe, documents: Seq<DocumentModel>) -> Seq<
    SearchResult,
> {
    Seq::new(
        documents.len(),
        |i: int|
            SearchResult {
                id: documents[i].id,
                score: node_score(
                    ar,
                    p.metric,
                    p.weight,
                    p.now_ms,
                    p.query,
                    documents[i].centroid,
                    documents[i].timestamp_ms,
                ),
            },
    )
}

/// Each chunk with its score.
pub open spec fn chunk_scores<A: Arith>(ar: &A, p: Probe, chunks: Seq<ChunkModel>) -> Seq<
    SearchResult,
> {
    Seq::new(
        chunks.len(),
        |i: int|
            SearchResult {
                id: chunks[i].id,
                score: node_score(
                    ar,
                    p.metric,
                    p.weight,
                    p.now_ms,
                    p.query,
                    chunks[i].vector,
                    chunks[i].id.millis,
                ),
            },
    )
}

/// The documents of the sessions at the first `n` of the places `picks`,
/// session after session.
pub open spec fn documents_of(sessions: Seq<SessionModel>, picks: Seq<int>, n: nat) -> Seq<
    DocumentModel,
>
    decreases n,
{
    if n == 0 {
        Seq::empty()
    } else {
        documents_of(sessions, picks, (n - 1) as nat) + sessions[picks[n - 1]].documents
    }
}

/// The chunks of the documents at the first `n` of the places `picks`,
/// document after document.
pub open spec fn chunks_of(documents: Seq<DocumentModel>, picks: Seq<int>, n: nat) -> Seq<
    ChunkModel,
>
    decreases n,
{
    if n == 0 {
        Seq::empty()
    } else {
        chunks_of(documents, picks, (n - 1) as nat) + documents[picks[n - 1]].chunks
    }
}

/// Whether `out` is what a search finds that descends into the sessions at
/// the places `sp` and into the documents at the places `dp` among theirs:
/// these are the best `beam` at their level, and `out` is the best `k` of
/// the chunks below.
pub open spec fn descends<A: Arith>(
    ar: &A,
    p: Probe,
    sessions: Seq<SessionModel>,
    beam: nat,
    k: nat,
    out: Seq<SearchResult>,
    sp: Seq<int>,
    dp: Seq<int>,
) -> bool {
    let documents = documents_of(sessions, sp, sp.len());
    let chunks = chunks_of(documents, dp, dp.len());
    &&& is_selection(sp, session_scores(ar, p, sessions), beam)
    &&& is_selection(dp, document_scores(ar, p, documents), beam)
    &&& is_top(out, chunk_scores(ar, p, chunks), k)
}

/// Whether `out` is what a search with the beam width `beam` finds: the
/// best `k` of the chunks of the best `beam` documents of the best `beam`
/// sessions, each level scored by its centroids.
pub open spec fn found<A: Arith>(
    ar: &A,
    p: Probe,
    sessions: Seq<SessionModel>,
    beam: nat,
    k: nat,
    out: Seq<SearchResult>,
) -> bool {
    exists|sp: Seq<int>, dp: Seq<int>| #[trigger] descends(ar, p, sessions, beam, k, out, sp, dp)
}

/// What a search tells of a session.
#[derive(Debug, Clone, Copy, PartialEq, Eq, Structural)]
pub struct SessionSummary {
    /// The identifier of the session.
    pub id: Id,
    /// The proximity of its centroid to the query.
    pub score: u32,
    /// The number of its chunks.
    pub chunk_count: usize,
    /// When it was made.
    pub timestamp: u64,
}

/// What a search tells of a document.
#[derive(Debug, Clone, Copy, PartialEq, Eq, Structural)]
pub struct DocumentSummary {
    /// The identifier of the document.
    pub id: Id,
    /// The proximity of its centroid to the query.
    pub score: u32,
    /// The number of its chunks.
    pub chunk_count: usize,
}

/// The places as integers.
pub open spec fn places(picks: Seq<usize>) -> Seq<int> {
    picks.map_values(|p: usize| p as int)
}

/// The score of a node.
fn score<A: Arith>(ar: &A, metric: Metric, w: u32, now_ms: u64, q: &Point, v: &Point, then_ms: u64) -> (r:
    u32)
    requires
        q@.len() == v@.len(),
    ensures
        r == node_score(ar, metric, w, now_ms, q@, v@, then_ms),
{
    let rho = match proximity(ar, metric, q, v) {
        Ok(rho) => rho,
        Err(_) => ZERO,
    };
    if zero(w) {
        rho
    } else {
        let age = if now_ms >= then_ms {
            now_ms - then_ms
        } else {
            0
        };
        ar.sum(ar.prod(ar.diff(ONE, w), rho), ar.prod(w, ar.decay(age, HALF_LIFE_MS)))
    }
}

impl Document {
    /// Each chunk with its score.
    fn scores<A: Arith>(&self, ar: &A, metric: Metric, w: u32, now_ms: u64, q: &Point) -> (out: Vec<
        SearchResult,
    >)
        requires
            self@.fits(q@.len()),
        ensures
            out@ == chunk_scores(
                ar,
                Probe { metric, weight: w, now_ms, query: q@ },
                self@.chunks,
            ),
    {
        let ghost goal = chunk_scores(
            ar,
            Probe { metric, weight: w, now_ms, query: q@ },
            self@.chunks,
        );
        let mut out: Vec<SearchResult> = Vec::new();
        let mut i: usize = 0;
        while i < self.chunks.len()
            invariant
                i <= self.chunks@.len(),
                self@.fits(q@.len()),
                goal == chunk_scores(
                    ar,
                    Probe { metric, weight: w, now_ms, query: q@ },
                    self@.chunks,
                ),
                out@ == goal.take(i as int),
            decreases self.chunks.len() - i,
        {
            assert(self@.chunks[i as int].vector.len() == q@.len());
            let c = &self.chunks[i];
            out.push(
                SearchResult { id: c.id, score: score(ar, metric, w, now_ms, q, &c.vector, c.id.millis) },
            );
            assert(out@ =~= goal.take(i + 1));
            i = i + 1;
        }
        assert(out@ =~= goal);
        out
    }
}

impl Session {
    /// Each document with its score.
    fn scores<A: Arith>(&self, ar: &A, metric: Metric, w: u32, now_ms: u64, q: &Point) -> (out: Vec<
        SearchResult,
    >)
        requires
            self@.fits(q@.len()),
        ensures
            out@ == document_scores(
                ar,
                Probe { metric, weight: w, now_ms, query: q@ },
                self@.documents,
            ),
    {
        let ghost goal = document_scores(
            ar,
            Probe { metric, weight: w, now_ms, query: q@ },
            self@.documents,
        );
        let mut out: Vec<SearchResult> = Vec::new();
        let mut i: usize = 0;
        while i < self.documents.len()
            invariant
                i <= self.documents@.len(),
                self@.fits(q@.len()),
                goal == document_scores(
                    ar,
                    Probe { metric, weight: w, now_ms, query: q@ },
                    self@.documents,
                ),
                out@ == goal.take(i as int),
            decreases self.documents.len() - i,
        {
            assert(self@.documents[i as int].fits(q@.len()));
            let d = &self.documents[i];
            out.push(
                SearchResult {
                    id: d.id,
                    score: score(ar, metric, w, now_ms, q, &d.centroid, d.timestamp_ms),
                },
            );
            assert(out@ =~= goal.take(i + 1));
            i = i + 1;
        }
        assert(out@ =~= goal);
        out
    }
}

impl HatIndex {
    /// Each session with its score.
    fn scores<A: Arith>(&self, ar: &A, w: u32, now_ms: u64, q: &Point) -> (out: Vec<SearchResult>)
        requires
            self.wf(),
            q@.len() == self.dim(),
        ensures
            out@ == session_scores(
                ar,
                Probe { metric: self.metric(), weight: w, now_ms, query: q@ },
                self@.sessions,
            ),
    {
        let ghost goal = session_scores(
            ar,
            Probe { metric: self.metric, weight: w, now_ms, query: q@ },
            self@.sessions,
        );
        let mut out: Vec<SearchResult> = Vec::new();
        let mut i: usize = 0;
        while i < self.sessions.len()
            invariant
                i <= self.sessions@.len(),
                self.wf(),
                q@.len() == self.dim(),
                goal == session_scores(
                    ar,
                    Probe { metric: self.metric, weight: w, now_ms, query: q@ },
                    self@.sessions,
                ),
                out@ == goal.take(i as int),
            decreases self.sessions.len() - i,
        {
            assert(self@.sessions[i as int].fits(q@.len()));
            let s = &self.sessions[i];
            out.push(
                SearchResult {
                    id: s.id,
                    score: score(ar, self.metric, w, now_ms, q, &s.centroid, s.timestamp_ms),
                },
            );
            assert(out@ =~= goal.take(i + 1));
            i = i + 1;
        }
        assert(out@ =~= goal);
        out
    }

    /// The `k` chunks nearest to `query` as a search at the time `now_ms`
    /// finds them, nearest first.
    pub fn near_at<A: Arith>(&self, ar: &A, query: &Point, k: usize, now_ms: u64) -> (r: Result<
        Vec<SearchResult>,
        NearError,
    >)
        requires
            self.wf(),
        ensures
            match r {
                Ok(out) => query@.len() == self.dim() && ranked(out@) && out@.len() <= k && found(
                    ar,
                    Probe {
                        metric: self.metric(),
                        weight: self.settings().temporal_weight,
                        now_ms,
                        query: query@,
                    },
                    self@.sessions,
                    self.settings().beam_width as nat,
                    k as nat,
                    out@,
                ),
                Err(NearError::DimensionalityMismatch { expected, got }) => query@.len()
                    != self.dim() && expected == self.dim() && got == query@.len(),
                Err(_) => false,
            },
    {
        if query.dimensionality() != self.dimensionality {
            return Err(
                NearError::DimensionalityMismatch {
                    expected: self.dimensionality,
                    got: query.dimensionality(),
                },
            );
        }
        let w = self.config.temporal_weight;
        let beam = self.config.beam_width;
        let ghost p = Probe { metric: self.metric, weight: w, now_ms, query: query@ };
        let ghost sessions = self@.sessions;
        let session_scores = self.scores(ar, w, now_ms, query);
        let sp = select(&session_scores, beam);
        let ghost spi = places(sp@);
        // The documents of the picked sessions, each with where it stands.
        let mut dscores: Vec<SearchResult> = Vec::new();
        let mut drefs: Vec<(usize, usize)> = Vec::new();
        let mut i: usize = 0;
        while i < sp.len()
            invariant
                i <= sp@.len(),
                self.wf(),
                query@.len() == self.dim(),
                sessions == self@.sessions,
                spi == places(sp@),
                p == (Probe { metric: self.metric, weight: w, now_ms, query: query@ }),
                forall|x: int| 0 <= x < sp@.len() ==> 0 <= #[trigger] spi[x] < sessions.len(),
                dscores@ == document_scores(ar, p, documents_of(sessions, spi, i as nat)),
                drefs@.len() == dscores@.len(),
                forall|x: int|
                    0 <= x < drefs@.len() ==> (#[trigger] drefs@[x]).0 < sessions.len()
                        && drefs@[x].1 < sessions[drefs@[x].0 as int].documents.len()
                        && sessions[drefs@[x].0 as int].documents[drefs@[x].1 as int]
                        == documents_of(sessions, spi, i as nat)[x],
            decreases sp.len() - i,
        {
            let si = sp[i];
            assert(spi[i as int] == si);
            assert(sessions[si as int].fits(query@.len()));
            let mut more = self.sessions[si].scores(ar, self.metric, w, now_ms, query);
            let ghost before = documents_of(sessions, spi, i as nat);
            let ghost now = documents_of(sessions, spi, (i + 1) as nat);
            let ghost old_refs = drefs@;
            let mut d: usize = 0;
            while d < self.sessions[si].documents.len()
                invariant
                    d <= sessions[si as int].documents.len(),
                    si < sessions.len(),
                    sessions == self@.sessions,
                    now == before + sessions[si as int].documents,
                    old_refs.len() == before.len(),
                    drefs@.len() == old_refs.len() + d,
                    forall|x: int| 0 <= x < old_refs.len() ==> drefs@[x] == old_refs[x],
                    forall|x: int|
                        0 <= x < d ==> (#[trigger] drefs@[old_refs.len() + x]) == (si, x as usize),
                decreases sessions[si as int].documents.len() - d,
            {
                drefs.push((si, d));
                d = d + 1;
            }
            dscores.append(&mut more);
            proof {
                assert(dscores@ =~= document_scores(ar, p, now));
                assert forall|x: int| 0 <= x < drefs@.len() implies (#[trigger] drefs@[x]).0
                    < sessions.len() && drefs@[x].1 < sessions[drefs@[x].0 as int].documents.len()
                    && sessions[drefs@[x].0 as int].documents[drefs@[x].1 as int] == now[x] by {
                    if x < old_refs.len() {
                        assert(drefs@[x] == old_refs[x]);
                        assert(now[x] == before[x]);
                    } else {
                        let y = x - old_refs.len();
                        assert(drefs@[old_refs.len() + y] == (si, y as usize));
                    }
                }
            }
            i = i + 1;
        }
        let ghost documents = documents_of(sessions, spi, spi.len());
        let dp = select(&dscores, beam);
        let ghost dpi = places(dp@);
        // The chunks of the picked documents.
        let mut cscores: Vec<SearchResult> = Vec::new();
        let mut j: usize = 0;
        while j < dp.len()
            invariant
                j <= dp@.len(),
                self.wf(),
                query@.len() == self.dim(),
                sessions == self@.sessions,
                dpi == places(dp@),
                p == (Probe { metric: self.metric, weight: w, now_ms, query: query@ }),
                drefs@.len() == documents.len(),
                forall|x: int| 0 <= x < dp@.len() ==> 0 <= #[trigger] dpi[x] < documents.len(),
                forall|x: int|
                    0 <= x < drefs@.len() ==> (#[trigger] drefs@[x]).0 < sessions.len()
                        && drefs@[x].1 < sessions[drefs@[x].0 as int].documents.len()
                        && sessions[drefs@[x].0 as int].documents[drefs@[x].1 as int]
                        == documents[x],
                cscores@ == chunk_scores(ar, p, chunks_of(documents, dpi, j as nat)),
            decreases dp.len() - j,
        {
            let at = dp[j];
            assert(dpi[j as int] == at);
            let (si, di) = drefs[at];
            assert(sessions[si as int].fits(query@.len()));
            assert(sessions[si as int].documents[di as int].fits(query@.len()));
            let mut more = self.sessions[si].documents[di].scores(ar, self.metric, w, now_ms, query);
            cscores.append(&mut more);
            assert(cscores@ =~= chunk_scores(ar, p, chunks_of(documents, dpi, (j + 1) as nat)));
            j = j + 1;
        }
        let out = rank(&cscores, k);
        proof {
            assert(descends(ar, p, sessions, beam as nat, k as nat, out@, spi, dpi));
        }
        Ok(out)
    }

    /// The `k` chunks nearest to `query` as a search finds them, nearest
    /// first. The time is read from the clock; it matters only where the
    /// temporal weight is not zero.
    pub fn near<A: Arith>(&self, ar: &A, query: &Point, k: usize) -> (r: Result<
        Vec<SearchResult>,
        NearError,
    >)
        requires
            self.wf(),
        ensures
            match r {
                Ok(out) => query@.len() == self.dim() && ranked(out@) && out@.len() <= k
                    && exists|now_ms: u64| #[trigger]
                    found(
                        ar,
                        Probe {
                            metric: self.metric(),
                            weight: self.settings().temporal_weight,
                            now_ms,
                            query: query@,
                        },
                        self@.sessions,
                        self.settings().beam_width as nat,
                        k as nat,
                        out@,
                    ),
                Err(NearError::DimensionalityMismatch { expected, got }) => query@.len()
                    != self.dim() && expected == self.dim() && got == query@.len(),
                Err(_) => false,
            },
    {
        let now_ms = crate::id::unix_millis();
        self.near_at(ar, query, k, now_ms)
    }
}

/// A search by proximity alone.
pub open spec fn plain(metric: Metric, query: Seq<u32>) -> Probe {
    Probe { metric, weight: ZERO, now_ms: 0, query }
}

/// What a search tells of the sessions at the places `picks`.
pub open spec fn session_summaries(
    sessions: Seq<SessionModel>,
    scores: Seq<SearchResult>,
    picks: Seq<int>,
) -> Seq<SessionSummary> {
    Seq::new(
        picks.len(),
        |i: int|
            SessionSummary {
                id: sessions[picks[i]].id,
                score: scores[picks[i]].score,
                chunk_count: capped_count(sessions[picks[i]].count()),
                timestamp: sessions[picks[i]].timestamp_ms,
            },
    )
}

/// What a search tells of the documents at the places `picks`.
pub open spec fn document_summaries(
    documents: Seq<DocumentModel>,
    scores: Seq<SearchResult>,
    picks: Seq<int>,
) -> Seq<DocumentSummary> {
    Seq::new(
        picks.len(),
        |i: int|
            DocumentSummary {
                id: documents[picks[i]].id,
                score: scores[picks[i]].score,
                chunk_count: documents[picks[i]].chunks.len() as usize,
            },
    )
}

/// The first place among the first `n` of `sessions` at which one has a
/// document under `id`, or `n`.
pub open spec fn session_of_document(sessions: Seq<SessionModel>, id: Id, n: nat) -> int
    decreases n,
{
    if n == 0 {
        0
    } else {
        let before = session_of_document(sessions, id, (n - 1) as nat);
        if before < n - 1 {
            before
        } else if find_document(sessions[n - 1].documents, id, sessions[n - 1].documents.len())
            < sessions[n - 1].documents.len() {
            n - 1
        } else {
            n as int
        }
    }
}

/// Once a session with the document is found, it stays found.
proof fn lemma_session_of_document_stays(sessions: Seq<SessionModel>, id: Id, n: nat, m: nat)
    requires
        n <= m,
        session_of_document(sessions, id, n) < n,
    ensures
        session_of_document(sessions, id, m) == session_of_document(sessions, id, n),
    decreases m - n,
{
    if n < m {
        lemma_session_of_document_stays(sessions, id, n, (m - 1) as nat);
    }
}

impl HatIndex {
    /// The `k` sessions whose centroids are nearest to `query`, nearest
    /// first.
    pub fn near_sessions<A: Arith>(&self, ar: &A, query: &Point, k: usize) -> (r: Result<
        Vec<SessionSummary>,
        NearError,
    >)
        requires
            self.wf(),
        ensures
            match r {
                Ok(out) => {
                    let scores = session_scores(
                        ar,
                        plain(self.metric(), query@),
                        self@.sessions,
                    );
                    &&& query@.len() == self.dim()
                    &&& exists|picks: Seq<int>| #[trigger]
                        is_selection(picks, scores, k as nat) && out@ == session_summaries(
                            self@.sessions,
                            scores,
                            picks,
                        )
                },
                Err(NearError::DimensionalityMismatch { expected, got }) => query@.len()
                    != self.dim() && expected == self.dim() && got == query@.len(),
                Err(_) => false,
            },
    {
        if query.dimensionality() != self.dimensionality {
            return Err(
                NearError::DimensionalityMismatch {
                    expected: self.dimensionality,
                    got: query.dimensionality(),
                },
            );
        }
        let scores = self.scores(ar, ZERO, 0, query);
        let picks = select(&scores, k);
        let ghost goal = session_summaries(self@.sessions, scores@, places(picks@));
        let mut out: Vec<SessionSummary> = Vec::new();
        let mut i: usize = 0;
        while i < picks.len()
            invariant
                i <= picks@.len(),
                scores@.len() == self@.sessions.len(),
                is_selection(places(picks@), scores@, k as nat),
                goal == session_summaries(self@.sessions, scores@, places(picks@)),
                out@ == goal.take(i as int),
            decreases picks.len() - i,
        {
            let at = picks[i];
            assert(places(picks@)[i as int] == at);
            let s = &self.sessions[at];
            out.push(
                SessionSummary {
                    id: s.id,
                    score: scores[at].score,
                    chunk_count: s.count(),
                    timestamp: s.timestamp_ms,
                },
            );
            assert(out@ =~= goal.take(i + 1));
            i = i + 1;
        }
        assert(out@ =~= goal);
        Ok(out)
    }

    /// The `k` documents of the session `session_id` whose centroids are
    /// nearest to `query`, nearest first.
    pub fn near_documents<A: Arith>(&self, ar: &A, session_id: Id, query: &Point, k: usize) -> (r:
        Result<Vec<DocumentSummary>, NearError>)
        requires
            self.wf(),
        ensures
            match r {
                Ok(out) => {
                    let si = find_session(self@.sessions, session_id, self@.sessions.len());
                    let documents = self@.sessions[si].documents;
                    let scores = document_scores(ar, plain(self.metric(), query@), documents);
                    &&& query@.len() == self.dim()
                    &&& si < self@.sessions.len()
                    &&& exists|picks: Seq<int>| #[trigger]
                        is_selection(picks, scores, k as nat) && out@ == document_summaries(
                            documents,
                            scores,
                            picks,
                        )
                },
                Err(NearError::DimensionalityMismatch { expected, got }) => query@.len()
                    != self.dim() && expected == self.dim() && got == query@.len(),
                Err(NearError::NotFound(id)) => query@.len() == self.dim() && id == session_id
                    && find_session(self@.sessions, session_id, self@.sessions.len())
                    >= self@.sessions.len(),
                Err(NearError::DuplicateId(_)) => false,
            },
    {
        if query.dimensionality() != self.dimensionality {
            return Err(
                NearError::DimensionalityMismatch {
                    expected: self.dimensionality,
                    got: query.dimensionality(),
                },
            );
        }
        let si = self.find_session(session_id);
        if si >= self.sessions.len() {
            return Err(NearError::NotFound(session_id));
        }
        assert(self@.sessions[si as int].fits(query@.len()));
        let session = &self.sessions[si];
        let scores = session.scores(ar, self.metric, ZERO, 0, query);
        let picks = select(&scores, k);
        let ghost documents = self@.sessions[si as int].documents;
        let ghost goal = document_summaries(documents, scores@, places(picks@));
        let mut out: Vec<DocumentSummary> = Vec::new();
        let mut i: usize = 0;
        while i < picks.len()
            invariant
                i <= picks@.len(),
                documents == session@.documents,
                scores@.len() == documents.len(),
                is_selection(places(picks@), scores@, k as nat),
                goal == document_summaries(documents, scores@, places(picks@)),
                out@ == goal.take(i as int),
            decreases picks.len() - i,
        {
            let at = picks[i];
            assert(places(picks@)[i as int] == at);
            let d = &session.documents[at];
            out.push(
                DocumentSummary { id: d.id, score: scores[at].score, chunk_count: d.chunks.len() },
            );
            assert(out@ =~= goal.take(i + 1));
            i = i + 1;
        }
        assert(out@ =~= goal);
        Ok(out)
    }

    /// The `k` chunks of the document `document_id` that are nearest to
    /// `query`, nearest first.
    pub fn near_in_document<A: Arith>(&self, ar: &A, document_id: Id, query: &Point, k: usize) -> (r:
        Result<Vec<SearchResult>, NearError>)
        requires
            self.wf(),
        ensures
            match r {
                Ok(out) => {
                    let si = session_of_document(
                        self@.sessions,
                        document_id,
                        self@.sessions.len(),
                    );
                    let documents = self@.sessions[si].documents;
                    let di = find_document(documents, document_id, documents.len());
                    &&& query@.len() == self.dim()
                    &&& si < self@.sessions.len()
                    &&& is_top(
                        out@,
                        chunk_scores(ar, plain(self.metric(), query@), documents[di].chunks),
                        k as nat,
                    )
                    &&& ranked(out@)
                },
                Err(NearError::DimensionalityMismatch { expected, got }) => query@.len()
                    != self.dim() && expected == self.dim() && got == query@.len(),
                Err(NearError::NotFound(id)) => query@.len() == self.dim() && id == document_id
                    && session_of_document(self@.sessions, document_id, self@.sessions.len())
                    >= self@.sessions.len(),
                Err(NearError::DuplicateId(_)) => false,
            },
    {
        if query.dimensionality() != self.dimensionality {
            return Err(
                NearError::DimensionalityMismatch {
                    expected: self.dimensionality,
                    got: query.dimensionality(),
                },
            );
        }
        let mut si: usize = 0;
        while si < self.sessions.len()
            invariant
                si <= self@.sessions.len(),
                self.wf(),
                query@.len() == self.dim(),
                session_of_document(self@.sessions, document_id, si as nat) == si,
            decreases self.sessions.len() - si,
        {
            let di = self.sessions[si].find(document_id);
            if di < self.sessions[si].documents.len() {
                proof {
                    lemma_session_of_document_stays(
                        self@.sessions,
                        document_id,
                        (si + 1) as nat,
                        self@.sessions.len(),
                    );
                    assert(self@.sessions[si as int].fits(query@.len()));
                    assert(self@.sessions[si as int].documents[di as int].fits(query@.len()));
                }
                let scores = self.sessions[si].documents[di].scores(
                    ar,
                    self.metric,
                    ZERO,
                    0,
                    query,
                );
                return Ok(rank(&scores, k));
            }
            si = si + 1;
        }
        Err(NearError::NotFound(document_id))
    }

    /// The numbers of the index, each capped at the greatest `usize`.
    pub fn stats(&self) -> (s: HatStats)
        ensures
            s.chunk_count == capped_count(self@.chunk_count()),
            s.global_count == s.chunk_count,
            s.document_count == capped_count(self@.document_count()),
            s.session_count == self@.session_count(),
    {
        let mut chunks: usize = 0;
        let mut documents: usize = 0;
        let mut i: usize = 0;
        while i < self.sessions.len()
            invariant
                i <= self.sessions@.len(),
                chunks == capped_count(session_chunks_upto(self@.sessions, i as nat)),
                documents == capped_count(documents_upto(self@.sessions, i as nat)),
            decreases self.sessions.len() - i,
        {
            chunks = count_sum(chunks, self.sessions[i].count());
            documents = count_sum(documents, self.sessions[i].documents.len());
            i = i + 1;
        }
        HatStats {
            global_count: chunks,
            session_count: self.sessions.len(),
            document_count: documents,
            chunk_count: chunks,
        }
    }

    /// The number of chunks, capped at the greatest `usize`.
    pub fn len(&self) -> (n: usize)
        ensures
            n == capped_count(self@.chunk_count()),
    {
        self.stats().chunk_count
    }

    /// Whether the index holds no chunk.
    pub fn is_empty(&self) -> (b: bool)
        ensures
            b == (self@.chunk_count() == 0),
    {
        self.stats().chunk_count == 0
    }
}

/// How thorough a consolidation is.
#[derive(Debug, Clone, Copy, PartialEq, Eq, Structural)]
pub enum Consolidation {
    /// Children are put in order of recency, and marked centroids are
    /// computed afresh.
    Light,
    /// After a light pass, documents of a session that lie close together
    /// are merged, and documents that have grown too large are split.
    Full,
}

/// The first place among the first `n` of `s` whose date lies before
/// `date`, or `n`.
pub open spec fn slot<T>(s: Seq<T>, date_of: spec_fn(T) -> u64, date: u64, n: nat) -> int
    decreases n,
{
    if n == 0 {
        0
    } else {
        let before = slot(s, date_of, date, (n - 1) as nat);
        if before < n - 1 {
            before
        } else if date_of(s[n - 1]) < date {
            n - 1
        } else {
            n as int
        }
    }
}

/// The first `n` of `s`, latest first; those of one date keep their order.
pub open spec fn by_recency<T>(s: Seq<T>, date_of: spec_fn(T) -> u64, n: nat) -> Seq<T>
    decreases n,
{
    if n == 0 {
        Seq::empty()
    } else {
        let front = by_recency(s, date_of, (n - 1) as nat);
        front.insert(slot(front, date_of, date_of(s[n - 1]), front.len()), s[n - 1])
    }
}

/// Whether the dates of `s` do not increase.
pub open spec fn latest_first<T>(s: Seq<T>, date_of: spec_fn(T) -> u64) -> bool {
    forall|i: int, j: int| 0 <= i < j < s.len() ==> date_of(s[i]) >= date_of(s[j])
}

/// The slot is the first place whose date lies before the given one.
pub proof fn lemma_slot<T>(s: Seq<T>, date_of: spec_fn(T) -> u64, date: u64, n: nat)
    requires
        n <= s.len(),
    ensures
        0 <= slot(s, date_of, date, n) <= n,
        forall|i: int| 0 <= i < slot(s, date_of, date, n) ==> date_of(s[i]) >= date,
        slot(s, date_of, date, n) < n ==> date_of(s[slot(s, date_of, date, n)]) < date,
    decreases n,
{
    if n > 0 {
        lemma_slot(s, date_of, date, (n - 1) as nat);
    }
}

/// What is put in order of recency is in that order, and holds what was
/// there: as many, and each of them from the original.
pub proof fn lemma_by_recency<T>(s: Seq<T>, date_of: spec_fn(T) -> u64, n: nat)
    requires
        n <= s.len(),
    ensures
        by_recency(s, date_of, n).len() == n,
        latest_first(by_recency(s, date_of, n), date_of),
        forall|i: int|
            0 <= i < n ==> exists|j: int|
                0 <= j < n && s[j] == #[trigger] by_recency(s, date_of, n)[i],
    decreases n,
{
    if n > 0 {
        let m = (n - 1) as nat;
        lemma_by_recency(s, date_of, m);
        let front = by_recency(s, date_of, m);
        let x = s[n - 1];
        let at = slot(front, date_of, date_of(x), front.len());
        lemma_slot(front, date_of, date_of(x), front.len());
        let now = by_recency(s, date_of, n);
        assert(now == front.insert(at, x));
        assert forall|i: int, j: int| 0 <= i < j < now.len() implies date_of(now[i]) >= date_of(
            now[j],
        ) by {
            if j < at {
            } else if j == at {
            } else {
                assert(now[j] == front[j - 1]);
                if i < at {
                } else if i == at {
                    assert(date_of(front[at]) < date_of(x));
                    assert(at <= j - 1);
                    if at < j - 1 {
                        assert(date_of(front[at]) >= date_of(front[j - 1]));
                    }
                } else {
                    assert(now[i] == front[i - 1]);
                }
            }
        }
        assert forall|i: int| 0 <= i < n implies exists|j: int|
            0 <= j < n && s[j] == #[trigger] now[i] by {
            if i < at {
                let j = choose|j: int| 0 <= j < m && s[j] == front[i];
                assert(s[j] == now[i]);
            } else if i == at {
                assert(s[n - 1] == now[i]);
            } else {
                let j = choose|j: int| 0 <= j < m && s[j] == front[i - 1];
                assert(s[j] == now[i]);
            }
        }
    }
}

/// What is in order of recency already stays as it is.
pub proof fn lemma_by_recency_fixed<T>(s: Seq<T>, date_of: spec_fn(T) -> u64, n: nat)
    requires
        n <= s.len(),
        latest_first(s, date_of),
    ensures
        by_recency(s, date_of, n) == s.take(n as int),
    decreases n,
{
    if n > 0 {
        let m = (n - 1) as nat;
        lemma_by_recency_fixed(s, date_of, m);
        let front = s.take(m as int);
        let x = s[n - 1];
        lemma_slot(front, date_of, date_of(x), front.len());
        let at = slot(front, date_of, date_of(x), front.len());
        if at < front.len() {
            assert(date_of(front[at]) < date_of(x));
            assert(front[at] == s[at]);
            assert(false);
        }
        assert(front.insert(front.len() as int, x) =~= s.take(n as int));
    } else {
        assert(s.take(0) =~= Seq::<T>::empty());
    }
}

/// The date of a chunk: the time in its identifier.
pub open spec fn chunk_date() -> spec_fn(ChunkModel) -> u64 {
    |c: ChunkModel| c.id.millis
}

/// The date of a document: the time at which it was made.
pub open spec fn document_date() -> spec_fn(DocumentModel) -> u64 {
    |d: DocumentModel| d.timestamp_ms
}

impl DocumentModel {
    /// The document after a light consolidation: its chunks latest first,
    /// and its centroid, where it was marked, their mean computed afresh.
    pub open spec fn consolidated<A: Arith>(self, ar: &A) -> DocumentModel {
        let chunks = by_recency(self.chunks, chunk_date(), self.chunks.len());
        let ordered = DocumentModel { chunks, ..self };
        if self.dirty {
            DocumentModel {
                centroid: mean_spec(ar, ordered.vectors(), self.centroid.len()),
                dirty: false,
                ..ordered
            }
        } else {
            ordered
        }
    }
}

/// Each of `documents` after a light consolidation.
pub open spec fn consolidated_each<A: Arith>(ar: &A, documents: Seq<DocumentModel>) -> Seq<
    DocumentModel,
> {
    Seq::new(documents.len(), |i: int| documents[i].consolidated(ar))
}

/// Whether one of the first `n` of `documents` is marked.
pub open spec fn any_dirty(documents: Seq<DocumentModel>, n: nat) -> bool
    decreases n,
{
    if n == 0 {
        false
    } else {
        any_dirty(documents, (n - 1) as nat) || documents[n - 1].dirty
    }
}

impl SessionModel {
    /// The session after a light consolidation: its documents consolidated
    /// and latest first, and its centroid computed afresh where the session
    /// or one of its documents was marked.
    pub open spec fn consolidated<A: Arith>(self, ar: &A) -> SessionModel {
        let each = consolidated_each(ar, self.documents);
        let documents = by_recency(each, document_date(), each.len());
        let ordered = SessionModel { documents, ..self };
        if self.dirty || any_dirty(self.documents, self.documents.len()) {
            ordered.settled(ar)
        } else {
            ordered
        }
    }
}

impl HatModel {
    /// The index after a light consolidation: every session consolidated.
    pub open spec fn consolidated<A: Arith>(self, ar: &A) -> HatModel {
        HatModel {
            sessions: Seq::new(self.sessions.len(), |i: int| self.sessions[i].consolidated(ar)),
            ..self
        }
    }
}

/// No document is marked where none of them is.
pub proof fn lemma_none_dirty(documents: Seq<DocumentModel>, n: nat)
    requires
        n <= documents.len(),
        forall|i: int| 0 <= i < n ==> !(#[trigger] documents[i]).dirty,
    ensures
        !any_dirty(documents, n),
    decreases n,
{
    if n > 0 {
        lemma_none_dirty(documents, (n - 1) as nat);
    }
}

/// A document that was consolidated is not changed by consolidating it
/// again.
pub proof fn lemma_document_consolidated_twice<A: Arith>(d: DocumentModel, ar: &A)
    ensures
        d.consolidated(ar).consolidated(ar) == d.consolidated(ar),
        !d.consolidated(ar).dirty,
        d.consolidated(ar).timestamp_ms == d.timestamp_ms,
{
    let once = d.consolidated(ar);
    lemma_by_recency(d.chunks, chunk_date(), d.chunks.len());
    lemma_by_recency_fixed(once.chunks, chunk_date(), once.chunks.len());
    assert(once.chunks.take(once.chunks.len() as int) =~= once.chunks);
}

/// A session that was consolidated is not changed by consolidating it
/// again.
pub proof fn lemma_session_consolidated_twice<A: Arith>(s: SessionModel, ar: &A)
    ensures
        s.consolidated(ar).consolidated(ar) == s.consolidated(ar),
{
    let once = s.consolidated(ar);
    let each = consolidated_each(ar, s.documents);
    lemma_by_recency(each, document_date(), each.len());
    assert forall|i: int| 0 <= i < once.documents.len() implies (
    #[trigger] once.documents[i]).consolidated(ar) == once.documents[i]
        && !once.documents[i].dirty by {
        let j = choose|j: int| 0 <= j < each.len() && each[j] == once.documents[i];
        lemma_document_consolidated_twice(s.documents[j], ar);
    }
    let again = consolidated_each(ar, once.documents);
    assert(again =~= once.documents);
    lemma_by_recency_fixed(once.documents, document_date(), once.documents.len());
    assert(once.documents.take(once.documents.len() as int) =~= once.documents);
    lemma_none_dirty(once.documents, once.documents.len());
}

/// Consolidation is idempotent: an index that was consolidated lightly is
/// not changed by consolidating it lightly again.
pub proof fn lemma_consolidated_twice<A: Arith>(m: HatModel, ar: &A)
    ensures
        m.consolidated(ar).consolidated(ar) == m.consolidated(ar),
{
    let once = m.consolidated(ar);
    assert forall|i: int| 0 <= i < once.sessions.len() implies (
    #[trigger] once.sessions[i]).consolidated(ar) == once.sessions[i] by {
        lemma_session_consolidated_twice(m.sessions[i], ar);
    }
    assert(once.consolidated(ar).sessions =~= once.sessions);
}

impl Document {
    /// Puts the chunks in order of recency and, where the document is
    /// marked, computes its centroid afresh.
    fn consolidate<A: Arith>(&mut self, ar: &A)
        ensures
            final(self)@ == old(self)@.consolidated(ar),
    {
        let ghost before = self@;
        let n = self.chunks.len();
        let mut i: usize = 0;
        while i < n
            invariant
                i <= n,
                n == before.chunks.len(),
                self.chunks@.len() == n,
                self@.chunks == by_recency(before.chunks, chunk_date(), i as nat)
                    + before.chunks.skip(i as int),
                self@.id == before.id,
                self@.timestamp_ms == before.timestamp_ms,
                self@.centroid == before.centroid,
                self@.dirty == before.dirty,
            decreases n - i,
        {
            let ghost front = by_recency(before.chunks, chunk_date(), i as nat);
            proof {
                lemma_by_recency(before.chunks, chunk_date(), i as nat);
            }
            let ghost current = self@.chunks;
            assert(current[i as int] == before.chunks.skip(i as int)[0]);
            let x = self.chunks.remove(i);
            assert(x@ == before.chunks[i as int]);
            assert(chunk_models(self.chunks@) =~= current.remove(i as int));
            assert(current.remove(i as int) =~= front + before.chunks.skip(i + 1));
            let ghost rest = chunk_models(self.chunks@);
            let date = x.id.millis;
            let mut at: usize = 0;
            while at < i && self.chunks[at].id.millis >= date
                invariant
                    at <= i,
                    i < n,
                    self.chunks@.len() == n - 1,
                    chunk_models(self.chunks@) == rest,
                    rest == front + before.chunks.skip(i + 1),
                    front.len() == i,
                    slot(front, chunk_date(), date, at as nat) == at,
                decreases i - at,
            {
                assert(chunk_models(self.chunks@)[at as int] == front[at as int]);
                at = at + 1;
            }
            proof {
                if at < i {
                    assert(chunk_models(self.chunks@)[at as int] == front[at as int]);
                    lemma_slot_stays(front, chunk_date(), date, (at + 1) as nat, i as nat);
                }
            }
            self.chunks.insert(at, x);
            proof {
                let now = by_recency(before.chunks, chunk_date(), (i + 1) as nat);
                assert(now == front.insert(at as int, x@));
                assert(chunk_models(self.chunks@) =~= rest.insert(at as int, x@));
                assert(rest.insert(at as int, x@) =~= now + before.chunks.skip(i + 1));
            }
            i = i + 1;
        }
        assert(self@.chunks =~= by_recency(before.chunks, chunk_date(), n as nat));
        if self.dirty {
            let vectors = self.vectors();
            let dim = self.centroid.dimensionality();
            self.centroid = mean(ar, vectors.as_slice(), dim);
            self.dirty = false;
        }
    }
}

/// Once a slot is found, it stays the slot among more.
proof fn lemma_slot_stays<T>(s: Seq<T>, date_of: spec_fn(T) -> u64, date: u64, n: nat, m: nat)
    requires
        n <= m,
        slot(s, date_of, date, n) < n,
    ensures
        slot(s, date_of, date, m) == slot(s, date_of, date, n),
    decreases m - n,
{
    if n < m {
        lemma_slot_stays(s, date_of, date, n, (m - 1) as nat);
    }
}

impl Session {
    /// Consolidates the documents, puts them in order of recency and, where
    /// the session or one of its documents was marked, computes its
    /// centroid afresh.
    fn consolidate<A: Arith>(&mut self, ar: &A)
        ensures
            final(self)@ == old(self)@.consolidated(ar),
    {
        let ghost before = self@;
        let ghost each = consolidated_each(ar, before.documents);
        let n = self.documents.len();
        let mut marked = self.dirty;
        let mut k: usize = 0;
        while k < n
            invariant
                k <= n,
                n == before.documents.len(),
                self.documents@.len() == n,
                each == consolidated_each(ar, before.documents),
                forall|j: int| 0 <= j < k ==> self@.documents[j] == each[j],
                forall|j: int| k <= j < n ==> self@.documents[j] == before.documents[j],
                marked == (before.dirty || any_dirty(before.documents, k as nat)),
                self@.id == before.id,
                self@.timestamp_ms == before.timestamp_ms,
                self@.centroid == before.centroid,
                self@.dirty == before.dirty,
            decreases n - k,
        {
            marked = marked || self.documents[k].dirty;
            let ghost docs = self@.documents;
            self.documents[k].consolidate(ar);
            assert(self@.documents =~= docs.update(k as int, each[k as int]));
            k = k + 1;
        }
        assert(self@.documents =~= each);
        let mut i: usize = 0;
        while i < n
            invariant
                i <= n,
                n == each.len(),
                self.documents@.len() == n,
                self@.documents == by_recency(each, document_date(), i as nat) + each.skip(
                    i as int,
                ),
                self@.id == before.id,
                self@.timestamp_ms == before.timestamp_ms,
                self@.centroid == before.centroid,
                self@.dirty == before.dirty,
            decreases n - i,
        {
            let ghost front = by_recency(each, document_date(), i as nat);
            proof {
                lemma_by_recency(each, document_date(), i as nat);
            }
            let ghost current = self@.documents;
            assert(current[i as int] == each.skip(i as int)[0]);
            let x = self.documents.remove(i);
            assert(x@ == each[i as int]);
            assert(document_models(self.documents@) =~= current.remove(i as int));
            assert(current.remove(i as int) =~= front + each.skip(i + 1));
            let ghost rest = document_models(self.documents@);
            let date = x.timestamp_ms;
            let mut at: usize = 0;
            while at < i && self.documents[at].timestamp_ms >= date
                invariant
                    at <= i,
                    i < n,
                    self.documents@.len() == n - 1,
                    document_models(self.documents@) == rest,
                    rest == front + each.skip(i + 1),
                    front.len() == i,
                    slot(front, document_date(), date, at as nat) == at,
                decreases i - at,
            {
                assert(document_models(self.documents@)[at as int] == front[at as int]);
                at = at + 1;
            }
            proof {
                if at < i {
                    assert(document_models(self.documents@)[at as int] == front[at as int]);
                    lemma_slot_stays(front, document_date(), date, (at + 1) as nat, i as nat);
                }
            }
            self.documents.insert(at, x);
            proof {
                let now = by_recency(each, document_date(), (i + 1) as nat);
                assert(now == front.insert(at as int, x@));
                assert(document_models(self.documents@) =~= rest.insert(at as int, x@));
                assert(rest.insert(at as int, x@) =~= now + each.skip(i + 1));
            }
            i = i + 1;
        }
        assert(self@.documents =~= by_recency(each, document_date(), n as nat));
        if marked {
            self.settle(ar);
        }
    }
}

impl HatIndex {
    /// Consolidates the index lightly: children are put in order of
    /// recency, latest first, and every centroid that was marked is
    /// computed afresh.
    pub fn consolidate_light<A: Arith>(&mut self, ar: &A)
        requires
            old(self).wf(),
        ensures
            final(self).wf(),
            final(self).same_frame(old(self)),
            final(self)@ == old(self)@.consolidated(ar),
    {
        let ghost before = self@;
        let n = self.sessions.len();
        let mut i: usize = 0;
        while i < n
            invariant
                i <= n,
                n == before.sessions.len(),
                self.sessions@.len() == n,
                self.same_frame(old(self)),
                self@.current_session == before.current_session,
                self@.current_document == before.current_document,
                forall|j: int| 0 <= j < i ==> self@.sessions[j] == before.sessions[j].consolidated(ar),
                forall|j: int| i <= j < n ==> self@.sessions[j] == before.sessions[j],
            decreases n - i,
        {
            let ghost sessions = self@.sessions;
            self.sessions[i].consolidate(ar);
            assert(self@.sessions =~= sessions.update(
                i as int,
                before.sessions[i as int].consolidated(ar),
            ));
            i = i + 1;
        }
        assert(self@.sessions =~= before.consolidated(ar).sessions);
        proof {
            lemma_consolidated_fits(before, ar, self.dim());
        }
    }
}

/// Consolidation keeps the dimensionality of every vector.
pub proof fn lemma_consolidated_fits<A: Arith>(m: HatModel, ar: &A, dim: nat)
    requires
        m.fits(dim),
    ensures
        m.consolidated(ar).fits(dim),
{
    let once = m.consolidated(ar);
    assert forall|i: int| 0 <= i < once.sessions.len() implies (#[trigger] once.sessions[i]).fits(
        dim,
    ) by {
        let s = m.sessions[i];
        assert(s.fits(dim));
        let each = consolidated_each(ar, s.documents);
        assert forall|j: int| 0 <= j < each.len() implies (#[trigger] each[j]).fits(dim) by {
            let d = s.documents[j];
            assert(d.fits(dim));
            lemma_by_recency(d.chunks, chunk_date(), d.chunks.len());
            let c = each[j];
            assert forall|x: int| 0 <= x < c.chunks.len() implies (#[trigger] c.chunks[x]).vector.len()
                == dim by {
                let y = choose|y: int| 0 <= y < d.chunks.len() && d.chunks[y] == c.chunks[x];
                assert(d.chunks[y].vector.len() == dim);
            }
        }
        lemma_by_recency(each, document_date(), each.len());
        let after = once.sessions[i];
        assert forall|j: int| 0 <= j < after.documents.len() implies (
        #[trigger] after.documents[j]).fits(dim) by {
            let y = choose|y: int| 0 <= y < each.len() && each[y] == after.documents[j];
            assert(each[y].fits(dim));
        }
    }
}

/// Why an index cannot be written as a file.
#[derive(Debug, Clone, Copy, PartialEq, Eq, Structural)]
pub enum SaveError {
    /// The dimensionality, the beam width or the number of nodes does not
    /// fit the four bytes that the file has for it.
    TooLarge,
}

/// A count as the file holds it: capped at the greatest `u32`.
pub open spec fn capped32(n: nat) -> u32 {
    if n > u32::MAX {
        u32::MAX
    } else {
        n as u32
    }
}

/// The node of a chunk of the document `parent`.
pub open spec fn chunk_node(c: ChunkModel, parent: Id) -> NodeModel {
    NodeModel {
        level: 2,
        id: c.id,
        parent,
        timestamp_ms: c.id.millis,
        count: 1,
        vector: c.vector,
    }
}

/// The node of a document of the session `parent`.
pub open spec fn document_node(d: DocumentModel, parent: Id) -> NodeModel {
    NodeModel {
        level: 1,
        id: d.id,
        parent,
        timestamp_ms: d.timestamp_ms,
        count: capped32(d.chunks.len()),
        vector: d.centroid,
    }
}

/// The node of a session.
pub open spec fn session_node(s: SessionModel) -> NodeModel {
    NodeModel {
        level: 0,
        id: s.id,
        parent: Id { millis: 0, entropy: 0 },
        timestamp_ms: s.timestamp_ms,
        count: capped32(s.count()),
        vector: s.centroid,
    }
}

/// The nodes of the first `n` chunks of `d`.
pub open spec fn chunk_nodes(d: DocumentModel, n: nat) -> Seq<NodeModel>
    decreases n,
{
    if n == 0 {
        Seq::empty()
    } else {
        chunk_nodes(d, (n - 1) as nat).push(chunk_node(d.chunks[n - 1], d.id))
    }
}

/// The nodes of the first `n` documents of `s`, each document before its
/// chunks.
pub open spec fn document_nodes(s: SessionModel, n: nat) -> Seq<NodeModel>
    decreases n,
{
    if n == 0 {
        Seq::empty()
    } else {
        let d = s.documents[n - 1];
        document_nodes(s, (n - 1) as nat).push(document_node(d, s.id)) + chunk_nodes(
            d,
            d.chunks.len(),
        )
    }
}

/// The nodes of the first `n` of `sessions` in pre-order.
pub open spec fn session_nodes(sessions: Seq<SessionModel>, n: nat) -> Seq<NodeModel>
    decreases n,
{
    if n == 0 {
        Seq::empty()
    } else {
        let s = sessions[n - 1];
        session_nodes(sessions, (n - 1) as nat).push(session_node(s)) + document_nodes(
            s,
            s.documents.len(),
        )
    }
}

/// The tree `acc` with the node `node` of `dim` dimensions at its end: a
/// session stands alone, a document below the last session, a chunk below
/// the last document; or why the node does not fit there.
pub open spec fn grown(acc: Seq<SessionModel>, node: NodeModel, dim: nat) -> Result<
    Seq<SessionModel>,
    LoadError,
> {
    if node.vector.len() != dim {
        Err(LoadError::DimensionMismatch { expected: dim as usize, got: node.vector.len() as usize })
    } else if node.level == 0 {
        if node.parent != (Id { millis: 0, entropy: 0 }) {
            Err(LoadError::Orphan(node.id))
        } else {
            Ok(
                acc.push(
                    SessionModel {
                        id: node.id,
                        timestamp_ms: node.timestamp_ms,
                        centroid: node.vector,
                        dirty: false,
                        documents: Seq::empty(),
                    },
                ),
            )
        }
    } else if node.level == 1 {
        if acc.len() == 0 || acc.last().id != node.parent {
            Err(LoadError::Orphan(node.id))
        } else {
            let s = acc.last();
            Ok(
                acc.update(
                    acc.len() - 1,
                    SessionModel {
                        documents: s.documents.push(
                            DocumentModel {
                                id: node.id,
                                timestamp_ms: node.timestamp_ms,
                                centroid: node.vector,
                                dirty: false,
                                chunks: Seq::empty(),
                            },
                        ),
                        ..s
                    },
                ),
            )
        }
    } else if node.level == 2 {
        if acc.len() == 0 || acc.last().documents.len() == 0 || acc.last().documents.last().id
            != node.parent {
            Err(LoadError::Orphan(node.id))
        } else {
            let s = acc.last();
            let d = s.documents.last();
            Ok(
                acc.update(
                    acc.len() - 1,
                    SessionModel {
                        documents: s.documents.update(
                            s.documents.len() - 1,
                            DocumentModel {
                                chunks: d.chunks.push(
                                    ChunkModel { id: node.id, vector: node.vector },
                                ),
                                ..d
                            },
                        ),
                        ..s
                    },
                ),
            )
        }
    } else {
        Err(LoadError::BadLevel(node.level))
    }
}

/// The tree that the first `n` of `nodes` make, or why they make none.
pub open spec fn assembled(nodes: Seq<NodeModel>, n: nat, dim: nat) -> Result<
    Seq<SessionModel>,
    LoadError,
>
    decreases n,
{
    if n == 0 {
        Ok(Seq::empty())
    } else {
        match assembled(nodes, (n - 1) as nat, dim) {
            Err(e) => Err(e),
            Ok(acc) => grown(acc, nodes[n - 1], dim),
        }
    }
}

impl Document {
    /// Appends the nodes of the chunks.
    fn write_nodes(&self, nodes: &mut Vec<Node>)
        ensures
            node_models(final(nodes)@) == node_models(old(nodes)@) + chunk_nodes(
                self@,
                self@.chunks.len(),
            ),
    {
        let ghost front = node_models(nodes@);
        let mut i: usize = 0;
        assert(node_models(nodes@) =~= front + chunk_nodes(self@, 0));
        while i < self.chunks.len()
            invariant
                i <= self.chunks@.len(),
                node_models(nodes@) == front + chunk_nodes(self@, i as nat),
            decreases self.chunks.len() - i,
        {
            let c = &self.chunks[i];
            let ghost before = node_models(nodes@);
            nodes.push(
                Node {
                    level: 2,
                    id: c.id,
                    parent: self.id,
                    timestamp_ms: c.id.millis,
                    count: 1,
                    vector: c.vector.dims().clone(),
                },
            );
            assert(node_models(nodes@) =~= before.push(chunk_node(self@.chunks[i as int], self@.id)));
            assert(node_models(nodes@) =~= front + chunk_nodes(self@, (i + 1) as nat));
            i = i + 1;
        }
    }
}

/// Nodes that make no tree make none with more nodes after them, and for
/// the same reason.
pub proof fn lemma_assembled_fails(nodes: Seq<NodeModel>, n: nat, m: nat, dim: nat)
    requires
        n <= m,
        assembled(nodes, n, dim).is_err(),
    ensures
        assembled(nodes, m, dim) == assembled(nodes, n, dim),
    decreases m - n,
{
    if n < m {
        lemma_assembled_fails(nodes, n, (m - 1) as nat, dim);
    }
}

/// A count as the file holds it.
fn count32(n: usize) -> (r: u32)
    ensures
        r == capped32(n as nat),
{
    if n > u32::MAX as usize {
        u32::MAX
    } else {
        n as u32
    }
}

impl Session {
    /// Appends the nodes of the documents, each before its chunks.
    fn write_nodes(&self, nodes: &mut Vec<Node>)
        ensures
            node_models(final(nodes)@) == node_models(old(nodes)@) + document_nodes(
                self@,
                self@.documents.len(),
            ),
    {
        let ghost front = node_models(nodes@);
        let mut i: usize = 0;
        assert(node_models(nodes@) =~= front + document_nodes(self@, 0));
        while i < self.documents.len()
            invariant
                i <= self.documents@.len(),
                node_models(nodes@) == front + document_nodes(self@, i as nat),
            decreases self.documents.len() - i,
        {
            let d = &self.documents[i];
            let ghost before = node_models(nodes@);
            nodes.push(
                Node {
                    level: 1,
                    id: d.id,
                    parent: self.id,
                    timestamp_ms: d.timestamp_ms,
                    count: count32(d.chunks.len()),
                    vector: d.centroid.dims().clone(),
                },
            );
            assert(node_models(nodes@) =~= before.push(
                document_node(self@.documents[i as int], self@.id),
            ));
            d.write_nodes(nodes);
            assert(node_models(nodes@) =~= front + document_nodes(self@, (i + 1) as nat));
            i = i + 1;
        }
    }
}

impl HatIndex {
    /// The nodes of the tree in pre-order.
    pub open spec fn nodes(&self) -> Seq<NodeModel> {
        session_nodes(self@.sessions, self@.sessions.len())
    }

    /// The settings as a file carries them, where they fit its fields.
    pub open spec fn header(&self, normalize_on_insert: bool) -> Option<Header> {
        if self.dim() > u32::MAX || self.settings().beam_width > u32::MAX {
            None
        } else {
            Some(
                Header {
                    dim: self.dim() as u32,
                    metric: self.metric(),
                    normalize_on_insert,
                    beam_width: self.settings().beam_width as u32,
                    temporal_weight: self.settings().temporal_weight,
                    propagation_threshold: self.settings().propagation_threshold,
                },
            )
        }
    }

    /// The index as a snapshot: its settings, its nodes in pre-order, and
    /// the payloads that are given along. What is marked and what is
    /// current is not part of a snapshot.
    pub fn snapshot(&self, normalize_on_insert: bool, payloads: Vec<(Id, Vec<u8>)>) -> (r: Result<
        Snapshot,
        SaveError,
    >)
        ensures
            match r {
                Ok(snapshot) => self.header(normalize_on_insert) == Some(snapshot.header)
                    && snapshot@.nodes == self.nodes() && snapshot.payloads == payloads
                    && self.nodes().len() <= u32::MAX,
                Err(SaveError::TooLarge) => self.header(normalize_on_insert).is_none()
                    || self.nodes().len() > u32::MAX,
            },
    {
        if self.dimensionality > u32::MAX as usize || self.config.beam_width > u32::MAX as usize {
            return Err(SaveError::TooLarge);
        }
        let header = Header {
            dim: self.dimensionality as u32,
            metric: self.metric,
            normalize_on_insert,
            beam_width: self.config.beam_width as u32,
            temporal_weight: self.config.temporal_weight,
            propagation_threshold: self.config.propagation_threshold,
        };
        let mut nodes: Vec<Node> = Vec::new();
        let mut i: usize = 0;
        assert(node_models(nodes@) =~= session_nodes(self@.sessions, 0));
        while i < self.sessions.len()
            invariant
                i <= self.sessions@.len(),
                node_models(nodes@) == session_nodes(self@.sessions, i as nat),
            decreases self.sessions.len() - i,
        {
            let s = &self.sessions[i];
            let ghost before = node_models(nodes@);
            nodes.push(
                Node {
                    level: 0,
                    id: s.id,
                    parent: Id::nil(),
                    timestamp_ms: s.timestamp_ms,
                    count: count32(s.count()),
                    vector: s.centroid.dims().clone(),
                },
            );
            proof {
                let n = self@.sessions[i as int].count();
                assert(capped32(capped_count(n) as nat) == capped32(n));
                assert(node_models(nodes@) =~= before.push(session_node(self@.sessions[i as int])));
            }
            s.write_nodes(&mut nodes);
            i = i + 1;
        }
        if nodes.len() > u32::MAX as usize {
            return Err(SaveError::TooLarge);
        }
        Ok(Snapshot { header, nodes, payloads })
    }

    /// The index that a snapshot holds: nothing is marked and nothing is
    /// current in it. Merging and splitting are set as usual.
    pub fn restore(snapshot: &Snapshot) -> (r: Result<HatIndex, LoadError>)
        ensures
            match r {
                Ok(index) => {
                    &&& index.wf()
                    &&& index.header(snapshot.header.normalize_on_insert) == Some(snapshot.header)
                    &&& index.settings().merge_cap == HatConfig::usual().merge_cap
                    &&& index.settings().split_cap == HatConfig::usual().split_cap
                    &&& assembled(
                        snapshot@.nodes,
                        snapshot@.nodes.len(),
                        snapshot.header.dim as nat,
                    ) == Ok::<_, LoadError>(index@.sessions)
                    &&& index@.current_session.is_none()
                    &&& index@.current_document.is_none()
                },
                Err(e) => assembled(
                    snapshot@.nodes,
                    snapshot@.nodes.len(),
                    snapshot.header.dim as nat,
                ) == Err::<Seq<SessionModel>, _>(e),
            },
    {
        let dim = snapshot.header.dim as usize;
        let ghost nodes = snapshot@.nodes;
        let mut sessions: Vec<Session> = Vec::new();
        let mut i: usize = 0;
        assert(session_models(sessions@) =~= Seq::empty());
        while i < snapshot.nodes.len()
            invariant
                i <= snapshot.nodes@.len(),
                nodes == snapshot@.nodes,
                dim == snapshot.header.dim,
                assembled(nodes, i as nat, dim as nat) == Ok::<_, LoadError>(
                    session_models(sessions@),
                ),
                forall|j: int|
                    0 <= j < sessions@.len() ==> (#[trigger] session_models(sessions@)[j]).fits(
                        dim as nat,
                    ),
            decreases snapshot.nodes.len() - i,
        {
            let node = &snapshot.nodes[i];
            assert(node@ == nodes[i as int]);
            let ghost acc = session_models(sessions@);
            if node.vector.len() != dim {
                proof {
                    lemma_assembled_fails(nodes, (i + 1) as nat, nodes.len(), dim as nat);
                }
                return Err(
                    LoadError::DimensionMismatch { expected: dim, got: node.vector.len() },
                );
            }
            let vector = Point::new(node.vector.clone());
            let n = sessions.len();
            if node.level == 0 {
                if node.parent != Id::nil() {
                    proof {
                        lemma_assembled_fails(nodes, (i + 1) as nat, nodes.len(), dim as nat);
                    }
                    return Err(LoadError::Orphan(node.id));
                }
                sessions.push(
                    Session {
                        id: node.id,
                        timestamp_ms: node.timestamp_ms,
                        centroid: vector,
                        dirty: false,
                        documents: Vec::new(),
                    },
                );
                proof {
                    let now = session_models(sessions@);
                    assert(now[n as int].documents =~= Seq::empty());
                    let want = grown(acc, node@, dim as nat);
                    assert(now =~= want->Ok_0);
                }
            } else if node.level == 1 {
                if n == 0 || sessions[n - 1].id != node.parent {
                    proof {
                        lemma_assembled_fails(nodes, (i + 1) as nat, nodes.len(), dim as nat);
                    }
                    return Err(LoadError::Orphan(node.id));
                }
                sessions[n - 1].documents.push(
                    Document {
                        id: node.id,
                        timestamp_ms: node.timestamp_ms,
                        centroid: vector,
                        dirty: false,
                        chunks: Vec::new(),
                    },
                );
                proof {
                    let now = session_models(sessions@);
                    let want = grown(acc, node@, dim as nat)->Ok_0;
                    let d = now[n - 1].documents.len() - 1;
                    assert(now[n - 1].documents[d].chunks =~= Seq::empty());
                    assert(now[n - 1].documents =~= want[n - 1].documents);
                    assert(now =~= want);
                    assert forall|j: int| 0 <= j < now.len() implies (#[trigger] now[j]).fits(
                        dim as nat,
                    ) by {
                        if j == n - 1 {
                            assert(acc[j].fits(dim as nat));
                            assert forall|x: int| 0 <= x < now[j].documents.len() implies (
                            #[trigger] now[j].documents[x]).fits(dim as nat) by {
                                if x < d {
                                    assert(now[j].documents[x] == acc[j].documents[x]);
                                }
                            }
                        } else {
                            assert(now[j] == acc[j]);
                        }
                    }
                }
            } else if node.level == 2 {
                if n == 0 || sessions[n - 1].documents.len() == 0 {
                    proof {
                        lemma_assembled_fails(nodes, (i + 1) as nat, nodes.len(), dim as nat);
                    }
                    return Err(LoadError::Orphan(node.id));
                }
                let d = sessions[n - 1].documents.len() - 1;
                if sessions[n - 1].documents[d].id != node.parent {
                    proof {
                        lemma_assembled_fails(nodes, (i + 1) as nat, nodes.len(), dim as nat);
                    }
                    return Err(LoadError::Orphan(node.id));
                }
                sessions[n - 1].documents[d].chunks.push(Chunk { id: node.id, vector });
                proof {
                    let now = session_models(sessions@);
                    let want = grown(acc, node@, dim as nat)->Ok_0;
                    assert(now[n - 1].documents[d as int].chunks =~= want[n - 1].documents[d as int].chunks);
                    assert(now[n - 1].documents =~= want[n - 1].documents);
                    assert(now =~= want);
                    assert forall|j: int| 0 <= j < now.len() implies (#[trigger] now[j]).fits(
                        dim as nat,
                    ) by {
                        if j == n - 1 {
                            assert(acc[j].fits(dim as nat));
                            assert forall|x: int| 0 <= x < now[j].documents.len() implies (
                            #[trigger] now[j].documents[x]).fits(dim as nat) by {
                                assert(acc[j].documents[x].fits(dim as nat));
                                if x == d {
                                    let dm = now[j].documents[x];
                                    assert forall|c: int| 0 <= c < dm.chunks.len() implies (
                                    #[trigger] dm.chunks[c]).vector.len() == dim by {
                                        if c < dm.chunks.len() - 1 {
                                            assert(dm.chunks[c] == acc[j].documents[x].chunks[c]);
                                        }
                                    }
                                } else {
                                    assert(now[j].documents[x] == acc[j].documents[x]);
                                }
                            }
                        } else {
                            assert(now[j] == acc[j]);
                        }
                    }
                }
            } else {
                proof {
                    lemma_assembled_fails(nodes, (i + 1) as nat, nodes.len(), dim as nat);
                }
                return Err(LoadError::BadLevel(node.level));
            }
            i = i + 1;
        }
        let usual = HatConfig::new();
        Ok(
            HatIndex {
                dimensionality: dim,
                metric: snapshot.header.metric,
                config: HatConfig {
                    beam_width: snapshot.header.beam_width as usize,
                    temporal_weight: snapshot.header.temporal_weight,
                    propagation_threshold: snapshot.header.propagation_threshold,
                    merge_cap: usual.merge_cap,
                    split_cap: usual.split_cap,
                },
                sessions,
                current_session: None,
                current_document: None,
            },
        )
    }

    /// The index as a file without payloads.
    pub fn to_bytes(&self) -> (r: Result<Vec<u8>, SaveError>)
        ensures
            match r {
                Ok(bytes) => self.header(false).is_some() && self.nodes().len() <= u32::MAX
                    && bytes@ == (SnapshotModel {
                    header: self.header(false).unwrap(),
                    nodes: self.nodes(),
                    payloads: Seq::empty(),
                }).encode(),
                Err(SaveError::TooLarge) => self.header(false).is_none() || self.nodes().len()
                    > u32::MAX,
            },
    {
        match self.snapshot(false, Vec::new()) {
            Err(e) => Err(e),
            Ok(snapshot) => {
                assert(snapshot@.payloads =~= Seq::empty());
                Ok(snapshot.to_bytes())
            },
        }
    }

    /// Reads an index from a file; the payloads of the file are left aside.
    pub fn from_bytes(data: &[u8]) -> (r: Result<HatIndex, LoadError>)
        ensures
            match r {
                Ok(index) => index.wf() && match SnapshotModel::parse(data@) {
                    Ok(snapshot) => assembled(
                        snapshot.nodes,
                        snapshot.nodes.len(),
                        snapshot.header.dim as nat,
                    ) == Ok::<_, LoadError>(index@.sessions) && index.header(
                        snapshot.header.normalize_on_insert,
                    ) == Some(snapshot.header) && index@.current_session.is_none()
                        && index@.current_document.is_none(),
                    Err(_) => false,
                },
                Err(e) => match SnapshotModel::parse(data@) {
                    Ok(snapshot) => assembled(
                        snapshot.nodes,
                        snapshot.nodes.len(),
                        snapshot.header.dim as nat,
                    ) == Err::<Seq<SessionModel>, _>(e),
                    Err(first) => e == first,
                },
            },
    {
        match Snapshot::from_bytes(data) {
            Err(e) => Err(e),
            Ok(snapshot) => HatIndex::restore(&snapshot),
        }
    }
}

/// Documents whose centroids are at least this close are merged: the word
/// of 0.98.
pub const CLOSE: u32 = 0x3f7a_e148;

impl DocumentModel {
    /// Whether `other` is merged into this document: the cosine of their
    /// centroids reaches [`CLOSE`], and together they hold at most `cap`
    /// chunks.
    pub open spec fn close_to<A: Arith>(self, ar: &A, other: DocumentModel, cap: nat) -> bool {
        at_least(cosine_spec(ar, self.centroid, other.centroid), CLOSE) && self.chunks.len()
            + other.chunks.len() <= cap
    }

    /// This document with the chunks of `other` after its own, and the mean
    /// of them all as its centroid.
    pub open spec fn united<A: Arith>(self, ar: &A, other: DocumentModel) -> DocumentModel {
        let all = DocumentModel { chunks: self.chunks + other.chunks, ..self };
        DocumentModel {
            centroid: mean_spec(ar, all.vectors(), self.centroid.len()),
            dirty: false,
            ..all
        }
    }
}

/// `documents` after the one at place `i` has taken in, one after the
/// other, every document from place `j` on that is close to it.
pub open spec fn absorbed<A: Arith>(
    ar: &A,
    documents: Seq<DocumentModel>,
    i: int,
    j: int,
    cap: nat,
) -> Seq<DocumentModel>
    decreases documents.len() - j,
{
    if i < 0 || j <= i || j >= documents.len() {
        documents
    } else if documents[i].close_to(ar, documents[j], cap) {
        absorbed(
            ar,
            documents.update(i, documents[i].united(ar, documents[j])).remove(j),
            i,
            j,
            cap,
        )
    } else {
        absorbed(ar, documents, i, j + 1, cap)
    }
}

/// `documents` after each of them from place `i` on, in at most `steps`
/// turns, has taken in the later ones that are close to it.
pub open spec fn merged<A: Arith>(
    ar: &A,
    documents: Seq<DocumentModel>,
    i: int,
    steps: nat,
    cap: nat,
) -> Seq<DocumentModel>
    decreases steps,
{
    if steps == 0 || i < 0 || i >= documents.len() {
        documents
    } else {
        merged(ar, absorbed(ar, documents, i, i + 1, cap), i + 1, (steps - 1) as nat, cap)
    }
}

/// Whether each of `documents` has `dim` dimensions.
pub open spec fn all_fit(documents: Seq<DocumentModel>, dim: nat) -> bool {
    forall|i: int| 0 <= i < documents.len() ==> (#[trigger] documents[i]).fits(dim)
}

/// Taking in keeps the dimensionality of every vector.
pub proof fn lemma_absorbed_fits<A: Arith>(
    ar: &A,
    documents: Seq<DocumentModel>,
    i: int,
    j: int,
    cap: nat,
    dim: nat,
)
    requires
        all_fit(documents, dim),
    ensures
        all_fit(absorbed(ar, documents, i, j, cap), dim),
        absorbed(ar, documents, i, j, cap).len() <= documents.len(),
    decreases documents.len() - j,
{
    if i < 0 || j <= i || j >= documents.len() {
    } else if documents[i].close_to(ar, documents[j], cap) {
        let u = documents[i].united(ar, documents[j]);
        let next = documents.update(i, u).remove(j);
        assert(documents[i].fits(dim) && documents[j].fits(dim));
        assert forall|x: int| 0 <= x < u.chunks.len() implies (#[trigger] u.chunks[x]).vector.len()
            == dim by {
            if x < documents[i].chunks.len() {
                assert(u.chunks[x] == documents[i].chunks[x]);
            } else {
                assert(u.chunks[x] == documents[j].chunks[x - documents[i].chunks.len()]);
            }
        }
        assert(u.fits(dim));
        assert forall|x: int| 0 <= x < next.len() implies (#[trigger] next[x]).fits(dim) by {
            if x == i {
            } else if x < j {
                assert(next[x] == documents[x]);
            } else {
                assert(next[x] == documents[x + 1]);
            }
        }
        lemma_absorbed_fits(ar, next, i, j, cap, dim);
    } else {
        lemma_absorbed_fits(ar, documents, i, j + 1, cap, dim);
    }
}

/// Merging keeps the dimensionality of every vector.
pub proof fn lemma_merged_fits<A: Arith>(
    ar: &A,
    documents: Seq<DocumentModel>,
    i: int,
    steps: nat,
    cap: nat,
    dim: nat,
)
    requires
        all_fit(documents, dim),
    ensures
        all_fit(merged(ar, documents, i, steps, cap), dim),
    decreases steps,
{
    if steps == 0 || i < 0 || i >= documents.len() {
    } else {
        lemma_absorbed_fits(ar, documents, i, i + 1, cap, dim);
        lemma_merged_fits(
            ar,
            absorbed(ar, documents, i, i + 1, cap),
            i + 1,
            (steps - 1) as nat,
            cap,
            dim,
        );
    }
}

impl Document {
    /// Takes in the chunks of `other` and computes the centroid afresh.
    fn unite<A: Arith>(&mut self, ar: &A, other: Document)
        ensures
            final(self)@ == old(self)@.united(ar, other@),
    {
        let ghost before = self@;
        let ghost theirs = other@.chunks;
        let mut rest = other.chunks;
        assert(chunk_models(rest@) =~= theirs);
        self.chunks.append(&mut rest);
        assert(self@.chunks =~= before.chunks + theirs);
        let vectors = self.vectors();
        let dim = self.centroid.dimensionality();
        self.centroid = mean(ar, vectors.as_slice(), dim);
        self.dirty = false;
    }
}

impl Session {
    /// Merges the documents that lie close together.
    fn merge_close<A: Arith>(&mut self, ar: &A, cap: usize)
        requires
            all_fit(old(self)@.documents, old(self)@.centroid.len()),
        ensures
            final(self)@ == (SessionModel {
                documents: merged(
                    ar,
                    old(self)@.documents,
                    0,
                    old(self)@.documents.len(),
                    cap as nat,
                ),
                ..old(self)@
            }),
    {
        let ghost before = self@;
        let ghost dim = before.centroid.len();
        let ghost goal = merged(ar, before.documents, 0, before.documents.len(), cap as nat);
        let mut steps: usize = self.documents.len();
        let mut i: usize = 0;
        while steps > 0 && i < self.documents.len()
            invariant
                all_fit(self@.documents, dim),
                merged(ar, self@.documents, i as int, steps as nat, cap as nat) == goal,
                self@.id == before.id,
                self@.timestamp_ms == before.timestamp_ms,
                self@.centroid == before.centroid,
                self@.dirty == before.dirty,
            decreases steps,
        {
            let ghost start = self@.documents;
            let mut j: usize = i + 1;
            while j < self.documents.len()
                invariant
                    i < j,
                    all_fit(self@.documents, dim),
                    absorbed(ar, self@.documents, i as int, j as int, cap as nat) == absorbed(
                        ar,
                        start,
                        i as int,
                        i + 1,
                        cap as nat,
                    ),
                    self@.id == before.id,
                    self@.timestamp_ms == before.timestamp_ms,
                    self@.centroid == before.centroid,
                    self@.dirty == before.dirty,
                decreases self.documents@.len() - j,
            {
                let ghost docs = self@.documents;
                assert(docs[i as int].fits(dim) && docs[j as int].fits(dim));
                let cosine = match proximity(
                    ar,
                    Metric::Cosine,
                    &self.documents[i].centroid,
                    &self.documents[j].centroid,
                ) {
                    Ok(c) => c,
                    Err(_) => ZERO,
                };
                let a = self.documents[i].chunks.len();
                let b = self.documents[j].chunks.len();
                if reaches(cosine, CLOSE) && a <= cap && b <= cap - a {
                    let other = self.documents.remove(j);
                    assert(other@ == docs[j as int]);
                    assert(self@.documents =~= docs.remove(j as int));
                    self.documents[i].unite(ar, other);
                    proof {
                        let next = docs.update(i as int, docs[i as int].united(ar, docs[j as int])).remove(
                            j as int,
                        );
                        assert(self@.documents =~= next);
                        lemma_absorbed_fits(ar, docs, i as int, j as int, cap as nat, dim);
                        assert(absorbed(ar, docs, i as int, j as int, cap as nat) == absorbed(
                            ar,
                            next,
                            i as int,
                            j as int,
                            cap as nat,
                        ));
                        lemma_step_fits(ar, docs, i as int, j as int, dim);
                    }
                } else {
                    j = j + 1;
                }
            }
            i = i + 1;
            steps = steps - 1;
        }
    }
}

/// One document taking in another keeps the dimensionality of every vector.
proof fn lemma_step_fits<A: Arith>(ar: &A, documents: Seq<DocumentModel>, i: int, j: int, dim: nat)
    requires
        all_fit(documents, dim),
        0 <= i < j < documents.len(),
    ensures
        all_fit(documents.update(i, documents[i].united(ar, documents[j])).remove(j), dim),
{
    let u = documents[i].united(ar, documents[j]);
    let next = documents.update(i, u).remove(j);
    assert(documents[i].fits(dim) && documents[j].fits(dim));
    assert forall|x: int| 0 <= x < u.chunks.len() implies (#[trigger] u.chunks[x]).vector.len()
        == dim by {
        if x < documents[i].chunks.len() {
            assert(u.chunks[x] == documents[i].chunks[x]);
        } else {
            assert(u.chunks[x] == documents[j].chunks[x - documents[i].chunks.len()]);
        }
    }
    assert forall|x: int| 0 <= x < next.len() implies (#[trigger] next[x]).fits(dim) by {
        if x == i {
        } else if x < j {
            assert(next[x] == documents[x]);
        } else {
            assert(next[x] == documents[x + 1]);
        }
    }
}

/// How often the two centres are moved when a document is split.
pub const ROUNDS: usize = 8;

/// The place among the first `n` of `vs` of the vector that is least close
/// to the first, the first of them where there are several.
pub open spec fn farthest<A: Arith>(ar: &A, metric: Metric, vs: Seq<Seq<u32>>, n: nat) -> int
    decreases n,
{
    if n <= 1 {
        0
    } else {
        let b = farthest(ar, metric, vs, (n - 1) as nat);
        if less(proximity_spec(ar, metric, vs[n - 1], vs[0]), proximity_spec(ar, metric, vs[b], vs[0])) {
            n - 1
        } else {
            b
        }
    }
}

/// Whether `v` goes with the second centre: it is closer to `cb` than to
/// `ca`.
pub open spec fn goes_second<A: Arith>(
    ar: &A,
    metric: Metric,
    v: Seq<u32>,
    ca: Seq<u32>,
    cb: Seq<u32>,
) -> bool {
    less(proximity_spec(ar, metric, v, ca), proximity_spec(ar, metric, v, cb))
}

/// Those of the first `n` of `vs` that go with the second centre, or, where
/// `second` is false, those that go with the first.
pub open spec fn side<A: Arith>(
    ar: &A,
    metric: Metric,
    vs: Seq<Seq<u32>>,
    ca: Seq<u32>,
    cb: Seq<u32>,
    second: bool,
    n: nat,
) -> Seq<Seq<u32>>
    decreases n,
{
    if n == 0 {
        Seq::empty()
    } else {
        let front = side(ar, metric, vs, ca, cb, second, (n - 1) as nat);
        if goes_second(ar, metric, vs[n - 1], ca, cb) == second {
            front.push(vs[n - 1])
        } else {
            front
        }
    }
}

/// The two centres after `rounds` rounds: in each round every vector goes
/// with the centre that it is closer to, and each centre moves to the mean
/// of the vectors that went with it; a centre with which none went stays.
pub open spec fn centres<A: Arith>(
    ar: &A,
    metric: Metric,
    vs: Seq<Seq<u32>>,
    ca: Seq<u32>,
    cb: Seq<u32>,
    rounds: nat,
) -> (Seq<u32>, Seq<u32>)
    decreases rounds,
{
    if rounds == 0 {
        (ca, cb)
    } else {
        let first = side(ar, metric, vs, ca, cb, false, vs.len());
        let second = side(ar, metric, vs, ca, cb, true, vs.len());
        centres(
            ar,
            metric,
            vs,
            if first.len() == 0 {
                ca
            } else {
                mean_spec(ar, first, ca.len())
            },
            if second.len() == 0 {
                cb
            } else {
                mean_spec(ar, second, cb.len())
            },
            (rounds - 1) as nat,
        )
    }
}

/// Those of the first `n` of `chunks` that go with the second centre, or,
/// where `second` is false, those that go with the first.
pub open spec fn chunk_side<A: Arith>(
    ar: &A,
    metric: Metric,
    chunks: Seq<ChunkModel>,
    ca: Seq<u32>,
    cb: Seq<u32>,
    second: bool,
    n: nat,
) -> Seq<ChunkModel>
    decreases n,
{
    if n == 0 {
        Seq::empty()
    } else {
        let front = chunk_side(ar, metric, chunks, ca, cb, second, (n - 1) as nat);
        if goes_second(ar, metric, chunks[n - 1].vector, ca, cb) == second {
            front.push(chunks[n - 1])
        } else {
            front
        }
    }
}

/// The identifier after `id`: the same time and the next entropy.
pub open spec fn next_id(id: Id) -> Id {
    Id {
        millis: id.millis,
        entropy: if id.entropy == u64::MAX {
            0
        } else {
            (id.entropy + 1) as u64
        },
    }
}

impl DocumentModel {
    /// The two documents that this one is split into, where it splits: the
    /// centres start at the first vector and at the one least close to it
    /// and are moved [`ROUNDS`] times; the chunks that go with the first
    /// centre stay, those that go with the second make a document under the
    /// next identifier. A document of which all chunks go one way does not
    /// split.
    pub open spec fn halves<A: Arith>(self, ar: &A, metric: Metric) -> Option<
        (DocumentModel, DocumentModel),
    > {
        let vs = self.vectors();
        if vs.len() == 0 {
            None
        } else {
            let (ca, cb) = centres(
                ar,
                metric,
                vs,
                vs[0],
                vs[farthest(ar, metric, vs, vs.len())],
                ROUNDS as nat,
            );
            let first = chunk_side(ar, metric, self.chunks, ca, cb, false, self.chunks.len());
            let second = chunk_side(ar, metric, self.chunks, ca, cb, true, self.chunks.len());
            if first.len() == 0 || second.len() == 0 {
                None
            } else {
                let a = DocumentModel { chunks: first, ..self };
                let b = DocumentModel { chunks: second, id: next_id(self.id), ..self };
                Some(
                    (
                        DocumentModel {
                            centroid: mean_spec(ar, a.vectors(), self.centroid.len()),
                            dirty: false,
                            ..a
                        },
                        DocumentModel {
                            centroid: mean_spec(ar, b.vectors(), self.centroid.len()),
                            dirty: false,
                            ..b
                        },
                    ),
                )
            }
        }
    }
}

/// `documents` after each of them from place `i` on that holds more than
/// `cap` chunks, and splits, has been replaced by its two halves.
pub open spec fn split_from<A: Arith>(
    ar: &A,
    metric: Metric,
    documents: Seq<DocumentModel>,
    i: int,
    cap: nat,
) -> Seq<DocumentModel>
    decreases documents.len() - i,
{
    if i < 0 || i >= documents.len() {
        documents
    } else if documents[i].chunks.len() > cap {
        match documents[i].halves(ar, metric) {
            Some((a, b)) => split_from(
                ar,
                metric,
                documents.update(i, a).insert(i + 1, b),
                i + 2,
                cap,
            ),
            None => split_from(ar, metric, documents, i + 1, cap),
        }
    } else {
        split_from(ar, metric, documents, i + 1, cap)
    }
}

/// Whether each of `vs` has `dim` components.
pub open spec fn all_long(vs: Seq<Seq<u32>>, dim: nat) -> bool {
    forall|i: int| 0 <= i < vs.len() ==> (#[trigger] vs[i]).len() == dim
}

/// A side holds vectors of the dimensionality of those it was taken from.
pub proof fn lemma_side_long<A: Arith>(
    ar: &A,
    metric: Metric,
    vs: Seq<Seq<u32>>,
    ca: Seq<u32>,
    cb: Seq<u32>,
    second: bool,
    n: nat,
    dim: nat,
)
    requires
        n <= vs.len(),
        all_long(vs, dim),
    ensures
        all_long(side(ar, metric, vs, ca, cb, second, n), dim),
    decreases n,
{
    if n > 0 {
        lemma_side_long(ar, metric, vs, ca, cb, second, (n - 1) as nat, dim);
    }
}

/// A side holds chunks of the dimensionality of those it was taken from,
/// and no more than there were.
pub proof fn lemma_chunk_side<A: Arith>(
    ar: &A,
    metric: Metric,
    chunks: Seq<ChunkModel>,
    ca: Seq<u32>,
    cb: Seq<u32>,
    second: bool,
    n: nat,
    dim: nat,
)
    requires
        n <= chunks.len(),
        forall|i: int| 0 <= i < chunks.len() ==> (#[trigger] chunks[i]).vector.len() == dim,
    ensures
        chunk_side(ar, metric, chunks, ca, cb, second, n).len() <= n,
        forall|i: int|
            0 <= i < chunk_side(ar, metric, chunks, ca, cb, second, n).len() ==> (
            #[trigger] chunk_side(ar, metric, chunks, ca, cb, second, n)[i]).vector.len() == dim,
    decreases n,
{
    if n > 0 {
        lemma_chunk_side(ar, metric, chunks, ca, cb, second, (n - 1) as nat, dim);
    }
}

/// The centres keep their dimensionality.
pub proof fn lemma_centres_long<A: Arith>(
    ar: &A,
    metric: Metric,
    vs: Seq<Seq<u32>>,
    ca: Seq<u32>,
    cb: Seq<u32>,
    rounds: nat,
)
    ensures
        centres(ar, metric, vs, ca, cb, rounds).0.len() == ca.len(),
        centres(ar, metric, vs, ca, cb, rounds).1.len() == cb.len(),
    decreases rounds,
{
    if rounds > 0 {
        let first = side(ar, metric, vs, ca, cb, false, vs.len());
        let second = side(ar, metric, vs, ca, cb, true, vs.len());
        lemma_centres_long(
            ar,
            metric,
            vs,
            if first.len() == 0 {
                ca
            } else {
                mean_spec(ar, first, ca.len())
            },
            if second.len() == 0 {
                cb
            } else {
                mean_spec(ar, second, cb.len())
            },
            (rounds - 1) as nat,
        );
    }
}

/// The farthest vector is one of them.
pub proof fn lemma_farthest<A: Arith>(ar: &A, metric: Metric, vs: Seq<Seq<u32>>, n: nat)
    requires
        0 < n <= vs.len(),
    ensures
        0 <= farthest(ar, metric, vs, n) < n,
    decreases n,
{
    if n > 1 {
        lemma_farthest(ar, metric, vs, (n - 1) as nat);
    }
}

/// The score of `v` against a centre of its own dimensionality.
fn closeness<A: Arith>(ar: &A, metric: Metric, v: &Point, c: &Point) -> (r: u32)
    requires
        v@.len() == c@.len(),
    ensures
        r == proximity_spec(ar, metric, v@, c@),
{
    match proximity(ar, metric, v, c) {
        Ok(r) => r,
        Err(_) => ZERO,
    }
}

/// Those of `vs` that go with the second centre, or with the first.
fn take_side<A: Arith>(
    ar: &A,
    metric: Metric,
    vs: &Vec<Point>,
    ca: &Point,
    cb: &Point,
    second: bool,
) -> (out: Vec<Point>)
    requires
        all_long(views(vs@), ca@.len()),
        cb@.len() == ca@.len(),
    ensures
        views(out@) == side(ar, metric, views(vs@), ca@, cb@, second, vs@.len()),
{
    let mut out: Vec<Point> = Vec::new();
    let mut i: usize = 0;
    assert(views(out@) =~= Seq::<Seq<u32>>::empty());
    while i < vs.len()
        invariant
            i <= vs@.len(),
            all_long(views(vs@), ca@.len()),
            cb@.len() == ca@.len(),
            views(out@) == side(ar, metric, views(vs@), ca@, cb@, second, i as nat),
        decreases vs.len() - i,
    {
        assert(views(vs@)[i as int].len() == ca@.len());
        let to_second = lt(closeness(ar, metric, &vs[i], ca), closeness(ar, metric, &vs[i], cb));
        if to_second == second {
            let ghost before = views(out@);
            out.push(vs[i].clone());
            assert(views(out@) =~= before.push(vs@[i as int]@));
        }
        i = i + 1;
    }
    out
}

impl Document {
    /// Those of the chunks that go with the second centre, or with the
    /// first.
    fn take_chunks<A: Arith>(&self, ar: &A, metric: Metric, ca: &Point, cb: &Point, second: bool) -> (out:
        Vec<Chunk>)
        requires
            self@.fits(ca@.len()),
            cb@.len() == ca@.len(),
        ensures
            chunk_models(out@) == chunk_side(
                ar,
                metric,
                self@.chunks,
                ca@,
                cb@,
                second,
                self@.chunks.len(),
            ),
    {
        let mut out: Vec<Chunk> = Vec::new();
        let mut i: usize = 0;
        assert(chunk_models(out@) =~= Seq::<ChunkModel>::empty());
        while i < self.chunks.len()
            invariant
                i <= self.chunks@.len(),
                self@.fits(ca@.len()),
                cb@.len() == ca@.len(),
                chunk_models(out@) == chunk_side(ar, metric, self@.chunks, ca@, cb@, second, i as nat),
            decreases self.chunks.len() - i,
        {
            assert(self@.chunks[i as int].vector.len() == ca@.len());
            let c = &self.chunks[i];
            let to_second = lt(
                closeness(ar, metric, &c.vector, ca),
                closeness(ar, metric, &c.vector, cb),
            );
            if to_second == second {
                let ghost before = chunk_models(out@);
                out.push(Chunk { id: c.id, vector: c.vector.clone() });
                assert(chunk_models(out@) =~= before.push(self@.chunks[i as int]));
            }
            i = i + 1;
        }
        out
    }

    /// The two halves of the document, where it splits.
    fn split<A: Arith>(&self, ar: &A, metric: Metric) -> (r: Option<(Document, Document)>)
        requires
            self@.fits(self@.centroid.len()),
        ensures
            match r {
                Some((a, b)) => self@.halves(ar, metric) == Some((a@, b@)),
                None => self@.halves(ar, metric).is_none(),
            },
    {
        let vs = self.vectors();
        if vs.len() == 0 {
            return None;
        }
        let dim = self.centroid.dimensionality();
        let ghost models = views(vs@);
        assert(all_long(models, dim as nat)) by {
            assert forall|i: int| 0 <= i < models.len() implies (#[trigger] models[i]).len()
                == dim by {
                assert(models[i] == self@.chunks[i].vector);
            }
        }
        let mut far: usize = 0;
        let mut i: usize = 1;
        while i < vs.len()
            invariant
                1 <= i <= vs@.len(),
                models == views(vs@),
                all_long(models, dim as nat),
                far == farthest(ar, metric, models, i as nat),
                far < i,
            decreases vs.len() - i,
        {
            assert(models[i as int].len() == dim && models[far as int].len() == dim
                && models[0].len() == dim);
            if lt(closeness(ar, metric, &vs[i], &vs[0]), closeness(ar, metric, &vs[far], &vs[0])) {
                far = i;
            }
            i = i + 1;
        }
        assert(models[0].len() == dim && models[far as int].len() == dim);
        let mut ca = vs[0].clone();
        let mut cb = vs[far].clone();
        let ghost goal = centres(ar, metric, models, ca@, cb@, ROUNDS as nat);
        let mut left: usize = ROUNDS;
        while left > 0
            invariant
                models == views(vs@),
                all_long(models, dim as nat),
                ca@.len() == dim,
                cb@.len() == dim,
                centres(ar, metric, models, ca@, cb@, left as nat) == goal,
            decreases left,
        {
            let first = take_side(ar, metric, &vs, &ca, &cb, false);
            let second = take_side(ar, metric, &vs, &ca, &cb, true);
            if first.len() > 0 {
                ca = mean(ar, first.as_slice(), dim);
            }
            if second.len() > 0 {
                cb = mean(ar, second.as_slice(), dim);
            }
            left = left - 1;
        }
        let first = self.take_chunks(ar, metric, &ca, &cb, false);
        let second = self.take_chunks(ar, metric, &ca, &cb, true);
        if first.len() == 0 || second.len() == 0 {
            return None;
        }
        let mut a = Document {
            id: self.id,
            timestamp_ms: self.timestamp_ms,
            centroid: self.centroid.clone(),
            dirty: false,
            chunks: first,
        };
        let mut b = Document {
            id: Id::from_parts(
                self.id.millis,
                if self.id.entropy == u64::MAX {
                    0
                } else {
                    self.id.entropy + 1
                },
            ),
            timestamp_ms: self.timestamp_ms,
            centroid: self.centroid.clone(),
            dirty: false,
            chunks: second,
        };
        let va = a.vectors();
        a.centroid = mean(ar, va.as_slice(), dim);
        let vb = b.vectors();
        b.centroid = mean(ar, vb.as_slice(), dim);
        Some((a, b))
    }
}

/// Splitting keeps the dimensionality of every vector.
pub proof fn lemma_halves_fit<A: Arith>(d: DocumentModel, ar: &A, metric: Metric, dim: nat)
    requires
        d.fits(dim),
    ensures
        match d.halves(ar, metric) {
            Some((a, b)) => a.fits(dim) && b.fits(dim),
            None => true,
        },
{
    let vs = d.vectors();
    if vs.len() > 0 {
        let (ca, cb) = centres(
            ar,
            metric,
            vs,
            vs[0],
            vs[farthest(ar, metric, vs, vs.len())],
            ROUNDS as nat,
        );
        lemma_chunk_side(ar, metric, d.chunks, ca, cb, false, d.chunks.len(), dim);
        lemma_chunk_side(ar, metric, d.chunks, ca, cb, true, d.chunks.len(), dim);
    }
}

/// Splitting keeps the dimensionality of every vector.
pub proof fn lemma_split_fits<A: Arith>(
    ar: &A,
    metric: Metric,
    documents: Seq<DocumentModel>,
    i: int,
    cap: nat,
    dim: nat,
)
    requires
        all_fit(documents, dim),
    ensures
        all_fit(split_from(ar, metric, documents, i, cap), dim),
    decreases documents.len() - i,
{
    if i < 0 || i >= documents.len() {
    } else if documents[i].chunks.len() > cap {
        match documents[i].halves(ar, metric) {
            Some((a, b)) => {
                lemma_halves_fit(documents[i], ar, metric, dim);
                let next = documents.update(i, a).insert(i + 1, b);
                assert forall|x: int| 0 <= x < next.len() implies (#[trigger] next[x]).fits(dim) by {
                    if x < i {
                        assert(next[x] == documents[x]);
                    } else if x > i + 1 {
                        assert(next[x] == documents[x - 1]);
                    }
                }
                lemma_split_fits(ar, metric, next, i + 2, cap, dim);
            },
            None => {
                lemma_split_fits(ar, metric, documents, i + 1, cap, dim);
            },
        }
    } else {
        lemma_split_fits(ar, metric, documents, i + 1, cap, dim);
    }
}

impl Session {
    /// Splits the documents that have grown too large.
    fn split_large<A: Arith>(&mut self, ar: &A, metric: Metric, cap: usize)
        requires
            all_fit(old(self)@.documents, old(self)@.centroid.len()),
        ensures
            final(self)@ == (SessionModel {
                documents: split_from(ar, metric, old(self)@.documents, 0, cap as nat),
                ..old(self)@
            }),
    {
        let ghost before = self@;
        let ghost dim = before.centroid.len();
        let ghost goal = split_from(ar, metric, before.documents, 0, cap as nat);
        let mut i: usize = 0;
        while i < self.documents.len()
            invariant
                all_fit(self@.documents, dim),
                split_from(ar, metric, self@.documents, i as int, cap as nat) == goal,
                self@.id == before.id,
                self@.timestamp_ms == before.timestamp_ms,
                self@.centroid == before.centroid,
                self@.dirty == before.dirty,
            decreases self.documents@.len() - i,
        {
            let ghost docs = self@.documents;
            assert(docs[i as int].fits(dim));
            let mut step: usize = 1;
            assert(i + 1 <= self.documents.len());
            if self.documents[i].chunks.len() > cap {
                assert(docs[i as int].centroid.len() == dim);
                match self.documents[i].split(ar, metric) {
                    Some((a, b)) => {
                        proof {
                            lemma_halves_fit(docs[i as int], ar, metric, dim);
                        }
                        self.documents.set(i, a);
                        assert(self@.documents =~= docs.update(i as int, a@));
                        self.documents.insert(i + 1, b);
                        assert(i + 2 <= self.documents.len());
                        proof {
                            let next = docs.update(i as int, a@).insert(i + 1, b@);
                            assert(self@.documents =~= next);
                            assert forall|x: int| 0 <= x < next.len() implies (
                            #[trigger] next[x]).fits(dim) by {
                                if x < i {
                                    assert(next[x] == docs[x]);
                                } else if x > i + 1 {
                                    assert(next[x] == docs[x - 1]);
                                }
                            }
                        }
                        step = 2;
                    },
                    None => {},
                }
            }
            assert(i + step <= self.documents.len());
            i = i + step;
        }
    }
}

/// Those of the first `n` of `documents` that hold a chunk.
pub open spec fn with_chunks(documents: Seq<DocumentModel>, n: nat) -> Seq<DocumentModel>
    decreases n,
{
    if n == 0 {
        Seq::empty()
    } else {
        let front = with_chunks(documents, (n - 1) as nat);
        if documents[n - 1].chunks.len() == 0 {
            front
        } else {
            front.push(documents[n - 1])
        }
    }
}

/// Those of the first `n` of `sessions` that hold a document.
pub open spec fn with_documents(sessions: Seq<SessionModel>, n: nat) -> Seq<SessionModel>
    decreases n,
{
    if n == 0 {
        Seq::empty()
    } else {
        let front = with_documents(sessions, (n - 1) as nat);
        if sessions[n - 1].documents.len() == 0 {
            front
        } else {
            front.push(sessions[n - 1])
        }
    }
}

impl SessionModel {
    /// The session after a full consolidation: after a light one, documents
    /// without chunks are dropped, documents that lie close together are
    /// merged, and documents that hold more than `split_cap` chunks are
    /// split.
    pub open spec fn consolidated_fully<A: Arith>(
        self,
        ar: &A,
        metric: Metric,
        merge_cap: nat,
        split_cap: nat,
    ) -> SessionModel {
        let light = self.consolidated(ar);
        let kept = with_chunks(light.documents, light.documents.len());
        let merged = merged(ar, kept, 0, kept.len(), merge_cap);
        SessionModel { documents: split_from(ar, metric, merged, 0, split_cap), ..light }
    }
}

impl HatModel {
    /// The index after a full consolidation: every session consolidated
    /// fully, and sessions without documents dropped.
    pub open spec fn consolidated_fully<A: Arith>(
        self,
        ar: &A,
        metric: Metric,
        merge_cap: nat,
        split_cap: nat,
    ) -> HatModel {
        let each = Seq::new(
            self.sessions.len(),
            |i: int| self.sessions[i].consolidated_fully(ar, metric, merge_cap, split_cap),
        );
        HatModel { sessions: with_documents(each, each.len()), ..self }
    }
}

/// What is kept has the dimensionality of what it was taken from.
pub proof fn lemma_with_chunks_fit(documents: Seq<DocumentModel>, n: nat, dim: nat)
    requires
        n <= documents.len(),
        all_fit(documents, dim),
    ensures
        all_fit(with_chunks(documents, n), dim),
        with_chunks(documents, n).len() <= n,
    decreases n,
{
    if n > 0 {
        lemma_with_chunks_fit(documents, (n - 1) as nat, dim);
    }
}

/// What is kept has the dimensionality of what it was taken from.
pub proof fn lemma_with_documents_fit(sessions: Seq<SessionModel>, n: nat, dim: nat)
    requires
        n <= sessions.len(),
        forall|i: int| 0 <= i < sessions.len() ==> (#[trigger] sessions[i]).fits(dim),
    ensures
        forall|i: int|
            0 <= i < with_documents(sessions, n).len() ==> (#[trigger] with_documents(
                sessions,
                n,
            )[i]).fits(dim),
        with_documents(sessions, n).len() <= n,
    decreases n,
{
    if n > 0 {
        lemma_with_documents_fit(sessions, (n - 1) as nat, dim);
    }
}

impl Session {
    /// Drops the documents without chunks.
    fn drop_empty(&mut self)
        ensures
            final(self)@ == (SessionModel {
                documents: with_chunks(old(self)@.documents, old(self)@.documents.len()),
                ..old(self)@
            }),
    {
        let ghost before = self@;
        let ghost n = before.documents.len();
        let mut i: usize = 0;
        let ghost mut seen: nat = 0;
        assert(self@.documents =~= with_chunks(before.documents, 0) + before.documents.skip(0));
        while i < self.documents.len()
            invariant
                seen <= n,
                n == before.documents.len(),
                i == with_chunks(before.documents, seen).len(),
                self@.documents == with_chunks(before.documents, seen) + before.documents.skip(
                    seen as int,
                ),
                self@.id == before.id,
                self@.timestamp_ms == before.timestamp_ms,
                self@.centroid == before.centroid,
                self@.dirty == before.dirty,
            decreases n - seen,
        {
            let ghost docs = self@.documents;
            let ghost front = with_chunks(before.documents, seen);
            assert(docs.len() == front.len() + (n - seen));
            assert(seen < n);
            assert(docs[i as int] == before.documents.skip(seen as int)[0]);
            assert(before.documents.skip(seen as int)[0] == before.documents[seen as int]);
            assert(before.documents.skip(seen as int).skip(1) =~= before.documents.skip(
                seen as int + 1,
            ));
            if self.documents[i].chunks.len() == 0 {
                self.documents.remove(i);
                assert(self@.documents =~= docs.remove(i as int));
                assert(with_chunks(before.documents, seen + 1) == front);
                assert(docs.remove(i as int) =~= front + before.documents.skip(seen as int + 1));
            } else {
                assert(with_chunks(before.documents, seen + 1) == front.push(
                    before.documents[seen as int],
                ));
                assert(docs =~= front.push(before.documents[seen as int]) + before.documents.skip(
                    seen as int + 1,
                ));
                i = i + 1;
            }
            proof {
                seen = seen + 1;
            }
        }
        proof {
            assert(before.documents.skip(seen as int).len() == 0);
            assert(self@.documents =~= with_chunks(before.documents, seen));
        }
    }

    /// Consolidates the session fully.
    fn consolidate_fully<A: Arith>(&mut self, ar: &A, metric: Metric, merge_cap: usize, split_cap: usize)
        requires
            old(self)@.fits(old(self)@.centroid.len()),
        ensures
            final(self)@ == old(self)@.consolidated_fully(
                ar,
                metric,
                merge_cap as nat,
                split_cap as nat,
            ),
    {
        let ghost before = self@;
        let ghost dim = before.centroid.len();
        self.consolidate(ar);
        proof {
            lemma_session_consolidated_fits(before, ar, dim);
        }
        let ghost light = self@;
        self.drop_empty();
        proof {
            lemma_with_chunks_fit(light.documents, light.documents.len(), dim);
        }
        let ghost kept = self@.documents;
        self.merge_close(ar, merge_cap);
        proof {
            lemma_merged_fits(ar, kept, 0, kept.len(), merge_cap as nat, dim);
        }
        self.split_large(ar, metric, split_cap);
    }
}

/// Light consolidation keeps the dimensionality of every vector of a
/// session.
pub proof fn lemma_session_consolidated_fits<A: Arith>(s: SessionModel, ar: &A, dim: nat)
    requires
        s.fits(dim),
    ensures
        s.consolidated(ar).fits(dim),
        all_fit(s.consolidated(ar).documents, dim),
        s.consolidated(ar).centroid.len() == dim,
{
    let m = HatModel { sessions: seq![s], current_session: None, current_document: None };
    assert(m.sessions[0] == s);
    assert(m.fits(dim));
    lemma_consolidated_fits(m, ar, dim);
    assert(m.consolidated(ar).sessions[0] == s.consolidated(ar));
}

impl HatIndex {
    /// Consolidates the index fully: after a light consolidation, empty
    /// nodes are dropped, documents of a session that lie close together
    /// are merged, and documents that have grown too large are split. A
    /// current document that is merged away is no longer found, so that the
    /// next chunk opens a new one.
    pub fn consolidate_full<A: Arith>(&mut self, ar: &A)
        requires
            old(self).wf(),
        ensures
            final(self).wf(),
            final(self).same_frame(old(self)),
            final(self)@ == old(self)@.consolidated_fully(
                ar,
                old(self).metric(),
                old(self).settings().merge_cap as nat,
                old(self).settings().split_cap as nat,
            ),
    {
        let ghost before = self@;
        let ghost dim = self.dim();
        let metric = self.metric;
        let merge_cap = self.config.merge_cap;
        let split_cap = self.config.split_cap;
        let ghost each = Seq::new(
            before.sessions.len(),
            |i: int|
                before.sessions[i].consolidated_fully(ar, metric, merge_cap as nat, split_cap as nat),
        );
        let n = self.sessions.len();
        let mut i: usize = 0;
        while i < n
            invariant
                i <= n,
                n == before.sessions.len(),
                self.sessions@.len() == n,
                self.same_frame(old(self)),
                self.dim() == dim,
                metric == self.metric,
                before.fits(dim),
                self@.current_session == before.current_session,
                self@.current_document == before.current_document,
                forall|j: int| 0 <= j < i ==> self@.sessions[j] == each[j],
                forall|j: int| i <= j < n ==> self@.sessions[j] == before.sessions[j],
                forall|j: int| 0 <= j < i ==> (#[trigger] each[j]).fits(dim),
                each == Seq::new(
                    before.sessions.len(),
                    |i: int|
                        before.sessions[i].consolidated_fully(
                            ar,
                            metric,
                            merge_cap as nat,
                            split_cap as nat,
                        ),
                ),
            decreases n - i,
        {
            let ghost sessions = self@.sessions;
            assert(before.sessions[i as int].fits(dim));
            self.sessions[i].consolidate_fully(ar, metric, merge_cap, split_cap);
            proof {
                assert(self@.sessions =~= sessions.update(i as int, each[i as int]));
                lemma_session_consolidated_fully_fits(
                    before.sessions[i as int],
                    ar,
                    metric,
                    merge_cap as nat,
                    split_cap as nat,
                    dim,
                );
            }
            i = i + 1;
        }
        assert(self@.sessions =~= each);
        let mut i: usize = 0;
        let ghost mut seen: nat = 0;
        assert(self@.sessions =~= with_documents(each, 0) + each.skip(0));
        while i < self.sessions.len()
            invariant
                seen <= n,
                n == each.len(),
                self.same_frame(old(self)),
                self@.current_session == before.current_session,
                self@.current_document == before.current_document,
                i == with_documents(each, seen).len(),
                self@.sessions == with_documents(each, seen) + each.skip(seen as int),
            decreases n - seen,
        {
            let ghost sessions = self@.sessions;
            assert(sessions[i as int] == each.skip(seen as int)[0]);
            if self.sessions[i].documents.len() == 0 {
                self.sessions.remove(i);
                assert(self@.sessions =~= sessions.remove(i as int));
                assert(sessions.remove(i as int) =~= with_documents(each, seen + 1) + each.skip(
                    seen as int + 1,
                ));
            } else {
                assert(sessions =~= with_documents(each, seen + 1) + each.skip(seen as int + 1));
                i = i + 1;
            }
            proof {
                seen = seen + 1;
            }
        }
        proof {
            assert(each.skip(seen as int).len() == 0);
            assert(seen == n);
            assert(self@.sessions =~= with_documents(each, n as nat));
            lemma_with_documents_fit(each, n as nat, dim);
        }
    }

    /// Consolidates the index, lightly or fully.
    pub fn consolidate<A: Arith>(&mut self, ar: &A, kind: Consolidation)
        requires
            old(self).wf(),
        ensures
            final(self).wf(),
            final(self).same_frame(old(self)),
            final(self)@ == match kind {
                Consolidation::Light => old(self)@.consolidated(ar),
                Consolidation::Full => old(self)@.consolidated_fully(
                    ar,
                    old(self).metric(),
                    old(self).settings().merge_cap as nat,
                    old(self).settings().split_cap as nat,
                ),
            },
    {
        match kind {
            Consolidation::Light => self.consolidate_light(ar),
            Consolidation::Full => self.consolidate_full(ar),
        }
    }
}

/// Full consolidation keeps the dimensionality of every vector of a session.
pub proof fn lemma_session_consolidated_fully_fits<A: Arith>(
    s: SessionModel,
    ar: &A,
    metric: Metric,
    merge_cap: nat,
    split_cap: nat,
    dim: nat,
)
    requires
        s.fits(dim),
    ensures
        s.consolidated_fully(ar, metric, merge_cap, split_cap).fits(dim),
{
    lemma_session_consolidated_fits(s, ar, dim);
    let light = s.consolidated(ar);
    lemma_with_chunks_fit(light.documents, light.documents.len(), dim);
    let kept = with_chunks(light.documents, light.documents.len());
    lemma_merged_fits(ar, kept, 0, kept.len(), merge_cap, dim);
    lemma_split_fits(ar, metric, merged(ar, kept, 0, kept.len(), merge_cap), 0, split_cap, dim);
}

/// The places from zero up to `n`.
pub open spec fn every(n: nat) -> Seq<int> {
    Seq::new(n, |i: int| i)
}

/// All chunks of `sessions`, session after session and document after
/// document.
pub open spec fn all_chunks(sessions: Seq<SessionModel>) -> Seq<ChunkModel> {
    let documents = documents_of(sessions, every(sessions.len()), sessions.len());
    chunks_of(documents, every(documents.len()), documents.len())
}

impl HatIndex {
    /// Forgets every chunk, document and session.
    pub fn clear(&mut self)
        ensures
            final(self).wf(),
            final(self).same_frame(old(self)),
            final(self)@ == (HatModel {
                sessions: Seq::empty(),
                current_session: None,
                current_document: None,
            }),
    {
        self.sessions = Vec::new();
        self.current_session = None;
        self.current_document = None;
        assert(self@.sessions =~= Seq::empty());
    }

    /// Every chunk with its proximity to `query`.
    fn all_scores<A: Arith>(&self, ar: &A, query: &Point) -> (out: Vec<SearchResult>)
        requires
            self.wf(),
            query@.len() == self.dim(),
        ensures
            out@ == chunk_scores(ar, plain(self.metric(), query@), all_chunks(self@.sessions)),
    {
        let ghost p = plain(self.metric, query@);
        let ghost sessions = self@.sessions;
        let ghost sp = every(sessions.len());
        let mut out: Vec<SearchResult> = Vec::new();
        let ghost mut documents: Seq<DocumentModel> = Seq::empty();
        let mut i: usize = 0;
        assert(out@ =~= chunk_scores(ar, p, chunks_of(documents, every(0), 0)));
        while i < self.sessions.len()
            invariant
                i <= self.sessions@.len(),
                self.wf(),
                query@.len() == self.dim(),
                sessions == self@.sessions,
                sp == every(sessions.len()),
                p == plain(self.metric, query@),
                documents == documents_of(sessions, sp, i as nat),
                out@ == chunk_scores(
                    ar,
                    p,
                    chunks_of(documents, every(documents.len()), documents.len()),
                ),
            decreases self.sessions.len() - i,
        {
            assert(sessions[i as int].fits(query@.len()));
            let mut j: usize = 0;
            let ghost session = sessions[i as int];
            let ghost start = documents;
            assert(documents + session.documents.take(0) =~= documents);
            while j < self.sessions[i].documents.len()
                invariant
                    j <= session.documents.len(),
                    i < self.sessions@.len(),
                    self.wf(),
                    query@.len() == self.dim(),
                    sessions == self@.sessions,
                    session == sessions[i as int],
                    session.fits(query@.len()),
                    p == plain(self.metric, query@),
                    documents == start + session.documents.take(j as int),
                    out@ == chunk_scores(
                        ar,
                        p,
                        chunks_of(documents, every(documents.len()), documents.len()),
                    ),
                decreases session.documents.len() - j,
            {
                assert(session.documents[j as int].fits(query@.len()));
                let mut more = self.sessions[i].documents[j].scores(ar, self.metric, ZERO, 0, query);
                let ghost before = documents;
                proof {
                    documents = documents.push(session.documents[j as int]);
                    assert(documents =~= start + session.documents.take(j + 1));
                    lemma_chunks_of_every(before, session.documents[j as int]);
                }
                out.append(&mut more);
                assert(out@ =~= chunk_scores(
                    ar,
                    p,
                    chunks_of(documents, every(documents.len()), documents.len()),
                ));
                j = j + 1;
            }
            proof {
                assert(session.documents.take(session.documents.len() as int)
                    =~= session.documents);
                assert(sp[i as int] == i);
            }
            i = i + 1;
        }
        out
    }

    /// Every chunk whose proximity to `query` reaches `threshold`, nearest
    /// first. All chunks are looked at, whatever the beam.
    pub fn within<A: Arith>(&self, ar: &A, query: &Point, threshold: u32) -> (r: Result<
        Vec<SearchResult>,
        NearError,
    >)
        requires
            self.wf(),
        ensures
            match r {
                Ok(out) => {
                    let all = chunk_scores(
                        ar,
                        plain(self.metric(), query@),
                        all_chunks(self@.sessions),
                    );
                    let hits = reaching(all, threshold, all.len());
                    query@.len() == self.dim() && is_top(out@, hits, hits.len()) && ranked(out@)
                        && out@.len() == hits.len()
                },
                Err(NearError::DimensionalityMismatch { expected, got }) => query@.len()
                    != self.dim() && expected == self.dim() && got == query@.len(),
                Err(_) => false,
            },
    {
        if query.dimensionality() != self.dimensionality {
            return Err(
                NearError::DimensionalityMismatch {
                    expected: self.dimensionality,
                    got: query.dimensionality(),
                },
            );
        }
        let all = self.all_scores(ar, query);
        let mut hits: Vec<SearchResult> = Vec::new();
        let mut i: usize = 0;
        while i < all.len()
            invariant
                i <= all@.len(),
                hits@ == reaching(all@, threshold, i as nat),
            decreases all.len() - i,
        {
            if reaches(all[i].score, threshold) {
                hits.push(all[i]);
            }
            i = i + 1;
        }
        let n = hits.len();
        Ok(rank(&hits, n))
    }
}

/// The chunks of all documents with one more document are those of the
/// documents and then those of the one more.
proof fn lemma_chunks_of_every(documents: Seq<DocumentModel>, d: DocumentModel)
    ensures
        chunks_of(documents.push(d), every(documents.len() + 1), documents.len() + 1) == chunks_of(
            documents,
            every(documents.len()),
            documents.len(),
        ) + d.chunks,
{
    let more = documents.push(d);
    lemma_chunks_of_same(documents, more, every(documents.len()), every(more.len()), documents.len());
    assert(every(more.len())[documents.len() as int] == documents.len());
    assert(more[documents.len() as int] == d);
}

/// The chunks of the first `n` picks depend only on those picks and on the
/// documents that they pick.
proof fn lemma_chunks_of_same(
    a: Seq<DocumentModel>,
    b: Seq<DocumentModel>,
    pa: Seq<int>,
    pb: Seq<int>,
    n: nat,
)
    requires
        n <= pa.len(),
        n <= pb.len(),
        forall|i: int| 0 <= i < n ==> pa[i] == pb[i] && 0 <= pa[i] < a.len() && pa[i] < b.len() && a[pa[i]] == b[pb[i]],
    ensures
        chunks_of(a, pa, n) == chunks_of(b, pb, n),
    decreases n,
{
    if n > 0 {
        lemma_chunks_of_same(a, b, pa, pb, (n - 1) as nat);
    }
}

impl HatIndex {
    /// Reads an index of the dimensionality `dimensionality` from a file; a
    /// file of another dimensionality is refused.
    pub fn from_bytes_for(data: &[u8], dimensionality: usize) -> (r: Result<HatIndex, LoadError>)
        ensures
            match r {
                Ok(index) => index.wf() && index.dim() == dimensionality && match SnapshotModel::parse(
                    data@,
                ) {
                    Ok(snapshot) => assembled(
                        snapshot.nodes,
                        snapshot.nodes.len(),
                        snapshot.header.dim as nat,
                    ) == Ok::<_, LoadError>(index@.sessions) && index.header(
                        snapshot.header.normalize_on_insert,
                    ) == Some(snapshot.header),
                    Err(_) => false,
                },
                Err(e) => match SnapshotModel::parse(data@) {
                    Ok(snapshot) => if snapshot.header.dim != dimensionality {
                        e == (LoadError::DimensionMismatch {
                            expected: dimensionality,
                            got: snapshot.header.dim as usize,
                        })
                    } else {
                        assembled(snapshot.nodes, snapshot.nodes.len(), snapshot.header.dim as nat)
                            == Err::<Seq<SessionModel>, _>(e)
                    },
                    Err(first) => e == first,
                },
            },
    {
        match Snapshot::from_bytes(data) {
            Err(e) => Err(e),
            Ok(snapshot) => {
                if snapshot.header.dim as usize != dimensionality {
                    Err(
                        LoadError::DimensionMismatch {
                            expected: dimensionality,
                            got: snapshot.header.dim as usize,
                        },
                    )
                } else {
                    HatIndex::restore(&snapshot)
                }
            },
        }
    }
}

} // verus!
