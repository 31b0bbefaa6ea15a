//! A persistence file is read back as what was written.

use vstd::prelude::*;
use crate::attention::{block32, len32, words, read_u32};
use crate::crc::crc32;
use crate::hat::{
    HatIndex, ChunkModel, DocumentModel, SessionModel, assembled, grown, chunk_node, document_node,
    session_node, chunk_nodes, document_nodes, session_nodes,
};
use crate::id::Id;
use crate::persist::{
    Header, LoadError, NodeModel, SnapshotModel, encode_header, encode_node, encode_nodes,
    encode_payloads, file_magic, metric_code, parse_content, parse_node, parse_nodes,
    parse_payloads, parse_settings,
};
use crate::roundtrip::{lemma_regroup, lemma_read_u32, lemma_read_block32, lemma_read_words};
use crate::wire::{le32, le64, le32_value, lemma_le32_round_trip, lemma_le64_round_trip};

verus! {

/// The settings are read back from their bytes.
pub proof fn lemma_settings(h: Header, rest: Seq<u8>)
    ensures
        parse_settings(encode_header(h) + rest) == Ok::<_, LoadError>((h, rest)),
{
    reveal(encode_header);
    reveal(parse_settings);
    let flag = if h.normalize_on_insert {
        1u8
    } else {
        0u8
    };
    let t5 = le32(h.propagation_threshold) + rest;
    let t4 = le32(h.temporal_weight) + t5;
    let t3 = le32(h.beam_width) + t4;
    let t2 = seq![flag] + t3;
    let t1 = seq![metric_code(h.metric)] + t2;
    let t0 = le32(h.dim) + t1;
    let s = encode_header(h) + rest;
    lemma_regroup(
        le32(h.dim) + seq![metric_code(h.metric)] + seq![flag] + le32(h.beam_width) + le32(
            h.temporal_weight,
        ),
        le32(h.propagation_threshold),
        rest,
    );
    lemma_regroup(
        le32(h.dim) + seq![metric_code(h.metric)] + seq![flag] + le32(h.beam_width),
        le32(h.temporal_weight),
        t5,
    );
    lemma_regroup(le32(h.dim) + seq![metric_code(h.metric)] + seq![flag], le32(h.beam_width), t4);
    lemma_regroup(le32(h.dim) + seq![metric_code(h.metric)], seq![flag], t3);
    lemma_regroup(le32(h.dim), seq![metric_code(h.metric)], t2);
    assert(s == t0);
    lemma_le32_round_trip(h.dim, t1);
    lemma_le32_round_trip(h.beam_width, t4);
    lemma_le32_round_trip(h.temporal_weight, t5);
    lemma_le32_round_trip(h.propagation_threshold, rest);
    assert(t0.skip(4) == t1);
    assert(t0[4] == t1[0]);
    assert(t0[5] == t2[0]);
    assert(t0.skip(6) =~= t3);
    assert(t0.skip(10) =~= t4);
    assert(t0.skip(14) =~= t5);
    assert(t0.skip(18) =~= rest);
}

/// A node is read back from its bytes.
pub proof fn lemma_node(n: NodeModel, rest: Seq<u8>)
    ensures
        parse_node(encode_node(n) + rest, n.vector.len()) == Some((n, rest)),
{
    reveal(encode_node);
    reveal(parse_node);
    let t5 = words(n.vector) + rest;
    let t4 = le32(n.count) + t5;
    let t3 = le64(n.timestamp_ms) + t4;
    let t2 = n.parent.bytes() + t3;
    let t1 = n.id.bytes() + t2;
    let t0 = seq![n.level] + t1;
    let s = encode_node(n) + rest;
    lemma_regroup(
        seq![n.level] + n.id.bytes() + n.parent.bytes() + le64(n.timestamp_ms) + le32(n.count),
        words(n.vector),
        rest,
    );
    lemma_regroup(
        seq![n.level] + n.id.bytes() + n.parent.bytes() + le64(n.timestamp_ms),
        le32(n.count),
        t5,
    );
    lemma_regroup(seq![n.level] + n.id.bytes() + n.parent.bytes(), le64(n.timestamp_ms), t4);
    lemma_regroup(seq![n.level] + n.id.bytes(), n.parent.bytes(), t3);
    lemma_regroup(seq![n.level], n.id.bytes(), t2);
    assert(s == t0);
    Id::lemma_of_bytes_bytes(n.id, t2);
    Id::lemma_of_bytes_bytes(n.parent, t3);
    lemma_le64_round_trip(n.timestamp_ms, t4);
    lemma_le32_round_trip(n.count, t5);
    lemma_read_words(n.vector, rest);
    assert(t0.skip(1) =~= t1);
    assert(t0.skip(17) =~= t2);
    assert(t0.skip(33) =~= t3);
    assert(t0.skip(41) =~= t4);
    assert(t0.skip(45) =~= t5);
}

/// The bytes of a list of nodes start with those of the first.
pub proof fn lemma_encode_nodes_front(nodes: Seq<NodeModel>, n: nat)
    requires
        0 < n <= nodes.len(),
    ensures
        encode_nodes(nodes, n) == encode_node(nodes[0]) + encode_nodes(
            nodes.skip(1),
            (n - 1) as nat,
        ),
    decreases n,
{
    if n == 1 {
        assert(encode_nodes(nodes, 0) =~= Seq::<u8>::empty());
        assert(encode_nodes(nodes.skip(1), 0) =~= Seq::<u8>::empty());
        assert(encode_nodes(nodes, 1) =~= encode_node(nodes[0]) + encode_nodes(nodes.skip(1), 0));
    } else {
        lemma_encode_nodes_front(nodes, (n - 1) as nat);
        assert(nodes.skip(1)[n - 2] == nodes[n - 1]);
        lemma_regroup(
            encode_node(nodes[0]),
            encode_nodes(nodes.skip(1), (n - 2) as nat),
            encode_node(nodes[n - 1]),
        );
    }
}

/// Nodes of one dimensionality are read back from their bytes, after
/// whatever was read before them.
#[verifier::rlimit(40)]
pub proof fn lemma_nodes_round_trip(
    nodes: Seq<NodeModel>,
    rest: Seq<u8>,
    dim: nat,
    acc: Seq<NodeModel>,
)
    requires
        forall|i: int| 0 <= i < nodes.len() ==> (#[trigger] nodes[i]).vector.len() == dim,
    ensures
        parse_nodes(encode_nodes(nodes, nodes.len()) + rest, nodes.len(), dim, acc) == Some(
            (acc + nodes, rest),
        ),
    decreases nodes.len(),
{
    if nodes.len() == 0 {
        assert(acc + nodes =~= acc);
        assert(encode_nodes(nodes, 0) + rest =~= rest);
    } else {
        let tail = nodes.skip(1);
        lemma_encode_nodes_front(nodes, nodes.len());
        lemma_regroup(encode_node(nodes[0]), encode_nodes(tail, tail.len()), rest);
        lemma_node(nodes[0], encode_nodes(tail, tail.len()) + rest);
        assert(nodes[0].vector.len() == dim);
        assert forall|i: int| 0 <= i < tail.len() implies (#[trigger] tail[i]).vector.len()
            == dim by {
            assert(tail[i] == nodes[i + 1]);
        }
        assert(acc.push(nodes[0]) + tail =~= acc + nodes);
        lemma_nodes_round_trip(tail, rest, dim, acc.push(nodes[0]));
    }
}

/// The bytes of a list of payloads start with those of the first.
pub proof fn lemma_encode_payloads_front(payloads: Seq<(Id, Seq<u8>)>, n: nat)
    requires
        0 < n <= payloads.len(),
    ensures
        encode_payloads(payloads, n) == payloads[0].0.bytes() + block32(payloads[0].1)
            + encode_payloads(payloads.skip(1), (n - 1) as nat),
    decreases n,
{
    let first = payloads[0].0.bytes() + block32(payloads[0].1);
    if n == 1 {
        assert(encode_payloads(payloads, 0) =~= Seq::<u8>::empty());
        assert(encode_payloads(payloads.skip(1), 0) =~= Seq::<u8>::empty());
        assert(encode_payloads(payloads, 1) =~= first + encode_payloads(payloads.skip(1), 0));
    } else {
        lemma_encode_payloads_front(payloads, (n - 1) as nat);
        assert(payloads.skip(1)[n - 2] == payloads[n - 1]);
        let mid = encode_payloads(payloads.skip(1), (n - 2) as nat);
        let last_id = payloads[n - 1].0.bytes();
        let last_block = block32(payloads[n - 1].1);
        lemma_regroup(first, mid, last_id);
        lemma_regroup(first, mid + last_id, last_block);
    }
}

/// Payloads are read back from their bytes, after whatever was read before
/// them.
#[verifier::rlimit(40)]
pub proof fn lemma_payloads_round_trip(
    payloads: Seq<(Id, Seq<u8>)>,
    rest: Seq<u8>,
    acc: Seq<(Id, Seq<u8>)>,
)
    requires
        forall|i: int| 0 <= i < payloads.len() ==> (#[trigger] payloads[i]).1.len() <= u32::MAX,
    ensures
        parse_payloads(encode_payloads(payloads, payloads.len()) + rest, payloads.len(), acc)
            == Some((acc + payloads, rest)),
    decreases payloads.len(),
{
    if payloads.len() == 0 {
        assert(acc + payloads =~= acc);
        assert(encode_payloads(payloads, 0) + rest =~= rest);
    } else {
        let tail = payloads.skip(1);
        let (id, payload) = payloads[0];
        let t1 = encode_payloads(tail, tail.len()) + rest;
        lemma_encode_payloads_front(payloads, payloads.len());
        lemma_regroup(id.bytes() + block32(payload), encode_payloads(tail, tail.len()), rest);
        lemma_regroup(id.bytes(), block32(payload), t1);
        Id::lemma_of_bytes_bytes(id, block32(payload) + t1);
        lemma_read_block32(payload, t1);
        assert forall|i: int| 0 <= i < tail.len() implies (#[trigger] tail[i]).1.len()
            <= u32::MAX by {
            assert(tail[i] == payloads[i + 1]);
        }
        assert(acc.push(payloads[0]) + tail =~= acc + payloads);
        lemma_payloads_round_trip(tail, rest, acc.push(payloads[0]));
    }
}

impl SnapshotModel {
    /// Whether the snapshot can be written as a file and read back: every
    /// vector has the dimensionality of the settings, and every count and
    /// length fits the four bytes that carry it.
    pub open spec fn valid(self) -> bool {
        &&& self.nodes.len() <= u32::MAX
        &&& self.payloads.len() <= u32::MAX
        &&& forall|i: int|
            0 <= i < self.nodes.len() ==> (#[trigger] self.nodes[i]).vector.len() == self.header.dim
        &&& forall|i: int|
            0 <= i < self.payloads.len() ==> (#[trigger] self.payloads[i]).1.len() <= u32::MAX
    }
}

/// The bytes between the version and the check value, grouped from the
/// right.
pub open spec fn content_bytes(m: SnapshotModel) -> Seq<u8> {
    encode_header(m.header) + (le32(len32(m.nodes.len())) + (encode_nodes(m.nodes, m.nodes.len())
        + (le32(len32(m.payloads.len())) + encode_payloads(m.payloads, m.payloads.len()))))
}

/// Bytes whose parts are read one after the other as the parts of `m` are
/// read as `m`.
proof fn lemma_content_in_stages(
    s: Seq<u8>,
    rest1: Seq<u8>,
    rest2: Seq<u8>,
    rest3: Seq<u8>,
    rest4: Seq<u8>,
    m: SnapshotModel,
)
    requires
        parse_settings(s) == Ok::<_, LoadError>((m.header, rest1)),
        read_u32(rest1) == Some((len32(m.nodes.len()), rest2)),
        m.nodes.len() <= u32::MAX,
        parse_nodes(rest2, m.nodes.len(), m.header.dim as nat, Seq::empty()) == Some((m.nodes, rest3)),
        read_u32(rest3) == Some((len32(m.payloads.len()), rest4)),
        m.payloads.len() <= u32::MAX,
        parse_payloads(rest4, m.payloads.len(), Seq::empty()) == Some(
            (m.payloads, Seq::<u8>::empty()),
        ),
    ensures
        parse_content(s) == Ok::<_, LoadError>(m),
{
}

/// What stands between the version and the check value is read back.
#[verifier::rlimit(40)]
proof fn lemma_content_round_trip(m: SnapshotModel)
    requires
        m.valid(),
    ensures
        parse_content(content_bytes(m)) == Ok::<_, LoadError>(m),
{
    let p = encode_payloads(m.payloads, m.payloads.len());
    let t3 = le32(len32(m.payloads.len())) + p;
    let t2 = encode_nodes(m.nodes, m.nodes.len()) + t3;
    let t1 = le32(len32(m.nodes.len())) + t2;
    lemma_settings(m.header, t1);
    lemma_read_u32(len32(m.nodes.len()), t2);
    assert(parse_nodes(t2, m.nodes.len(), m.header.dim as nat, Seq::empty()) == Some((m.nodes, t3)))
        by {
        lemma_nodes_round_trip(m.nodes, t3, m.header.dim as nat, Seq::empty());
        assert(Seq::<NodeModel>::empty() + m.nodes =~= m.nodes);
    }
    lemma_read_u32(len32(m.payloads.len()), p);
    assert(parse_payloads(p, m.payloads.len(), Seq::empty()) == Some(
        (m.payloads, Seq::<u8>::empty()),
    )) by {
        lemma_payloads_round_trip(m.payloads, Seq::empty(), Seq::empty());
        assert(p + Seq::<u8>::empty() =~= p);
        assert(Seq::<(Id, Seq<u8>)>::empty() + m.payloads =~= m.payloads);
    }
    lemma_content_in_stages(content_bytes(m), t1, t2, t3, p, m);
}

/// The body of a file is the magic, the version and the content.
proof fn lemma_body_shape(m: SnapshotModel)
    ensures
        m.body() == file_magic() + (le32(1) + content_bytes(m)),
{
    let h = encode_header(m.header);
    let n = le32(len32(m.nodes.len()));
    let ns = encode_nodes(m.nodes, m.nodes.len());
    let c = le32(len32(m.payloads.len()));
    let ps = encode_payloads(m.payloads, m.payloads.len());
    lemma_regroup(file_magic() + le32(1) + h + n + ns, c, ps);
    lemma_regroup(file_magic() + le32(1) + h + n, ns, c + ps);
    lemma_regroup(file_magic() + le32(1) + h, n, ns + (c + ps));
    lemma_regroup(file_magic() + le32(1), h, n + (ns + (c + ps)));
    lemma_regroup(file_magic(), le32(1), content_bytes(m));
}

/// A body with its check value is taken apart again as a file is.
proof fn lemma_file_shape(content: Seq<u8>)
    ensures
        ({
            let body = file_magic() + (le32(1) + content);
            let file = body + le32(crc32(body));
            &&& file.len() >= 12
            &&& file.take(4) == file_magic()
            &&& le32_value(file.skip(4)) == 1
            &&& file.take(file.len() - 4) == body
            &&& le32_value(file.skip(file.len() - 4)) == crc32(body)
            &&& body.skip(8) == content
        }),
{
    let body = file_magic() + (le32(1) + content);
    let check = le32(crc32(body));
    let file = body + check;
    lemma_le32_round_trip(1, content);
    lemma_le32_round_trip(crc32(body), Seq::empty());
    assert(check + Seq::<u8>::empty() =~= check);
    assert(file.take(file.len() - 4) =~= body);
    assert(file.skip(file.len() - 4) =~= check);
    assert(file.take(4) =~= file_magic());
    assert(body.skip(4) =~= le32(1) + content);
    assert(file.skip(4)[0] == body.skip(4)[0]);
    assert(file.skip(4)[1] == body.skip(4)[1]);
    assert(file.skip(4)[2] == body.skip(4)[2]);
    assert(file.skip(4)[3] == body.skip(4)[3]);
    assert(body.skip(8) =~= content);
}

/// A valid snapshot is read back from its file.
pub proof fn lemma_snapshot_round_trip(m: SnapshotModel)
    requires
        m.valid(),
    ensures
        SnapshotModel::parse(m.encode()) == Ok::<_, LoadError>(m),
{
    lemma_body_shape(m);
    lemma_file_shape(content_bytes(m));
    lemma_content_round_trip(m);
}

/// The document with its mark taken off.
pub open spec fn cleared_document(d: DocumentModel) -> DocumentModel {
    DocumentModel { dirty: false, ..d }
}

/// Each of the documents with its mark taken off.
pub open spec fn cleared_documents(documents: Seq<DocumentModel>) -> Seq<DocumentModel> {
    Seq::new(documents.len(), |i: int| cleared_document(documents[i]))
}

/// The session with its mark and those of its documents taken off.
pub open spec fn cleared_session(s: SessionModel) -> SessionModel {
    SessionModel { dirty: false, documents: cleared_documents(s.documents), ..s }
}

/// Each of the sessions with all marks taken off.
pub open spec fn cleared(sessions: Seq<SessionModel>) -> Seq<SessionModel> {
    Seq::new(sessions.len(), |i: int| cleared_session(sessions[i]))
}

/// The tree `acc`, or the failure `acc`, after the first `n` of `nodes`
/// have been put to it.
pub open spec fn extended(
    acc: Result<Seq<SessionModel>, LoadError>,
    nodes: Seq<NodeModel>,
    n: nat,
    dim: nat,
) -> Result<Seq<SessionModel>, LoadError>
    decreases n,
{
    if n == 0 {
        acc
    } else {
        match extended(acc, nodes, (n - 1) as nat, dim) {
            Err(e) => Err(e),
            Ok(a) => grown(a, nodes[n - 1], dim),
        }
    }
}

/// To assemble is to extend the empty tree.
proof fn lemma_assembled_is_extended(nodes: Seq<NodeModel>, n: nat, dim: nat)
    ensures
        assembled(nodes, n, dim) == extended(Ok(Seq::empty()), nodes, n, dim),
    decreases n,
{
    if n > 0 {
        lemma_assembled_is_extended(nodes, (n - 1) as nat, dim);
    }
}

/// Extending depends only on the nodes that are put.
proof fn lemma_extended_same(
    acc: Result<Seq<SessionModel>, LoadError>,
    a: Seq<NodeModel>,
    b: Seq<NodeModel>,
    n: nat,
    dim: nat,
)
    requires
        n <= a.len(),
        n <= b.len(),
        forall|i: int| 0 <= i < n ==> a[i] == b[i],
    ensures
        extended(acc, a, n, dim) == extended(acc, b, n, dim),
    decreases n,
{
    if n > 0 {
        lemma_extended_same(acc, a, b, (n - 1) as nat, dim);
    }
}

/// To put `x` and then the first `k` of `y` is to put the first of `x + y`.
proof fn lemma_extended_concat(
    acc: Result<Seq<SessionModel>, LoadError>,
    x: Seq<NodeModel>,
    y: Seq<NodeModel>,
    k: nat,
    dim: nat,
)
    requires
        k <= y.len(),
    ensures
        extended(acc, x + y, x.len() + k, dim) == extended(
            extended(acc, x, x.len(), dim),
            y,
            k,
            dim,
        ),
    decreases k,
{
    if k == 0 {
        lemma_extended_same(acc, x + y, x, x.len(), dim);
    } else {
        lemma_extended_concat(acc, x, y, (k - 1) as nat, dim);
        assert((x + y)[x.len() + k - 1] == y[k - 1]);
    }
}

/// The tree `a` with `chunks` as the chunks of its last document.
pub open spec fn with_last_chunks(a: Seq<SessionModel>, chunks: Seq<ChunkModel>) -> Seq<
    SessionModel,
> {
    let s = a.last();
    let d = s.documents.last();
    a.update(
        a.len() - 1,
        SessionModel {
            documents: s.documents.update(
                s.documents.len() - 1,
                DocumentModel { chunks, ..d },
            ),
            ..s
        },
    )
}

/// The tree `a` with `documents` as the documents of its last session.
pub open spec fn with_last_documents(a: Seq<SessionModel>, documents: Seq<DocumentModel>) -> Seq<
    SessionModel,
> {
    a.update(a.len() - 1, SessionModel { documents, ..a.last() })
}

/// The nodes of chunks put to a tree join its last document.
#[verifier::rlimit(40)]
proof fn lemma_chunks_extend(a: Seq<SessionModel>, d: DocumentModel, n: nat, dim: nat)
    requires
        a.len() > 0,
        a.last().documents.len() > 0,
        a.last().documents.last().id == d.id,
        n <= d.chunks.len(),
        forall|i: int| 0 <= i < d.chunks.len() ==> (#[trigger] d.chunks[i]).vector.len() == dim,
    ensures
        chunk_nodes(d, n).len() == n,
        extended(Ok(a), chunk_nodes(d, n), n, dim) == Ok::<_, LoadError>(
            with_last_chunks(a, a.last().documents.last().chunks + d.chunks.take(n as int)),
        ),
    decreases n,
{
    let cur = a.last().documents.last();
    if n == 0 {
        assert(cur.chunks + d.chunks.take(0) =~= cur.chunks);
        assert(a.last().documents.update(a.last().documents.len() - 1, cur)
            =~= a.last().documents);
        assert(with_last_chunks(a, cur.chunks) =~= a);
    } else {
        let m = (n - 1) as nat;
        lemma_chunks_extend(a, d, m, dim);
        lemma_extended_same(Ok(a), chunk_nodes(d, n), chunk_nodes(d, m), m, dim);
        let before = with_last_chunks(a, cur.chunks + d.chunks.take(m as int));
        let node = chunk_node(d.chunks[n - 1], d.id);
        assert(chunk_nodes(d, n)[n - 1] == node);
        assert(d.chunks[n - 1].vector.len() == dim);
        let after = with_last_chunks(a, cur.chunks + d.chunks.take(n as int));
        assert((cur.chunks + d.chunks.take(m as int)).push(
            ChunkModel { id: node.id, vector: node.vector },
        ) =~= cur.chunks + d.chunks.take(n as int));
        assert(before.last().documents.last().id == d.id);
        assert(grown(before, node, dim) == Ok::<_, LoadError>(after)) by {
            let s = before.last();
            let got = grown(before, node, dim)->Ok_0;
            assert(got.last().documents =~= after.last().documents);
            assert(got =~= after);
        }
    }
}

/// The nodes of documents put to a tree join its last session.
#[verifier::rlimit(40)]
proof fn lemma_documents_extend(a: Seq<SessionModel>, s: SessionModel, n: nat, dim: nat)
    requires
        a.len() > 0,
        a.last().id == s.id,
        n <= s.documents.len(),
        forall|i: int| 0 <= i < s.documents.len() ==> (#[trigger] s.documents[i]).fits(dim),
    ensures
        extended(Ok(a), document_nodes(s, n), document_nodes(s, n).len(), dim) == Ok::<
            _,
            LoadError,
        >(
            with_last_documents(
                a,
                a.last().documents + cleared_documents(s.documents.take(n as int)),
            ),
        ),
    decreases n,
{
    let docs = a.last().documents;
    if n == 0 {
        assert(docs + cleared_documents(s.documents.take(0)) =~= docs);
        assert(with_last_documents(a, docs) =~= a);
    } else {
        let m = (n - 1) as nat;
        lemma_documents_extend(a, s, m, dim);
        let d = s.documents[n - 1];
        assert(d.fits(dim));
        let x = document_nodes(s, m);
        let node = document_node(d, s.id);
        let y = chunk_nodes(d, d.chunks.len());
        let before = with_last_documents(a, docs + cleared_documents(s.documents.take(m as int)));
        let opened = with_last_documents(
            a,
            (docs + cleared_documents(s.documents.take(m as int))).push(
                DocumentModel { chunks: Seq::empty(), dirty: false, ..d },
            ),
        );
        // The node of the document itself.
        lemma_extended_concat(Ok(a), x, seq![node], 1, dim);
        assert(x.push(node) =~= x + seq![node]);
        assert(extended(Ok::<_, LoadError>(before), seq![node], 0, dim) == Ok::<_, LoadError>(
            before,
        ));
        assert(grown(before, node, dim) == Ok::<_, LoadError>(opened)) by {
            let got = grown(before, node, dim)->Ok_0;
            assert(got.last().documents =~= opened.last().documents);
            assert(got =~= opened);
        }
        assert(extended(Ok(a), x.push(node), x.len() + 1, dim) == Ok::<_, LoadError>(opened));
        // The nodes of its chunks.
        lemma_chunks_extend(opened, d, d.chunks.len(), dim);
        lemma_extended_concat(Ok(a), x.push(node), y, y.len(), dim);
        assert(d.chunks.take(d.chunks.len() as int) =~= d.chunks);
        let done = with_last_documents(
            a,
            docs + cleared_documents(s.documents.take(n as int)),
        );
        assert(with_last_chunks(opened, Seq::<ChunkModel>::empty() + d.chunks) =~= done) by {
            let got = with_last_chunks(opened, Seq::<ChunkModel>::empty() + d.chunks);
            assert(Seq::<ChunkModel>::empty() + d.chunks =~= d.chunks);
            assert(s.documents.take(n as int)[n - 1] == d);
            assert(got.last().documents =~= done.last().documents);
        }
    }
}

/// The nodes of sessions put to a tree stand after it.
#[verifier::rlimit(40)]
proof fn lemma_sessions_extend(a: Seq<SessionModel>, ss: Seq<SessionModel>, n: nat, dim: nat)
    requires
        n <= ss.len(),
        forall|i: int| 0 <= i < ss.len() ==> (#[trigger] ss[i]).fits(dim),
    ensures
        extended(Ok(a), session_nodes(ss, n), session_nodes(ss, n).len(), dim) == Ok::<
            _,
            LoadError,
        >(a + cleared(ss.take(n as int))),
    decreases n,
{
    if n == 0 {
        assert(a + cleared(ss.take(0)) =~= a);
    } else {
        let m = (n - 1) as nat;
        lemma_sessions_extend(a, ss, m, dim);
        let s = ss[n - 1];
        assert(s.fits(dim));
        let x = session_nodes(ss, m);
        let node = session_node(s);
        let y = document_nodes(s, s.documents.len());
        let before = a + cleared(ss.take(m as int));
        let opened = before.push(
            SessionModel { documents: Seq::empty(), dirty: false, ..s },
        );
        lemma_extended_concat(Ok(a), x, seq![node], 1, dim);
        assert(x.push(node) =~= x + seq![node]);
        assert(extended(Ok::<_, LoadError>(before), seq![node], 0, dim) == Ok::<_, LoadError>(
            before,
        ));
        assert(grown(before, node, dim) == Ok::<_, LoadError>(opened));
        lemma_documents_extend(opened, s, s.documents.len(), dim);
        lemma_extended_concat(Ok(a), x.push(node), y, y.len(), dim);
        assert(s.documents.take(s.documents.len() as int) =~= s.documents);
        let done = a + cleared(ss.take(n as int));
        assert(with_last_documents(
            opened,
            Seq::<DocumentModel>::empty() + cleared_documents(s.documents),
        ) =~= done) by {
            assert(Seq::<DocumentModel>::empty() + cleared_documents(s.documents)
                =~= cleared_documents(s.documents));
            assert(ss.take(n as int)[n - 1] == s);
        }
    }
}

/// The nodes of a tree make that tree again, with every mark taken off.
pub proof fn lemma_tree_round_trip(sessions: Seq<SessionModel>, dim: nat)
    requires
        forall|i: int| 0 <= i < sessions.len() ==> (#[trigger] sessions[i]).fits(dim),
    ensures
        assembled(
            session_nodes(sessions, sessions.len()),
            session_nodes(sessions, sessions.len()).len(),
            dim,
        ) == Ok::<_, LoadError>(cleared(sessions)),
{
    let nodes = session_nodes(sessions, sessions.len());
    lemma_assembled_is_extended(nodes, nodes.len(), dim);
    lemma_sessions_extend(Seq::empty(), sessions, sessions.len(), dim);
    assert(sessions.take(sessions.len() as int) =~= sessions);
    assert(Seq::<SessionModel>::empty() + cleared(sessions) =~= cleared(sessions));
}

/// Whether each of `nodes` has a vector of `dim` components.
pub open spec fn all_nodes_long(nodes: Seq<NodeModel>, dim: nat) -> bool {
    forall|i: int| 0 <= i < nodes.len() ==> (#[trigger] nodes[i]).vector.len() == dim
}

/// The nodes of the chunks of a document have its dimensionality.
proof fn lemma_chunk_nodes_long(d: DocumentModel, n: nat, dim: nat)
    requires
        n <= d.chunks.len(),
        d.fits(dim),
    ensures
        all_nodes_long(chunk_nodes(d, n), dim),
    decreases n,
{
    if n > 0 {
        lemma_chunk_nodes_long(d, (n - 1) as nat, dim);
        assert(d.chunks[n - 1].vector.len() == dim);
    }
}

/// The nodes of the documents of a session have its dimensionality.
proof fn lemma_document_nodes_long(s: SessionModel, n: nat, dim: nat)
    requires
        n <= s.documents.len(),
        s.fits(dim),
    ensures
        all_nodes_long(document_nodes(s, n), dim),
    decreases n,
{
    if n > 0 {
        lemma_document_nodes_long(s, (n - 1) as nat, dim);
        let d = s.documents[n - 1];
        assert(d.fits(dim));
        lemma_chunk_nodes_long(d, d.chunks.len(), dim);
    }
}

/// The nodes of a tree have its dimensionality.
proof fn lemma_session_nodes_long(sessions: Seq<SessionModel>, n: nat, dim: nat)
    requires
        n <= sessions.len(),
        forall|i: int| 0 <= i < sessions.len() ==> (#[trigger] sessions[i]).fits(dim),
    ensures
        all_nodes_long(session_nodes(sessions, n), dim),
    decreases n,
{
    if n > 0 {
        lemma_session_nodes_long(sessions, (n - 1) as nat, dim);
        let s = sessions[n - 1];
        assert(s.fits(dim));
        lemma_document_nodes_long(s, s.documents.len(), dim);
    }
}

/// An index comes back from its file: the bytes that a consistent index is
/// written as, with payloads that fit, are read as the snapshot that was
/// written, and that snapshot makes the tree of the index again, with every
/// mark taken off.
pub proof fn lemma_index_round_trip(
    index: HatIndex,
    normalize_on_insert: bool,
    payloads: Seq<(Id, Seq<u8>)>,
)
    requires
        index.wf(),
        index.header(normalize_on_insert).is_some(),
        index.nodes().len() <= u32::MAX,
        payloads.len() <= u32::MAX,
        forall|i: int| 0 <= i < payloads.len() ==> (#[trigger] payloads[i]).1.len() <= u32::MAX,
    ensures
        ({
            let header = index.header(normalize_on_insert).unwrap();
            let written = SnapshotModel { header, nodes: index.nodes(), payloads };
            &&& SnapshotModel::parse(written.encode()) == Ok::<_, LoadError>(written)
            &&& assembled(written.nodes, written.nodes.len(), header.dim as nat) == Ok::<
                _,
                LoadError,
            >(cleared(index@.sessions))
        }),
{
    let header = index.header(normalize_on_insert).unwrap();
    let written = SnapshotModel { header, nodes: index.nodes(), payloads };
    let sessions = index@.sessions;
    lemma_session_nodes_long(sessions, sessions.len(), index.dim());
    lemma_snapshot_round_trip(written);
    lemma_tree_round_trip(sessions, index.dim());
}

} // verus!
