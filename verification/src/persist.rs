//! The persistence file: a snapshot of a hierarchical index as bytes.
//!
//! The file opens with the magic `HATX` and a version and closes with the
//! check value of all that stands before it. In between stand the
//! settings, the nodes of the tree in pre-order, and the payloads of the
//! chunks. All integers are little-endian except the bytes of an
//! identifier.

use vstd::prelude::*;
use crate::attention::{
    read_u32, read_words, take_words, put_words, words, len32, block32, read_block32, Block,
    take_block32, put_block32,
};
use crate::crc::{crc32, checksum};
use crate::id::Id;
use crate::kernel::Metric;
use crate::wire::{le32, le64, le32_value, le64_value, put_u32, put_u64, Reader};

verus! {

/// Why bytes were refused as a persistence file.
#[derive(Debug, Clone, Copy, PartialEq, Eq, Structural)]
pub enum LoadError {
    /// The bytes end too early.
    Truncated,
    /// The bytes do not open with the magic.
    BadMagic,
    /// The bytes are of a version that is not read here.
    UnsupportedVersion(u32),
    /// The check value does not match the bytes.
    BadChecksum,
    /// The byte stands for no metric.
    BadMetric(u8),
    /// A vector has another dimensionality than the one expected.
    DimensionMismatch { expected: usize, got: usize },
    /// The byte stands for no level of the tree.
    BadLevel(u8),
    /// The node under this identifier does not stand below its parent.
    Orphan(Id),
    /// Bytes stand between the last payload and the check value.
    Trailing,
}

/// The settings that a file carries.
#[derive(Debug, Clone, Copy, PartialEq, Eq, Structural)]
pub struct Header {
    /// The dimensionality of every vector.
    pub dim: u32,
    /// How vectors are compared.
    pub metric: Metric,
    /// Whether vectors are brought to length one before they are added.
    pub normalize_on_insert: bool,
    /// The beam width of a search.
    pub beam_width: u32,
    /// The temporal weight, as a word.
    pub temporal_weight: u32,
    /// The propagation threshold, as a word.
    pub propagation_threshold: u32,
}

/// A node of the tree as the file holds it.
#[derive(Debug)]
pub struct Node {
    /// Zero for a session, one for a document, two for a chunk.
    pub level: u8,
    /// The identifier of the node.
    pub id: Id,
    /// The identifier of the node above; all zero for a session.
    pub parent: Id,
    /// When the node was made.
    pub timestamp_ms: u64,
    /// The number of chunks below the node.
    pub count: u32,
    /// The centroid of the node; for a chunk, its vector.
    pub vector: Vec<u32>,
}

/// What a [`Node`] holds.
pub struct NodeModel {
    pub level: u8,
    pub id: Id,
    pub parent: Id,
    pub timestamp_ms: u64,
    pub count: u32,
    pub vector: Seq<u32>,
}

impl View for Node {
    type V = NodeModel;

    open spec fn view(&self) -> NodeModel {
        NodeModel {
            level: self.level,
            id: self.id,
            parent: self.parent,
            timestamp_ms: self.timestamp_ms,
            count: self.count,
            vector: self.vector@,
        }
    }
}

/// What a file holds.
#[derive(Debug)]
pub struct Snapshot {
    /// The settings.
    pub header: Header,
    /// The nodes of the tree in pre-order: each session before its
    /// documents, each document before its chunks.
    pub nodes: Vec<Node>,
    /// The payloads of the chunks by identifier.
    pub payloads: Vec<(Id, Vec<u8>)>,
}

/// What a [`Snapshot`] holds.
pub struct SnapshotModel {
    pub header: Header,
    pub nodes: Seq<NodeModel>,
    pub payloads: Seq<(Id, Seq<u8>)>,
}

/// What each of the nodes holds.
pub open spec fn node_models(nodes: Seq<Node>) -> Seq<NodeModel> {
    Seq::new(nodes.len(), |i: int| nodes[i]@)
}

/// What each of the payloads holds.
pub open spec fn payload_models(payloads: Seq<(Id, Vec<u8>)>) -> Seq<(Id, Seq<u8>)> {
    Seq::new(payloads.len(), |i: int| (payloads[i].0, payloads[i].1@))
}

impl View for Snapshot {
    type V = SnapshotModel;

    open spec fn view(&self) -> SnapshotModel {
        SnapshotModel {
            header: self.header,
            nodes: node_models(self.nodes@),
            payloads: payload_models(self.payloads@),
        }
    }
}

/// The magic of the file.
pub open spec fn file_magic() -> Seq<u8> {
    seq![0x48u8, 0x41u8, 0x54u8, 0x58u8]
}

/// The byte that stands for a metric.
pub open spec fn metric_code(m: Metric) -> u8 {
    match m {
        Metric::Cosine => 0,
        Metric::Euclidean => 1,
        Metric::Dot => 2,
    }
}

/// The metric that a byte stands for.
pub open spec fn metric_of(b: u8) -> Option<Metric> {
    if b == 0 {
        Some(Metric::Cosine)
    } else if b == 1 {
        Some(Metric::Euclidean)
    } else if b == 2 {
        Some(Metric::Dot)
    } else {
        None
    }
}

/// The bytes of the settings.
#[verifier::opaque]
pub open spec fn encode_header(h: Header) -> Seq<u8> {
    le32(h.dim) + seq![metric_code(h.metric)] + seq![if h.normalize_on_insert { 1u8 } else { 0u8 }]
        + le32(h.beam_width) + le32(h.temporal_weight) + le32(h.propagation_threshold)
}

/// The bytes of a node.
#[verifier::opaque]
pub open spec fn encode_node(n: NodeModel) -> Seq<u8> {
    seq![n.level] + n.id.bytes() + n.parent.bytes() + le64(n.timestamp_ms) + le32(n.count) + words(
        n.vector,
    )
}

/// The bytes of the first `n` of `nodes`, one node after the other.
pub open spec fn encode_nodes(nodes: Seq<NodeModel>, n: nat) -> Seq<u8>
    decreases n,
{
    if n == 0 {
        Seq::empty()
    } else {
        encode_nodes(nodes, (n - 1) as nat) + encode_node(nodes[n - 1])
    }
}

/// The bytes of the first `n` of `payloads`, each with its identifier and
/// its length in front.
pub open spec fn encode_payloads(payloads: Seq<(Id, Seq<u8>)>, n: nat) -> Seq<u8>
    decreases n,
{
    if n == 0 {
        Seq::empty()
    } else {
        encode_payloads(payloads, (n - 1) as nat) + payloads[n - 1].0.bytes() + block32(
            payloads[n - 1].1,
        )
    }
}

impl SnapshotModel {
    /// The bytes of the file before the check value.
    pub open spec fn body(self) -> Seq<u8> {
        file_magic() + le32(1) + encode_header(self.header) + le32(len32(self.nodes.len()))
            + encode_nodes(self.nodes, self.nodes.len()) + le32(len32(self.payloads.len()))
            + encode_payloads(self.payloads, self.payloads.len())
    }

    /// The bytes of the file: the body and its check value.
    pub open spec fn encode(self) -> Seq<u8> {
        self.body() + le32(crc32(self.body()))
    }
}

/// The settings at the front of `s`, and what follows them.
#[verifier::opaque]
pub open spec fn parse_settings(s: Seq<u8>) -> Result<(Header, Seq<u8>), LoadError> {
    if s.len() < 18 {
        Err(LoadError::Truncated)
    } else {
        match metric_of(s[4]) {
            None => Err(LoadError::BadMetric(s[4])),
            Some(metric) => Ok(
                (
                    Header {
                        dim: le32_value(s),
                        metric,
                        normalize_on_insert: s[5] != 0,
                        beam_width: le32_value(s.skip(6)),
                        temporal_weight: le32_value(s.skip(10)),
                        propagation_threshold: le32_value(s.skip(14)),
                    },
                    s.skip(18),
                ),
            ),
        }
    }
}

/// The node of `dim` dimensions at the front of `s`, and what follows it.
#[verifier::opaque]
pub open spec fn parse_node(s: Seq<u8>, dim: nat) -> Option<(NodeModel, Seq<u8>)> {
    if s.len() < 45 {
        None
    } else {
        match read_words(s.skip(45), dim) {
            None => None,
            Some((vector, rest)) => Some(
                (
                    NodeModel {
                        level: s[0],
                        id: Id::of_bytes(s.skip(1)),
                        parent: Id::of_bytes(s.skip(17)),
                        timestamp_ms: le64_value(s.skip(33)),
                        count: le32_value(s.skip(41)),
                        vector,
                    },
                    rest,
                ),
            ),
        }
    }
}

/// `acc` followed by the `n` nodes at the front of `s`, and what follows them.
pub open spec fn parse_nodes(s: Seq<u8>, n: nat, dim: nat, acc: Seq<NodeModel>) -> Option<
    (Seq<NodeModel>, Seq<u8>),
>
    decreases n,
{
    if n == 0 {
        Some((acc, s))
    } else {
        match parse_node(s, dim) {
            None => None,
            Some((node, rest)) => parse_nodes(rest, (n - 1) as nat, dim, acc.push(node)),
        }
    }
}

/// `acc` followed by the `n` payloads at the front of `s`, and what follows
/// them.
pub open spec fn parse_payloads(s: Seq<u8>, n: nat, acc: Seq<(Id, Seq<u8>)>) -> Option<
    (Seq<(Id, Seq<u8>)>, Seq<u8>),
>
    decreases n,
{
    if n == 0 {
        Some((acc, s))
    } else if s.len() < 16 {
        None
    } else {
        match read_block32(s.skip(16)) {
            Block::Whole(payload, rest) => parse_payloads(
                rest,
                (n - 1) as nat,
                acc.push((Id::of_bytes(s), payload)),
            ),
            _ => None,
        }
    }
}

/// What stands between the version and the check value.
pub open spec fn parse_content(s: Seq<u8>) -> Result<SnapshotModel, LoadError> {
    match parse_settings(s) {
        Err(e) => Err(e),
        Ok((header, rest1)) => match read_u32(rest1) {
            None => Err(LoadError::Truncated),
            Some((node_count, rest2)) => match parse_nodes(
                rest2,
                node_count as nat,
                header.dim as nat,
                Seq::empty(),
            ) {
                None => Err(LoadError::Truncated),
                Some((nodes, rest3)) => match read_u32(rest3) {
                    None => Err(LoadError::Truncated),
                    Some((payload_count, rest4)) => match parse_payloads(
                        rest4,
                        payload_count as nat,
                        Seq::empty(),
                    ) {
                        None => Err(LoadError::Truncated),
                        Some((payloads, rest5)) => if rest5.len() != 0 {
                            Err(LoadError::Trailing)
                        } else {
                            Ok(SnapshotModel { header, nodes, payloads })
                        },
                    },
                },
            },
        },
    }
}

impl SnapshotModel {
    /// What the file `s` holds, or why `s` is no file: magic and version
    /// are looked at first, then the check value, then the rest.
    pub open spec fn parse(s: Seq<u8>) -> Result<SnapshotModel, LoadError> {
        if s.len() < 12 {
            Err(LoadError::Truncated)
        } else if s.take(4) != file_magic() {
            Err(LoadError::BadMagic)
        } else if le32_value(s.skip(4)) != 1 {
            Err(LoadError::UnsupportedVersion(le32_value(s.skip(4))))
        } else if crc32(s.take(s.len() - 4)) != le32_value(s.skip(s.len() - 4)) {
            Err(LoadError::BadChecksum)
        } else {
            parse_content(s.take(s.len() - 4).skip(8))
        }
    }
}

/// The byte that stands for a metric.
pub fn metric_byte(m: Metric) -> (b: u8)
    ensures
        b == metric_code(m),
        metric_of(b) == Some(m),
{
    match m {
        Metric::Cosine => 0,
        Metric::Euclidean => 1,
        Metric::Dot => 2,
    }
}

/// The metric that a byte stands for.
pub fn metric_from_byte(b: u8) -> (m: Option<Metric>)
    ensures
        m == metric_of(b),
{
    if b == 0 {
        Some(Metric::Cosine)
    } else if b == 1 {
        Some(Metric::Euclidean)
    } else if b == 2 {
        Some(Metric::Dot)
    } else {
        None
    }
}

/// Reads the settings.
fn take_settings(r: &mut Reader) -> (out: Result<Header, LoadError>)
    ensures
        match out {
            Ok(h) => parse_settings(old(r).rest()) == Ok::<_, LoadError>((h, final(r).rest())),
            Err(e) => parse_settings(old(r).rest()) == Err::<(Header, Seq<u8>), _>(e),
        },
{
    proof {
        reveal(parse_settings);
    }
    if r.remaining() < 18 {
        return Err(LoadError::Truncated);
    }
    let ghost s = r.rest();
    let dim = r.u32().unwrap();
    let code = r.u8().unwrap();
    let flag = r.u8().unwrap();
    assert(code == s[4] && flag == s[5]);
    let metric = match metric_from_byte(code) {
        Some(m) => m,
        None => { return Err(LoadError::BadMetric(code)); },
    };
    assert(r.rest() =~= s.skip(6));
    let beam_width = r.u32().unwrap();
    assert(r.rest() =~= s.skip(10));
    let temporal_weight = r.u32().unwrap();
    assert(r.rest() =~= s.skip(14));
    let propagation_threshold = r.u32().unwrap();
    assert(r.rest() =~= s.skip(18));
    Ok(
        Header {
            dim,
            metric,
            normalize_on_insert: flag != 0,
            beam_width,
            temporal_weight,
            propagation_threshold,
        },
    )
}

/// Reads a node of `dim` dimensions.
fn take_node(r: &mut Reader, dim: u32) -> (out: Option<Node>)
    ensures
        match out {
            Some(n) => parse_node(old(r).rest(), dim as nat) == Some((n@, final(r).rest())),
            None => parse_node(old(r).rest(), dim as nat).is_none(),
        },
{
    proof {
        reveal(parse_node);
    }
    if r.remaining() < 45 {
        return None;
    }
    let ghost s = r.rest();
    let level = r.u8().unwrap();
    let id = Id::read_from(r).unwrap();
    assert(r.rest() =~= s.skip(17));
    let parent = Id::read_from(r).unwrap();
    assert(r.rest() =~= s.skip(33));
    let timestamp_ms = r.u64().unwrap();
    assert(r.rest() =~= s.skip(41));
    let count = r.u32().unwrap();
    assert(r.rest() =~= s.skip(45));
    match take_words(r, dim) {
        None => None,
        Some(vector) => Some(Node { level, id, parent, timestamp_ms, count, vector }),
    }
}

/// Reads `n` nodes of `dim` dimensions.
fn take_nodes(r: &mut Reader, n: u32, dim: u32) -> (out: Option<Vec<Node>>)
    ensures
        match out {
            Some(nodes) => parse_nodes(old(r).rest(), n as nat, dim as nat, Seq::empty()) == Some(
                (node_models(nodes@), final(r).rest()),
            ),
            None => parse_nodes(old(r).rest(), n as nat, dim as nat, Seq::empty()).is_none(),
        },
{
    let mut nodes: Vec<Node> = Vec::new();
    let mut left: u32 = n;
    assert(node_models(nodes@) =~= Seq::empty());
    while left > 0
        invariant
            parse_nodes(r.rest(), left as nat, dim as nat, node_models(nodes@)) == parse_nodes(
                old(r).rest(),
                n as nat,
                dim as nat,
                Seq::empty(),
            ),
        decreases left,
    {
        let node = match take_node(r, dim) {
            Some(node) => node,
            None => { return None; },
        };
        let ghost before = node_models(nodes@);
        nodes.push(node);
        assert(node_models(nodes@) =~= before.push(node@));
        left = left - 1;
    }
    Some(nodes)
}

/// Reads `n` payloads.
fn take_payloads(r: &mut Reader, n: u32) -> (out: Option<Vec<(Id, Vec<u8>)>>)
    ensures
        match out {
            Some(payloads) => parse_payloads(old(r).rest(), n as nat, Seq::empty()) == Some(
                (payload_models(payloads@), final(r).rest()),
            ),
            None => parse_payloads(old(r).rest(), n as nat, Seq::empty()).is_none(),
        },
{
    let mut payloads: Vec<(Id, Vec<u8>)> = Vec::new();
    let mut left: u32 = n;
    assert(payload_models(payloads@) =~= Seq::empty());
    while left > 0
        invariant
            parse_payloads(r.rest(), left as nat, payload_models(payloads@)) == parse_payloads(
                old(r).rest(),
                n as nat,
                Seq::empty(),
            ),
        decreases left,
    {
        let id = match Id::read_from(r) {
            Some(id) => id,
            None => { return None; },
        };
        let payload = match take_block32(r) {
            Ok(b) => vstd::slice::slice_to_vec(b),
            Err(_) => { return None; },
        };
        let ghost before = payload_models(payloads@);
        payloads.push((id, payload));
        assert(payload_models(payloads@) =~= before.push((id, payload@)));
        left = left - 1;
    }
    Some(payloads)
}

/// Reads what stands between the version and the check value.
fn take_content(r: &mut Reader) -> (out: Result<Snapshot, LoadError>)
    ensures
        match out {
            Ok(snapshot) => parse_content(old(r).rest()) == Ok::<_, LoadError>(snapshot@),
            Err(e) => parse_content(old(r).rest()) == Err::<SnapshotModel, _>(e),
        },
{
    let header = match take_settings(r) {
        Ok(h) => h,
        Err(e) => { return Err(e); },
    };
    let node_count = match r.u32() {
        Some(n) => n,
        None => { return Err(LoadError::Truncated); },
    };
    let nodes = match take_nodes(r, node_count, header.dim) {
        Some(nodes) => nodes,
        None => { return Err(LoadError::Truncated); },
    };
    let payload_count = match r.u32() {
        Some(n) => n,
        None => { return Err(LoadError::Truncated); },
    };
    let payloads = match take_payloads(r, payload_count) {
        Some(payloads) => payloads,
        None => { return Err(LoadError::Truncated); },
    };
    if r.remaining() != 0 {
        return Err(LoadError::Trailing);
    }
    Ok(Snapshot { header, nodes, payloads })
}

impl Snapshot {
    /// The snapshot as a file.
    pub fn to_bytes(&self) -> (bytes: Vec<u8>)
        ensures
            bytes@ == self@.encode(),
    {
        proof {
            reveal(encode_header);
            reveal(encode_node);
        }
        let mut bytes: Vec<u8> = Vec::new();
        bytes.push(0x48);
        bytes.push(0x41);
        bytes.push(0x54);
        bytes.push(0x58);
        assert(bytes@ =~= file_magic());
        put_u32(&mut bytes, 1);
        let ghost front = bytes@;
        put_u32(&mut bytes, self.header.dim);
        bytes.push(metric_byte(self.header.metric));
        bytes.push(if self.header.normalize_on_insert { 1 } else { 0 });
        put_u32(&mut bytes, self.header.beam_width);
        put_u32(&mut bytes, self.header.temporal_weight);
        put_u32(&mut bytes, self.header.propagation_threshold);
        assert(bytes@ =~= front + encode_header(self.header));
        put_u32(&mut bytes, ((self.nodes.len() as u64) % 0x1_0000_0000) as u32);
        let ghost front = bytes@;
        let ghost nodes = self@.nodes;
        let mut i: usize = 0;
        while i < self.nodes.len()
            invariant
                i <= self.nodes@.len(),
                nodes == self@.nodes,
                bytes@ == front + encode_nodes(nodes, i as nat),
            decreases self.nodes.len() - i,
        {
            let ghost before = bytes@;
            let node = &self.nodes[i];
            bytes.push(node.level);
            node.id.write_to(&mut bytes);
            node.parent.write_to(&mut bytes);
            put_u64(&mut bytes, node.timestamp_ms);
            put_u32(&mut bytes, node.count);
            put_words(&mut bytes, &node.vector);
            proof {
                reveal(encode_node);
            }
            assert(bytes@ =~= before + encode_node(nodes[i as int]));
            assert(bytes@ =~= front + encode_nodes(nodes, (i + 1) as nat));
            i = i + 1;
        }
        put_u32(&mut bytes, ((self.payloads.len() as u64) % 0x1_0000_0000) as u32);
        let ghost front = bytes@;
        let ghost payloads = self@.payloads;
        let mut i: usize = 0;
        while i < self.payloads.len()
            invariant
                i <= self.payloads@.len(),
                payloads == self@.payloads,
                bytes@ == front + encode_payloads(payloads, i as nat),
            decreases self.payloads.len() - i,
        {
            self.payloads[i].0.write_to(&mut bytes);
            put_block32(&mut bytes, self.payloads[i].1.as_slice());
            assert(bytes@ =~= front + encode_payloads(payloads, (i + 1) as nat));
            i = i + 1;
        }
        assert(bytes@ == self@.body());
        let check = checksum(bytes.as_slice());
        put_u32(&mut bytes, check);
        bytes
    }

    /// Reads a file.
    pub fn from_bytes(data: &[u8]) -> (r: Result<Snapshot, LoadError>)
        ensures
            match r {
                Ok(snapshot) => SnapshotModel::parse(data@) == Ok::<_, LoadError>(snapshot@),
                Err(e) => SnapshotModel::parse(data@) == Err::<SnapshotModel, _>(e),
            },
    {
        if data.len() < 12 {
            return Err(LoadError::Truncated);
        }
        let body = vstd::slice::slice_subrange(data, 0, data.len() - 4);
        let tail = vstd::slice::slice_subrange(data, data.len() - 4, data.len());
        assert(body@ =~= data@.take(data@.len() - 4));
        assert(tail@ =~= data@.skip(data@.len() - 4));
        let mut r = Reader::new(body);
        let magic = r.take(4).unwrap();
        let same = magic[0] == 0x48 && magic[1] == 0x41 && magic[2] == 0x54 && magic[3] == 0x58;
        proof {
            assert(magic@ =~= data@.take(4));
            if same {
                assert(magic@ =~= file_magic());
            } else {
                assert(file_magic()[0] == 0x48 && file_magic()[1] == 0x41 && file_magic()[2] == 0x54
                    && file_magic()[3] == 0x58);
            }
        }
        if !same {
            return Err(LoadError::BadMagic);
        }
        let version = r.u32().unwrap();
        proof {
            assert(body@.skip(4)[0] == data@.skip(4)[0]);
            assert(body@.skip(4)[1] == data@.skip(4)[1]);
            assert(body@.skip(4)[2] == data@.skip(4)[2]);
            assert(body@.skip(4)[3] == data@.skip(4)[3]);
        }
        if version != 1 {
            return Err(LoadError::UnsupportedVersion(version));
        }
        let mut t = Reader::new(tail);
        let stored = t.u32().unwrap();
        if checksum(body) != stored {
            return Err(LoadError::BadChecksum);
        }
        assert(r.rest() =~= body@.skip(8));
        take_content(&mut r)
    }
}

} // verus!
