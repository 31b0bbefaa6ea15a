use arms_hat::{
    Arith, HatConfig, HatIndex, Header, Id, LoadError, Metric, Node, Point, Snapshot,
};

struct Ieee;

fn word(x: f32) -> u32 {
    if x.is_nan() {
        0x7fc0_0000
    } else {
        x.to_bits()
    }
}

impl Arith for Ieee {
    fn sum_spec(&self, a: u32, b: u32) -> u32 {
        self.sum(a, b)
    }

    fn diff_spec(&self, a: u32, b: u32) -> u32 {
        self.diff(a, b)
    }

    fn prod_spec(&self, a: u32, b: u32) -> u32 {
        self.prod(a, b)
    }

    fn quot_spec(&self, a: u32, b: u32) -> u32 {
        self.quot(a, b)
    }

    fn sqrt_spec(&self, a: u32) -> u32 {
        self.sqrt(a)
    }

    fn count_spec(&self, n: u64) -> u32 {
        self.from_count(n)
    }

    fn decay_spec(&self, age_ms: u64, span_ms: u64) -> u32 {
        self.decay(age_ms, span_ms)
    }

    fn sum(&self, a: u32, b: u32) -> u32 {
        word(f32::from_bits(a) + f32::from_bits(b))
    }

    fn diff(&self, a: u32, b: u32) -> u32 {
        word(f32::from_bits(a) - f32::from_bits(b))
    }

    fn prod(&self, a: u32, b: u32) -> u32 {
        word(f32::from_bits(a) * f32::from_bits(b))
    }

    fn quot(&self, a: u32, b: u32) -> u32 {
        word(f32::from_bits(a) / f32::from_bits(b))
    }

    fn sqrt(&self, a: u32) -> u32 {
        word(f32::from_bits(a).sqrt())
    }

    fn from_count(&self, n: u64) -> u32 {
        word(n as f32)
    }

    fn decay(&self, age_ms: u64, span_ms: u64) -> u32 {
        word((-(age_ms as f32) / (span_ms as f32)).exp())
    }
}

fn point(v: &[f32]) -> Point {
    Point::new(v.iter().map(|x| x.to_bits()).collect())
}

fn number(w: u32) -> f32 {
    f32::from_bits(w)
}


fn id(n: u64) -> Id {
    Id::from_parts(1_700_000_000_000, n)
}

fn sample() -> HatIndex {
    let config = HatConfig::new().with_beam_width(2).with_temporal_weight(0.25f32.to_bits());
    let mut index = HatIndex::new(2, Metric::Euclidean, config);
    index.add_with(&Ieee, id(1), &point(&[1.0, 0.0]), id(100), id(200)).unwrap();
    index.add_with(&Ieee, id(2), &point(&[3.0, 2.0]), id(100), id(200)).unwrap();
    index.new_document();
    index.add_with(&Ieee, id(3), &point(&[0.0, 5.0]), id(100), id(201)).unwrap();
    index.new_session();
    index.add_with(&Ieee, id(4), &point(&[-1.0, -1.0]), id(101), id(202)).unwrap();
    index
}

#[test]
fn check_value_of_the_digits() {
    assert_eq!(arms_hat::crc::checksum(b"123456789"), 0xcbf4_3926);
    assert_eq!(arms_hat::crc::checksum(b""), 0);
    assert_eq!(arms_hat::crc::checksum(b"a"), 0xe8b7_be43);
}

#[test]
fn one_changed_byte_is_noticed() {
    let index = sample();
    let bytes = index.to_bytes().unwrap();
    assert!(HatIndex::from_bytes(&bytes).is_ok());
    for at in 8..bytes.len() {
        let mut changed = bytes.clone();
        changed[at] ^= 0x10;
        assert_eq!(HatIndex::from_bytes(&changed).err(), Some(LoadError::BadChecksum), "byte {}", at);
    }
    let mut changed = bytes.clone();
    changed[0] = b'Z';
    assert_eq!(HatIndex::from_bytes(&changed).err(), Some(LoadError::BadMagic));
    let mut changed = bytes.clone();
    changed[4] = 2;
    assert_eq!(HatIndex::from_bytes(&changed).err(), Some(LoadError::UnsupportedVersion(2)));
    assert_eq!(HatIndex::from_bytes(&bytes[..11]).err(), Some(LoadError::Truncated));
    assert_eq!(
        HatIndex::from_bytes(&bytes[..bytes.len() - 1]).err(),
        Some(LoadError::BadChecksum)
    );
}

#[test]
fn an_index_comes_back_from_its_file() {
    let index = sample();
    let bytes = index.to_bytes().unwrap();
    let back = HatIndex::from_bytes(&bytes).unwrap();
    assert_eq!(back.dimensionality(), 2);
    assert_eq!(back.config().beam_width, 2);
    assert_eq!(back.config().temporal_weight, 0.25f32.to_bits());
    assert_eq!(back.config().merge_cap, 256);
    assert_eq!(back.stats(), index.stats());
    assert_eq!(back.current_session(), None);
    assert_eq!(back.to_bytes().unwrap(), bytes);
    let q = point(&[1.0, 1.0]);
    assert_eq!(back.near_at(&Ieee, &q, 4, 0).unwrap(), index.near_at(&Ieee, &q, 4, 0).unwrap());
    let docs = back.near_documents(&Ieee, id(100), &q, 5).unwrap();
    assert_eq!(docs.len(), 2);
    assert_eq!(docs[0].id, id(200));
    assert_eq!(number(docs[0].score), -1.0);
    assert_eq!(docs[0].chunk_count, 2);
}

#[test]
fn file_layout_is_exact() {
    let mut index = HatIndex::new(1, Metric::Dot, HatConfig::new());
    let (s, d, c) = (Id::from_parts(1, 2), Id::from_parts(3, 4), Id::from_parts(5, 6));
    index.add_with(&Ieee, c, &point(&[2.0]), s, d).unwrap();
    let snapshot = index.snapshot(true, vec![(c, vec![7, 8, 9])]).unwrap();
    let bytes = snapshot.to_bytes();
    let mut expected: Vec<u8> = Vec::new();
    expected.extend_from_slice(b"HATX");
    expected.extend_from_slice(&1u32.to_le_bytes());
    expected.extend_from_slice(&1u32.to_le_bytes());
    expected.push(2);
    expected.push(1);
    expected.extend_from_slice(&3u32.to_le_bytes());
    expected.extend_from_slice(&0.0f32.to_le_bytes());
    expected.extend_from_slice(&0.001f32.to_le_bytes());
    expected.extend_from_slice(&3u32.to_le_bytes());
    let nil = [0u8; 16];
    let node = |level: u8, id: Id, parent: &[u8], ts: u64, out: &mut Vec<u8>| {
        out.push(level);
        out.extend_from_slice(&id.as_bytes());
        out.extend_from_slice(parent);
        out.extend_from_slice(&ts.to_le_bytes());
        out.extend_from_slice(&1u32.to_le_bytes());
        out.extend_from_slice(&2.0f32.to_le_bytes());
    };
    node(0, s, &nil, 1, &mut expected);
    node(1, d, &s.as_bytes(), 3, &mut expected);
    node(2, c, &d.as_bytes(), 5, &mut expected);
    expected.extend_from_slice(&1u32.to_le_bytes());
    expected.extend_from_slice(&c.as_bytes());
    expected.extend_from_slice(&3u32.to_le_bytes());
    expected.extend_from_slice(&[7, 8, 9]);
    let check = arms_hat::crc::checksum(&expected);
    expected.extend_from_slice(&check.to_le_bytes());
    assert_eq!(bytes, expected);
    let back = Snapshot::from_bytes(&bytes).unwrap();
    assert!(back.header.normalize_on_insert);
    assert_eq!(back.payloads, vec![(c, vec![7, 8, 9])]);
    assert_eq!(back.nodes.len(), 3);
}

fn file_of(nodes: Vec<Node>, dim: u32) -> Vec<u8> {
    let header = Header {
        dim,
        metric: Metric::Cosine,
        normalize_on_insert: false,
        beam_width: 3,
        temporal_weight: 0,
        propagation_threshold: 0,
    };
    Snapshot { header, nodes, payloads: Vec::new() }.to_bytes()
}

fn node(level: u8, id: Id, parent: Id) -> Node {
    Node { level, id, parent, timestamp_ms: 0, count: 0, vector: vec![0] }
}

#[test]
fn trees_that_do_not_hang_together_are_refused() {
    let (s, d, c) = (id(1), id(2), id(3));
    let good = file_of(vec![node(0, s, Id::nil()), node(1, d, s), node(2, c, d)], 1);
    assert_eq!(HatIndex::from_bytes(&good).unwrap().stats().chunk_count, 1);
    let orphan = file_of(vec![node(0, s, Id::nil()), node(1, d, c)], 1);
    assert_eq!(HatIndex::from_bytes(&orphan).err(), Some(LoadError::Orphan(d)));
    let early = file_of(vec![node(2, c, d)], 1);
    assert_eq!(HatIndex::from_bytes(&early).err(), Some(LoadError::Orphan(c)));
    let own = file_of(vec![node(0, s, s)], 1);
    assert_eq!(HatIndex::from_bytes(&own).err(), Some(LoadError::Orphan(s)));
    let level = file_of(vec![node(3, s, Id::nil())], 1);
    assert_eq!(HatIndex::from_bytes(&level).err(), Some(LoadError::BadLevel(3)));
    let wide = file_of(vec![node(0, s, Id::nil())], 2);
    assert_eq!(HatIndex::from_bytes(&wide).err(), Some(LoadError::Truncated));
    let mut metric = file_of(vec![], 1);
    metric[12] = 9;
    let n = metric.len() - 4;
    let check = arms_hat::crc::checksum(&metric[..n]);
    metric[n..].copy_from_slice(&check.to_le_bytes());
    assert_eq!(HatIndex::from_bytes(&metric).err(), Some(LoadError::BadMetric(9)));
    let mut trailing = file_of(vec![], 1);
    let n = trailing.len() - 4;
    trailing.truncate(n);
    trailing.push(0);
    let check = arms_hat::crc::checksum(&trailing);
    trailing.extend_from_slice(&check.to_le_bytes());
    assert_eq!(HatIndex::from_bytes(&trailing).err(), Some(LoadError::Trailing));
    let snapshot = Snapshot {
        header: Header {
            dim: 2,
            metric: Metric::Cosine,
            normalize_on_insert: false,
            beam_width: 3,
            temporal_weight: 0,
            propagation_threshold: 0,
        },
        nodes: vec![node(0, s, Id::nil())],
        payloads: Vec::new(),
    };
    assert_eq!(
        HatIndex::restore(&snapshot).err(),
        Some(LoadError::DimensionMismatch { expected: 2, got: 1 })
    );
}

#[test]
fn consolidation_orders_and_settles() {
    let mut index = HatIndex::new(1, Metric::Dot, HatConfig::new());
    let s = id(100);
    let (old_doc, new_doc) = (Id::from_parts(10, 0), Id::from_parts(20, 0));
    for i in 0..20u64 {
        index.add_with(&Ieee, Id::from_parts(i, i), &point(&[i as f32]), s, old_doc).unwrap();
    }
    index.new_document();
    index.add_with(&Ieee, Id::from_parts(50, 50), &point(&[100.0]), s, new_doc).unwrap();
    // Seventeen chunks remain in the first document, so its centroid is
    // moved step by step and the document is marked.
    for i in [3u64, 7, 11] {
        assert!(index.remove(&Ieee, Id::from_parts(i, i)));
    }
    index.consolidate_light(&Ieee);
    let once = index.to_bytes().unwrap();
    index.consolidate_light(&Ieee);
    assert_eq!(index.to_bytes().unwrap(), once);
    let docs = index.near_documents(&Ieee, s, &point(&[1.0]), 2).unwrap();
    assert_eq!(docs[0].id, new_doc);
    assert_eq!(docs[1].id, old_doc);
    let kept: Vec<f32> = (0..20).filter(|i| ![3, 7, 11].contains(i)).map(|i| i as f32).collect();
    let mut sum = 0.0f32;
    for x in kept.iter().rev() {
        sum += x;
    }
    assert_eq!(number(docs[1].score), sum / 17.0);
    let snapshot = index.snapshot(false, Vec::new()).unwrap();
    // Session, newer document with its chunk, older document, then its
    // chunks from the latest to the earliest.
    assert_eq!(snapshot.nodes[1].id, new_doc);
    assert_eq!(snapshot.nodes[3].id, old_doc);
    assert_eq!(snapshot.nodes[4].id, Id::from_parts(19, 19));
    assert_eq!(snapshot.nodes[20].id, Id::from_parts(0, 0));
    assert_eq!(index.stats().chunk_count, 18);
}

#[test]
fn full_consolidation_merges_and_splits() {
    assert_eq!(arms_hat::hat::CLOSE, 0.98f32.to_bits());
    let mut index = HatIndex::cosine(2);
    let s = id(100);
    let (a, b, c) = (Id::from_parts(30, 0), Id::from_parts(20, 0), Id::from_parts(10, 0));
    index.add_with(&Ieee, id(1), &point(&[1.0, 0.0]), s, a).unwrap();
    index.new_document();
    index.add_with(&Ieee, id(2), &point(&[1.0, 0.01]), s, b).unwrap();
    index.new_document();
    index.add_with(&Ieee, id(3), &point(&[0.0, 1.0]), s, c).unwrap();
    assert_eq!(index.stats().document_count, 3);
    index.consolidate(&Ieee, arms_hat::Consolidation::Full);
    let stats = index.stats();
    assert_eq!((stats.session_count, stats.document_count, stats.chunk_count), (1, 2, 3));
    let docs = index.near_documents(&Ieee, s, &point(&[1.0, 0.0]), 5).unwrap();
    assert_eq!(docs[0].id, a);
    assert_eq!(docs[0].chunk_count, 2);
    assert_eq!(docs[1].id, c);

    let config = HatConfig { split_cap: 3, ..HatConfig::new() };
    let mut index = HatIndex::cosine(2).with_config(config);
    let d = Id::from_parts(5, 7);
    for i in 0..3u64 {
        index.add_with(&Ieee, id(i), &point(&[1.0, 0.001 * i as f32]), s, d).unwrap();
    }
    for i in 3..5u64 {
        index.add_with(&Ieee, id(i), &point(&[0.001 * i as f32, 1.0]), s, d).unwrap();
    }
    index.consolidate_full(&Ieee);
    let stats = index.stats();
    assert_eq!((stats.session_count, stats.document_count, stats.chunk_count), (1, 2, 5));
    let docs = index.near_documents(&Ieee, s, &point(&[1.0, 0.0]), 5).unwrap();
    assert_eq!(docs[0].id, d);
    assert_eq!(docs[0].chunk_count, 3);
    assert_eq!(docs[1].id, Id::from_parts(5, 8));
    assert_eq!(docs[1].chunk_count, 2);
    let found = index.near_in_document(&Ieee, Id::from_parts(5, 8), &point(&[0.0, 1.0]), 5).unwrap();
    assert_eq!(found.len(), 2);
}

#[test]
fn a_file_of_another_dimensionality_is_refused() {
    let bytes = sample().to_bytes().unwrap();
    assert_eq!(HatIndex::from_bytes_for(&bytes, 2).unwrap().stats().chunk_count, 4);
    assert_eq!(
        HatIndex::from_bytes_for(&bytes, 3).err(),
        Some(LoadError::DimensionMismatch { expected: 3, got: 2 })
    );
}
