use arms_hat::{Arith, HatConfig, HatIndex, Id, Metric, NearError, Point};

struct Ieee;

fn word(x: f32) -> u32 {
    if x.is_nan() {
        0x7fc0_0000
    } else {
        x.to_bits()
    }
}

impl Arith for Ieee {
    fn sum_spec(&self, a: u32, b: u32) -> u32 {
        self.sum(a, b)
    }

    fn diff_spec(&self, a: u32, b: u32) -> u32 {
        self.diff(a, b)
    }

    fn prod_spec(&self, a: u32, b: u32) -> u32 {
        self.prod(a, b)
    }

    fn quot_spec(&self, a: u32, b: u32) -> u32 {
        self.quot(a, b)
    }

    fn sqrt_spec(&self, a: u32) -> u32 {
        self.sqrt(a)
    }

    fn count_spec(&self, n: u64) -> u32 {
        self.from_count(n)
    }

    fn decay_spec(&self, age_ms: u64, span_ms: u64) -> u32 {
        self.decay(age_ms, span_ms)
    }

    fn sum(&self, a: u32, b: u32) -> u32 {
        word(f32::from_bits(a) + f32::from_bits(b))
    }

    fn diff(&self, a: u32, b: u32) -> u32 {
        word(f32::from_bits(a) - f32::from_bits(b))
    }

    fn prod(&self, a: u32, b: u32) -> u32 {
        word(f32::from_bits(a) * f32::from_bits(b))
    }

    fn quot(&self, a: u32, b: u32) -> u32 {
        word(f32::from_bits(a) / f32::from_bits(b))
    }

    fn sqrt(&self, a: u32) -> u32 {
        word(f32::from_bits(a).sqrt())
    }

    fn from_count(&self, n: u64) -> u32 {
        word(n as f32)
    }

    fn decay(&self, age_ms: u64, span_ms: u64) -> u32 {
        word((-(age_ms as f32) / (span_ms as f32)).exp())
    }
}

fn point(v: &[f32]) -> Point {
    Point::new(v.iter().map(|x| x.to_bits()).collect())
}

fn number(w: u32) -> f32 {
    f32::from_bits(w)
}

fn id(n: u64) -> Id {
    Id::from_parts(1_700_000_000_000, n)
}

#[test]
fn nearest_in_one_session() {
    let mut index = HatIndex::cosine(3);
    index.new_session();
    let (a, b) = (id(1), id(2));
    index.add(&Ieee, a, &point(&[1.0, 0.0, 0.0])).unwrap();
    index.add(&Ieee, b, &point(&[0.0, 1.0, 0.0])).unwrap();

    let one = index.near(&Ieee, &point(&[1.0, 0.0, 0.0]), 1).unwrap();
    assert_eq!(one.len(), 1);
    assert_eq!(one[0].id, a);
    assert_eq!(number(one[0].score), 1.0);

    let two = index.near(&Ieee, &point(&[0.7, 0.7, 0.0]), 2).unwrap();
    assert_eq!(two.len(), 2);
    assert_eq!(two[0].id, a);
    assert_eq!(two[1].id, b);
    assert!((number(two[0].score) - 0.7071).abs() < 1e-4);
    assert!((number(two[1].score) - 0.7071).abs() < 1e-4);

    assert!(index.near(&Ieee, &point(&[1.0, 0.0, 0.0]), 0).unwrap().is_empty());
    let stats = index.stats();
    assert_eq!((stats.session_count, stats.document_count, stats.chunk_count), (1, 1, 2));
    assert_eq!(stats.global_count, 2);
    assert_eq!(index.len(), 2);
}

#[test]
fn documents_of_a_session() {
    let mut index = HatIndex::cosine(3);
    index.new_session();
    index.add(&Ieee, id(1), &point(&[1.0, 0.0, 0.0])).unwrap();
    let first = index.current_document().unwrap();
    index.new_document();
    assert_eq!(index.current_document(), None);
    index.add(&Ieee, id(2), &point(&[0.0, 1.0, 0.0])).unwrap();
    let second = index.current_document().unwrap();
    let session = index.current_session().unwrap();
    assert_ne!(first, second);

    let found = index.near_documents(&Ieee, session, &point(&[1.0, 0.0, 0.0]), 2).unwrap();
    assert_eq!(found.len(), 2);
    assert_eq!(found[0].id, first);
    assert_eq!(number(found[0].score), 1.0);
    assert_eq!(found[0].chunk_count, 1);
    assert_eq!(found[1].id, second);
    assert_eq!(number(found[1].score), 0.0);

    let sessions = index.near_sessions(&Ieee, &point(&[1.0, 1.0, 0.0]), 5).unwrap();
    assert_eq!(sessions.len(), 1);
    assert_eq!(sessions[0].id, session);
    assert_eq!(sessions[0].chunk_count, 2);
    assert!((number(sessions[0].score) - 1.0).abs() < 1e-6);

    let chunks = index.near_in_document(&Ieee, second, &point(&[0.0, 1.0, 0.0]), 1).unwrap();
    assert_eq!(chunks.len(), 1);
    assert_eq!(chunks[0].id, id(2));
    assert!(number(chunks[0].score) >= 1.0 - 1e-5);

    assert!(matches!(
        index.near_documents(&Ieee, id(99), &point(&[1.0, 0.0, 0.0]), 2),
        Err(NearError::NotFound(_))
    ));
    assert!(matches!(
        index.near_in_document(&Ieee, id(99), &point(&[1.0, 0.0, 0.0]), 2),
        Err(NearError::NotFound(_))
    ));
}

fn four_sessions(beam: usize) -> HatIndex {
    let mut index = HatIndex::cosine(3).with_config(HatConfig::new().with_beam_width(beam));
    let centres: [[f32; 3]; 4] =
        [[1.0, 0.0, 0.0], [-1.0, 0.0, 0.0], [0.0, 1.0, 0.0], [0.0, -1.0, 0.0]];
    for (s, centre) in centres.iter().enumerate() {
        index.new_session();
        for i in 0..25u64 {
            let wobble = 0.001 * (i as f32);
            let v = [centre[0], centre[1], centre[2] + wobble];
            let fresh_session = Id::from_parts(10 + s as u64, 0);
            let fresh_document = Id::from_parts(20 + s as u64, 0);
            index
                .add_with(&Ieee, id(100 * s as u64 + i), &point(&v), fresh_session, fresh_document)
                .unwrap();
        }
    }
    index
}

#[test]
fn the_beam_bounds_the_search() {
    let narrow = four_sessions(1);
    let stats = narrow.stats();
    assert_eq!((stats.session_count, stats.document_count, stats.chunk_count), (4, 4, 100));
    let found = narrow.near_at(&Ieee, &point(&[1.0, 0.0, 0.0]), 5, 0).unwrap();
    assert_eq!(found.len(), 5);
    for r in &found {
        assert!(r.id.entropy < 25, "only chunks of the first session");
    }
    for pair in found.windows(2) {
        assert!(number(pair[0].score) >= number(pair[1].score));
    }
    let wide = four_sessions(4);
    let all = wide.near_at(&Ieee, &point(&[1.0, 0.0, 0.0]), 100, 0).unwrap();
    assert_eq!(all.len(), 100);
    for s in 0..4u64 {
        assert!(all.iter().any(|r| r.id.entropy / 100 == s));
    }
    for pair in all.windows(2) {
        let (a, b) = (number(pair[0].score), number(pair[1].score));
        assert!(a > b || (a == b && pair[0].id < pair[1].id));
    }
    let narrow_all = narrow.near_at(&Ieee, &point(&[1.0, 0.0, 0.0]), 100, 0).unwrap();
    assert_eq!(narrow_all.len(), 25);
}

#[test]
fn removal_cascades() {
    let mut index = HatIndex::cosine(3);
    index.add(&Ieee, id(1), &point(&[1.0, 0.0, 0.0])).unwrap();
    index.new_session();
    index.add(&Ieee, id(2), &point(&[0.0, 1.0, 0.0])).unwrap();
    assert_eq!(index.stats().session_count, 2);
    index.add(&Ieee, id(3), &point(&[0.0, 0.0, 1.0])).unwrap();
    assert_eq!(index.stats().chunk_count, 3);
    assert_eq!(index.stats().document_count, 2);

    assert!(index.remove(&Ieee, id(1)));
    let stats = index.stats();
    assert_eq!((stats.session_count, stats.document_count, stats.chunk_count), (1, 1, 2));
    assert!(!index.contains(id(1)));
    assert!(!index.remove(&Ieee, id(1)));
    assert_eq!(index.stats().chunk_count, 2);

    assert!(index.remove(&Ieee, id(2)));
    let session = index.current_session().unwrap();
    let left = index.near_sessions(&Ieee, &point(&[0.0, 0.0, 1.0]), 1).unwrap();
    assert_eq!(left[0].id, session);
    assert_eq!(left[0].chunk_count, 1);
    assert_eq!(number(left[0].score), 1.0);

    assert!(index.remove(&Ieee, id(3)));
    assert!(index.is_empty());
    assert_eq!(index.stats().session_count, 0);
    assert_eq!(index.current_session(), None);
    assert_eq!(index.current_document(), None);
    assert!(index.near(&Ieee, &point(&[0.0, 0.0, 1.0]), 3).unwrap().is_empty());
}

#[test]
fn index_refuses() {
    let mut index = HatIndex::new(2, Metric::Dot, HatConfig::new());
    assert_eq!(index.dimensionality(), 2);
    assert_eq!(index.config().beam_width, 3);
    match index.add(&Ieee, id(1), &point(&[1.0, 0.0, 0.0])) {
        Err(NearError::DimensionalityMismatch { expected, got }) => {
            assert_eq!((expected, got), (2, 3))
        }
        _ => panic!("a vector of the wrong dimensionality is refused"),
    }
    assert!(index.is_empty());
    index.add(&Ieee, id(1), &point(&[1.0, 0.0])).unwrap();
    assert!(matches!(
        index.add(&Ieee, id(1), &point(&[0.0, 1.0])),
        Err(NearError::DuplicateId(_))
    ));
    assert!(matches!(
        index.near(&Ieee, &point(&[1.0]), 1),
        Err(NearError::DimensionalityMismatch { expected: 2, got: 1 })
    ));
    assert!(matches!(
        index.near_sessions(&Ieee, &point(&[1.0]), 1),
        Err(NearError::DimensionalityMismatch { expected: 2, got: 1 })
    ));
    let session = index.current_session().unwrap();
    index.new_session();
    match index.add_with(&Ieee, id(2), &point(&[0.0, 1.0]), session, id(50)) {
        Err(NearError::DuplicateId(taken)) => assert_eq!(taken, session),
        _ => panic!("a taken session identifier is refused"),
    }
    assert_eq!(index.len(), 1);
}

#[test]
fn centroids_follow_the_chunks() {
    let mut index = HatIndex::new(2, Metric::Dot, HatConfig::new());
    let (s, d) = (id(1000), id(2000));
    index.add_with(&Ieee, id(1), &point(&[2.0, 0.0]), s, d).unwrap();
    index.add_with(&Ieee, id(2), &point(&[4.0, 2.0]), s, d).unwrap();
    index.add_with(&Ieee, id(3), &point(&[6.0, 4.0]), s, d).unwrap();
    // The centroid is the mean (4, 2); its product with (1, 1) is 6.
    let docs = index.near_documents(&Ieee, s, &point(&[1.0, 1.0]), 1).unwrap();
    assert_eq!(docs[0].id, d);
    assert_eq!(number(docs[0].score), 6.0);
    let sessions = index.near_sessions(&Ieee, &point(&[1.0, 1.0]), 1).unwrap();
    assert_eq!(number(sessions[0].score), 6.0);
    index.remove(&Ieee, id(3));
    let docs = index.near_documents(&Ieee, s, &point(&[1.0, 1.0]), 1).unwrap();
    assert_eq!(number(docs[0].score), 4.0);
    let sessions = index.near_sessions(&Ieee, &point(&[1.0, 1.0]), 1).unwrap();
    assert_eq!(number(sessions[0].score), 4.0);
    assert_eq!(sessions[0].timestamp, s.millis);
}

#[test]
fn recency_counts_with_a_temporal_weight() {
    let config = HatConfig::new().with_temporal_weight(0.5f32.to_bits());
    let mut index = HatIndex::new(2, Metric::Dot, config);
    let old = Id::from_parts(0, 1);
    let new = Id::from_parts(21_600_000, 2);
    index.add_with(&Ieee, old, &point(&[1.0, 0.0]), id(1000), id(2000)).unwrap();
    index.add_with(&Ieee, new, &point(&[1.0, 0.0]), id(1000), id(2000)).unwrap();
    let found = index.near_at(&Ieee, &point(&[1.0, 0.0]), 2, 21_600_000).unwrap();
    assert_eq!(found[0].id, new);
    assert_eq!(number(found[0].score), 1.0);
    assert_eq!(found[1].id, old);
    assert!((number(found[1].score) - (0.5 + 0.5 * (-1.0f32).exp())).abs() < 1e-6);
    assert_eq!(arms_hat::hat::HALF_LIFE_MS, 6 * 60 * 60 * 1000);
    assert_eq!(HatConfig::new().propagation_threshold, 1e-3f32.to_bits());
}

#[test]
fn small_changes_are_carried_up_by_consolidation() {
    let mut index = HatIndex::new(1, Metric::Dot, HatConfig::new());
    let (s, d) = (id(1000), id(2000));
    index.add_with(&Ieee, id(1), &point(&[1.0]), s, d).unwrap();
    index.add_with(&Ieee, id(2), &point(&[1.0005]), s, d).unwrap();
    let q = point(&[1.0]);
    let document = index.near_documents(&Ieee, s, &q, 1).unwrap()[0].score;
    let expected = 1.0f32 + (1.0005f32 - 1.0f32) / 2.0;
    assert_eq!(number(document), expected);
    // The centroid of the document moved by less than the threshold, so
    // that of the session stayed where it was.
    assert_eq!(number(index.near_sessions(&Ieee, &q, 1).unwrap()[0].score), 1.0);
    index.consolidate_light(&Ieee);
    let session = index.near_sessions(&Ieee, &q, 1).unwrap()[0].score;
    assert_eq!(number(session), (expected * 2.0) / 2.0);
    assert_eq!(number(index.near_documents(&Ieee, s, &q, 1).unwrap()[0].score), expected);
    let all = index.within(&Ieee, &q, 1.0002f32.to_bits()).unwrap();
    assert_eq!(all.len(), 1);
    assert_eq!(all[0].id, id(2));
    index.clear();
    assert!(index.is_empty());
}
