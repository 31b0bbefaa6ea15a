use arms_hat::{
    Arith, Arms, ArmsConfig, Blob, HatIndex, Index, MemoryStorage, MergeKind, Metric, NearError,
    PlaceError, Point,
};
use arms_hat::kernel;

struct Ieee;

fn word(x: f32) -> u32 {
    if x.is_nan() {
        0x7fc0_0000
    } else {
        x.to_bits()
    }
}

impl Arith for Ieee {
    fn sum_spec(&self, a: u32, b: u32) -> u32 {
        self.sum(a, b)
    }

    fn diff_spec(&self, a: u32, b: u32) -> u32 {
        self.diff(a, b)
    }

    fn prod_spec(&self, a: u32, b: u32) -> u32 {
        self.prod(a, b)
    }

    fn quot_spec(&self, a: u32, b: u32) -> u32 {
        self.quot(a, b)
    }

    fn sqrt_spec(&self, a: u32) -> u32 {
        self.sqrt(a)
    }

    fn count_spec(&self, n: u64) -> u32 {
        self.from_count(n)
    }

    fn decay_spec(&self, age_ms: u64, span_ms: u64) -> u32 {
        self.decay(age_ms, span_ms)
    }

    fn sum(&self, a: u32, b: u32) -> u32 {
        word(f32::from_bits(a) + f32::from_bits(b))
    }

    fn diff(&self, a: u32, b: u32) -> u32 {
        word(f32::from_bits(a) - f32::from_bits(b))
    }

    fn prod(&self, a: u32, b: u32) -> u32 {
        word(f32::from_bits(a) * f32::from_bits(b))
    }

    fn quot(&self, a: u32, b: u32) -> u32 {
        word(f32::from_bits(a) / f32::from_bits(b))
    }

    fn sqrt(&self, a: u32) -> u32 {
        word(f32::from_bits(a).sqrt())
    }

    fn from_count(&self, n: u64) -> u32 {
        word(n as f32)
    }

    fn decay(&self, age_ms: u64, span_ms: u64) -> u32 {
        word((-(age_ms as f32) / (span_ms as f32)).exp())
    }
}

fn point(v: &[f32]) -> Point {
    Point::new(v.iter().map(|x| x.to_bits()).collect())
}

fn number(w: u32) -> f32 {
    f32::from_bits(w)
}

fn create_test_arms() -> Arms<Ieee> {
    Arms::new(ArmsConfig::new(3), Ieee)
}

#[test]
fn test_arms_place_and_get() {
    let mut arms = create_test_arms();

    let point = point(&[1.0, 0.0, 0.0]);
    let blob = Blob::from_str("test data");

    let id = arms.place(point, blob).unwrap();

    let retrieved = arms.get(id).unwrap();
    assert_eq!(retrieved.blob.as_str(), Some("test data"));
}

#[test]
fn test_arms_near() {
    let mut arms = create_test_arms();

    arms.place(point(&[1.0, 0.0, 0.0]), Blob::from_str("x")).unwrap();
    arms.place(point(&[0.0, 1.0, 0.0]), Blob::from_str("y")).unwrap();
    arms.place(point(&[0.0, 0.0, 1.0]), Blob::from_str("z")).unwrap();

    let query = point(&[1.0, 0.0, 0.0]);
    let results = arms.near(&query, 2).unwrap();

    assert_eq!(results.len(), 2);
    assert!(number(results[0].score) > number(results[1].score));
}

#[test]
fn test_arms_near_with_data() {
    let mut arms = create_test_arms();

    arms.place(point(&[1.0, 0.0, 0.0]), Blob::from_str("x")).unwrap();
    arms.place(point(&[0.0, 1.0, 0.0]), Blob::from_str("y")).unwrap();

    let query = point(&[1.0, 0.0, 0.0]);
    let results = arms.near_with_data(&query, 1).unwrap();

    assert_eq!(results.len(), 1);
    assert_eq!(results[0].0.blob.as_str(), Some("x"));
}

#[test]
fn test_arms_remove() {
    let mut arms = create_test_arms();

    let id = arms.place(point(&[1.0, 0.0, 0.0]), Blob::empty()).unwrap();

    assert!(arms.contains(id));
    assert_eq!(arms.len(), 1);

    arms.remove(id);

    assert!(!arms.contains(id));
    assert_eq!(arms.len(), 0);
}

#[test]
fn test_arms_merge() {
    let arms = create_test_arms();

    let points = vec![point(&[1.0, 0.0, 0.0]), point(&[0.0, 1.0, 0.0])];

    let merged = arms.merge(&points);

    // Mean of [1,0,0] and [0,1,0] = [0.5, 0.5, 0]
    assert!((number(merged.dims()[0]) - 0.5).abs() < 0.0001);
    assert!((number(merged.dims()[1]) - 0.5).abs() < 0.0001);
    assert!((number(merged.dims()[2]) - 0.0).abs() < 0.0001);
}

#[test]
fn test_arms_clear() {
    let mut arms = create_test_arms();

    for i in 0..10 {
        arms.place(point(&[i as f32, 0.0, 0.0]), Blob::empty()).unwrap();
    }

    assert_eq!(arms.len(), 10);

    arms.clear();

    assert_eq!(arms.len(), 0);
    assert!(arms.is_empty());
    assert_eq!(arms.index_len(), 0);
    assert_eq!(arms.size_bytes(), 0);
}

#[test]
fn test_arms_normalizes_on_insert() {
    let mut arms = create_test_arms();

    // Insert a non-normalized point
    let point = point(&[3.0, 4.0, 0.0]); // magnitude = 5
    let id = arms.place(point, Blob::empty()).unwrap();

    let retrieved = arms.get(id).unwrap();

    // Should be normalized
    assert!(kernel::is_normalized(&Ieee, &retrieved.point));
    assert!((number(retrieved.point.dims()[0]) - 0.6).abs() < 1e-6);
    assert!((number(retrieved.point.dims()[1]) - 0.8).abs() < 1e-6);
}

#[test]
fn words_of_the_constants() {
    assert_eq!(kernel::TINY, 1e-12f32.to_bits());
    assert_eq!(kernel::TOLERANCE, 1e-6f32.to_bits());
    assert_eq!(arms_hat::arith::ONE, 1.0f32.to_bits());
    assert_eq!(arms_hat::arith::INFINITY, f32::INFINITY.to_bits());
    assert_eq!(arms_hat::arith::SIGN, (-0.0f32).to_bits());
}

#[test]
fn comparisons_agree_with_the_numbers() {
    let samples = [
        0.0f32, -0.0, 1.0, -1.0, 0.5, -0.5, 1e-30, -1e-30, 3.0e38, -3.0e38,
        f32::INFINITY, f32::NEG_INFINITY, f32::NAN, f32::MIN_POSITIVE,
    ];
    for a in samples {
        for b in samples {
            assert_eq!(arms_hat::arith::lt(a.to_bits(), b.to_bits()), a < b, "{} < {}", a, b);
            assert_eq!(arms_hat::flat::reaches(a.to_bits(), b.to_bits()), a >= b, "{} >= {}", a, b);
        }
        assert_eq!(arms_hat::arith::nan(a.to_bits()), a.is_nan());
        assert_eq!(arms_hat::arith::zero(a.to_bits()), a == 0.0);
        if !a.is_nan() {
            assert_eq!(number(arms_hat::arith::neg(a.to_bits())), -a);
            assert_eq!(number(arms_hat::arith::abs(a.to_bits())), a.abs());
        }
    }
}

#[test]
fn proximities() {
    let a = point(&[1.0, 2.0, 2.0]);
    let b = point(&[2.0, 0.0, 1.0]);
    let dot = kernel::proximity(&Ieee, Metric::Dot, &a, &b).unwrap();
    assert_eq!(number(dot), 4.0);
    let euclid = kernel::proximity(&Ieee, Metric::Euclidean, &a, &b).unwrap();
    assert_eq!(number(euclid), -(6.0f32.sqrt()));
    let cos = kernel::proximity(&Ieee, Metric::Cosine, &a, &b).unwrap();
    assert!((number(cos) - 4.0 / (3.0 * 5.0f32.sqrt())).abs() < 1e-6);
    let zero = point(&[0.0, 0.0, 0.0]);
    assert_eq!(number(kernel::proximity(&Ieee, Metric::Cosine, &a, &zero).unwrap()), 0.0);
    let short = point(&[1.0]);
    let e = kernel::proximity(&Ieee, Metric::Dot, &a, &short).unwrap_err();
    assert_eq!((e.expected, e.got), (3, 1));
    assert_eq!(number(kernel::norm(&Ieee, &a)), 3.0);
}

#[test]
fn merges() {
    let points = vec![point(&[1.0, -2.0]), point(&[3.0, -6.0]), point(&[5.0, 2.0])];
    let mean = kernel::mean(&Ieee, &points, 2);
    assert_eq!(mean.dims(), point(&[3.0, -2.0]).dims());
    let max = kernel::max_pool(&points, 2);
    assert_eq!(max.dims(), point(&[5.0, 2.0]).dims());
    let weights = vec![1.0f32.to_bits(), 0.0f32.to_bits(), 3.0f32.to_bits()];
    let weighted = kernel::weighted_mean(&Ieee, &points, &weights, 2);
    assert_eq!(weighted.dims(), point(&[4.0, 1.0]).dims());
    let none = vec![0.0f32.to_bits(); 3];
    let uniform = kernel::weighted_mean(&Ieee, &points, &none, 2);
    assert_eq!(uniform.dims(), mean.dims());
    let empty: Vec<Point> = Vec::new();
    assert_eq!(kernel::mean(&Ieee, &empty, 4).dims(), point(&[0.0; 4]).dims());
    assert_eq!(kernel::max_pool(&empty, 4).dims(), point(&[0.0; 4]).dims());
    assert_eq!(kernel::merge(&Ieee, MergeKind::MaxPool, &points, 2).dims(), max.dims());
}

#[test]
fn normalization() {
    let (unit, done) = kernel::normalize(&Ieee, &point(&[3.0, 4.0]));
    assert!(done);
    assert!(kernel::is_normalized(&Ieee, &unit));
    let (again, done_again) = kernel::normalize(&Ieee, &unit);
    assert!(done_again);
    for (x, y) in unit.dims().iter().zip(again.dims().iter()) {
        assert!((number(*x) - number(*y)).abs() < 1e-6);
    }
    let (same, flagged) = kernel::normalize(&Ieee, &point(&[0.0, 0.0]));
    assert!(!flagged);
    assert_eq!(same.dims(), point(&[0.0, 0.0]).dims());
    assert!(!kernel::is_normalized(&Ieee, &point(&[3.0, 4.0])));
}

#[test]
fn engine_rejects_and_ranks() {
    let mut arms = Arms::new(ArmsConfig::new(2).with_normalization(false), Ieee);
    assert_eq!(arms.dimensionality(), 2);
    assert_eq!(arms.config().metric, Metric::Cosine);
    assert!(arms.is_ready());
    match arms.place(point(&[1.0]), Blob::empty()) {
        Err(PlaceError::DimensionalityMismatch { expected, got }) => {
            assert_eq!((expected, got), (2, 1))
        }
        _ => panic!("a vector of the wrong dimensionality is refused"),
    }
    assert_eq!(arms.len(), 0);
    assert_eq!(arms.index_len(), 0);
    let a = arms.place(point(&[1.0, 0.0]), Blob::from_str("a")).unwrap();
    let b = arms.place(point(&[1.0, 1.0]), Blob::from_str("b")).unwrap();
    let all = arms.near(&point(&[2.0, 0.0]), 10).unwrap();
    assert_eq!(all.len(), 2);
    assert_eq!(all[0].id, a);
    assert_eq!(number(all[0].score), 1.0);
    assert_eq!(all[1].id, b);
    assert!(arms.near(&point(&[2.0, 0.0]), 0).unwrap().is_empty());
    match arms.near(&point(&[1.0, 0.0, 0.0]), 1) {
        Err(NearError::DimensionalityMismatch { expected, got }) => {
            assert_eq!((expected, got), (2, 3))
        }
        _ => panic!("a query of the wrong dimensionality is refused"),
    }
    let close = arms.within(&point(&[1.0, 0.0]), 0.9f32.to_bits()).unwrap();
    assert_eq!(close.len(), 1);
    assert_eq!(close[0].id, a);
    assert_eq!(number(arms.proximity(&point(&[1.0, 0.0]), &point(&[0.0, 1.0])).unwrap()), 0.0);
    let results = arms.place_batch(vec![
        (point(&[0.0, 1.0]), Blob::empty()),
        (point(&[0.0]), Blob::empty()),
    ]);
    assert_eq!(results.len(), 2);
    assert!(results[0].is_ok());
    assert!(matches!(results[1], Err(PlaceError::DimensionalityMismatch { .. })));
    assert_eq!(arms.size_bytes(), (64 + 8 + 1) + (64 + 8 + 1) + (64 + 8));
}

fn hat_of(arms: &Arms<Ieee>) -> &HatIndex {
    match arms.index() {
        Index::Hat(h) => h,
        Index::Flat(_) => panic!("the engine was made over a hierarchical index"),
    }
}

#[test]
fn removal_through_the_engine() {
    let mut arms = Arms::with_adapters(
        ArmsConfig::new(3),
        MemoryStorage::new(3),
        Index::Hat(HatIndex::cosine(3)),
        Ieee,
    );
    let id = arms.place(point(&[1.0, 0.0, 0.0]), Blob::from_str("only")).unwrap();
    let stats = hat_of(&arms).stats();
    assert_eq!((stats.session_count, stats.document_count, stats.chunk_count), (1, 1, 1));
    assert_eq!(arms.index_len(), 1);
    let found = arms.near_with_data(&point(&[2.0, 0.0, 0.0]), 3).unwrap();
    assert_eq!(found.len(), 1);
    assert_eq!(found[0].0.id, id);
    assert_eq!(number(found[0].1), 1.0);

    let removed = arms.remove(id).unwrap();
    assert_eq!(removed.id, id);
    assert!(arms.get(id).is_none());
    let stats = hat_of(&arms).stats();
    assert_eq!((stats.session_count, stats.document_count, stats.chunk_count), (0, 0, 0));
    assert!(arms.near(&point(&[1.0, 0.0, 0.0]), 1).unwrap().is_empty());
    assert!(arms.storage().is_empty());
}

#[test]
fn the_store_is_put_back_when_the_index_refuses() {
    let mut arms = Arms::with_adapters(
        ArmsConfig::new(3).with_normalization(false),
        MemoryStorage::new(3),
        Index::Hat(HatIndex::cosine(2)),
        Ieee,
    );
    match arms.place(point(&[1.0, 0.0, 0.0]), Blob::from_str("x")) {
        Err(PlaceError::StorageError(message)) => {
            assert_eq!(message, "Index error: dimensionality mismatch: expected 2, got 3")
        }
        other => panic!("{:?}", other),
    }
    assert_eq!(arms.len(), 0);
    assert_eq!(arms.size_bytes(), 0);
    assert_eq!(arms.index_len(), 0);
    let within = Arms::with_adapters(
        ArmsConfig::new(2).with_normalization(false),
        MemoryStorage::new(2),
        Index::Hat(HatIndex::cosine(2)),
        Ieee,
    );
    assert!(within.within(&point(&[1.0, 0.0]), 0.5f32.to_bits()).unwrap().is_empty());
}

#[test]
fn settings_choose_metric_and_merge() {
    let config = ArmsConfig::new(2)
        .with_metric(Metric::Dot)
        .with_merge(MergeKind::MaxPool)
        .with_normalization(false);
    let mut arms = Arms::new(config, Ieee);
    let points = vec![point(&[1.0, 5.0]), point(&[3.0, 2.0])];
    assert_eq!(arms.merge(&points).dims(), point(&[3.0, 5.0]).dims());
    assert_eq!(number(arms.proximity(&points[0], &points[1]).unwrap()), 13.0);
    arms.place(point(&[2.0, 0.0]), Blob::empty()).unwrap();
    let found = arms.near(&point(&[3.0, 1.0]), 1).unwrap();
    assert_eq!(number(found[0].score), 6.0);
    assert_eq!(ArmsConfig::default().dimensionality, 768);
    assert!(ArmsConfig::default().normalize_on_insert);
}

#[test]
fn equal_scores_are_ordered_by_identifier() {
    let id = |n: u64| arms_hat::Id::from_parts(7, n);
    let result = |n: u64, score: f32| arms_hat::SearchResult { id: id(n), score: score.to_bits() };
    let candidates = vec![
        result(5, 0.5),
        result(3, 1.0),
        result(9, f32::NAN),
        result(1, 0.5),
        result(4, -0.0),
        result(2, 0.0),
        result(8, f32::NEG_INFINITY),
    ];
    let ranked = arms_hat::rank::rank(&candidates, 10);
    let order: Vec<u64> = ranked.iter().map(|r| r.id.entropy).collect();
    assert_eq!(order, vec![3, 1, 5, 2, 4, 8, 9]);
    let top: Vec<u64> =
        arms_hat::rank::rank(&candidates, 2).iter().map(|r| r.id.entropy).collect();
    assert_eq!(top, vec![3, 1]);
    assert_eq!(arms_hat::rank::select(&candidates, 3), vec![1, 3, 0]);
    assert!(arms_hat::rank::rank(&candidates, 0).is_empty());
}
