use arms_hat::{Blob, Id, MemoryStorage, PlaceError, Point};

fn point(v: &[f32]) -> Point {
    Point::new(v.iter().map(|x| x.to_bits()).collect())
}

#[test]
fn test_memory_storage_place() {
    let mut storage = MemoryStorage::new(3);

    let point = point(&[1.0, 2.0, 3.0]);
    let blob = Blob::from_str("test");

    let id = storage.place(point, blob).unwrap();

    assert_eq!(storage.len(), 1);
    assert!(storage.contains(id));
}

#[test]
fn test_memory_storage_get() {
    let mut storage = MemoryStorage::new(3);

    let point = point(&[1.0, 2.0, 3.0]);
    let blob = Blob::from_str("hello");

    let id = storage.place(point, blob).unwrap();

    let retrieved = storage.get(id).unwrap();
    assert_eq!(retrieved.blob.as_str(), Some("hello"));
}

#[test]
fn test_memory_storage_remove() {
    let mut storage = MemoryStorage::new(3);

    let point = point(&[1.0, 2.0, 3.0]);
    let id = storage.place(point, Blob::empty()).unwrap();

    assert_eq!(storage.len(), 1);

    let removed = storage.remove(id);
    assert!(removed.is_some());
    assert_eq!(storage.len(), 0);
    assert!(!storage.contains(id));
}

#[test]
fn test_memory_storage_dimensionality_check() {
    let mut storage = MemoryStorage::new(3);

    let wrong_dims = point(&[1.0, 2.0]); // 2 dims, expected 3

    let result = storage.place(wrong_dims, Blob::empty());

    match result {
        Err(PlaceError::DimensionalityMismatch { expected, got }) => {
            assert_eq!(expected, 3);
            assert_eq!(got, 2);
        }
        _ => panic!("Expected DimensionalityMismatch error"),
    }
}

#[test]
fn test_memory_storage_capacity() {
    // Enough for one point but not two: a point takes
    // 16 (id) + 12 (3 words) + 10 (blob) + 48 (overhead) = 86 bytes.
    let mut storage = MemoryStorage::with_capacity(3, 150);

    let point = point(&[1.0, 2.0, 3.0]);
    let blob = Blob::new(vec![0u8; 10]);

    storage.place(point.clone(), blob.clone()).unwrap();

    let result = storage.place(point, blob);
    assert!(matches!(result, Err(PlaceError::CapacityExceeded)));
}

#[test]
fn test_memory_storage_clear() {
    let mut storage = MemoryStorage::new(3);

    for i in 0..10 {
        let point = point(&[i as f32, 0.0, 0.0]);
        storage.place(point, Blob::empty()).unwrap();
    }

    assert_eq!(storage.len(), 10);
    assert!(storage.size_bytes() > 0);

    storage.clear();

    assert_eq!(storage.len(), 0);
    assert_eq!(storage.size_bytes(), 0);
}

#[test]
fn test_memory_storage_iter() {
    let mut storage = MemoryStorage::new(2);

    storage.place(point(&[1.0, 0.0]), Blob::empty()).unwrap();
    storage.place(point(&[0.0, 1.0]), Blob::empty()).unwrap();

    let points: Vec<_> = storage.iter();
    assert_eq!(points.len(), 2);
}

#[test]
fn accounting_is_exact() {
    let mut storage = MemoryStorage::with_capacity(3, 172);
    let a = Id::from_parts(1, 1);
    let b = Id::from_parts(1, 2);
    storage.place_with_id(a, point(&[1.0, 2.0, 3.0]), Blob::new(vec![0u8; 10])).unwrap();
    assert_eq!(storage.size_bytes(), 86);
    storage.place_with_id(b, point(&[1.0, 2.0, 3.0]), Blob::new(vec![0u8; 10])).unwrap();
    assert_eq!(storage.size_bytes(), 172);
    assert!(matches!(
        storage.place_with_id(Id::from_parts(1, 3), point(&[0.0, 0.0, 0.0]), Blob::empty()),
        Err(PlaceError::CapacityExceeded)
    ));
    match storage.place_with_id(a, point(&[0.0, 0.0, 0.0]), Blob::empty()) {
        Err(PlaceError::DuplicateId(id)) => assert_eq!(id, a),
        _ => panic!("a taken identifier is refused"),
    }
    let removed = storage.remove(a).unwrap();
    assert_eq!(removed.id, a);
    assert_eq!(removed.blob.size(), 10);
    assert_eq!(storage.size_bytes(), 86);
    assert!(storage.remove(a).is_none());
    assert!(storage.get(a).is_none());
    assert_eq!(storage.get(b).unwrap().point.dims(), point(&[1.0, 2.0, 3.0]).dims());
    assert_eq!(storage.dimensionality(), 3);
    assert_eq!(storage.capacity(), 172);
    assert!(!storage.is_empty());
}

#[test]
fn identifier_bytes() {
    let id = Id::from_parts(0x0102030405060708, 0x090a0b0c0d0e0f10);
    let bytes = id.as_bytes();
    assert_eq!(bytes.to_vec(), (1u8..=16).collect::<Vec<u8>>());
    assert_eq!(Id::from_bytes(bytes), id);
    assert_eq!(id.as_u128(), 0x0102030405060708090a0b0c0d0e0f10);
    assert_eq!(Id::from_u128(id.as_u128()), id);
    assert!(Id::from_parts(1, 9).precedes(&Id::from_parts(2, 0)));
    assert!(Id::from_parts(1, 1).precedes(&Id::from_parts(1, 2)));
    assert!(!id.precedes(&id));
    assert_eq!(Id::nil().as_u128(), 0);
    let now = Id::now();
    assert!(now.millis > 1_600_000_000_000);
}

#[test]
fn payloads_as_text() {
    assert_eq!(Blob::from_str("héllo").as_str(), Some("héllo"));
    assert_eq!(Blob::from_str("héllo").size(), 6);
    assert_eq!(Blob::new(vec![0xff, 0xfe]).as_str(), None);
    assert_eq!(Blob::empty().as_str(), Some(""));
    assert!(Blob::empty().is_empty());
    assert_eq!(Blob::new(vec![1, 2]).data(), &vec![1, 2]);
    assert_eq!(Point::filled(3, 7).dims(), &vec![7, 7, 7]);
    assert_eq!(Point::filled(3, 7).dimensionality(), 3);
}

#[test]
fn clock_readings() {
    assert_eq!(arms_hat::id::millis_of(None), 0);
    assert_eq!(arms_hat::id::millis_of(Some(0)), 0);
    assert_eq!(arms_hat::id::millis_of(Some(1_700_000_000_123)), 1_700_000_000_123);
    assert_eq!(arms_hat::id::millis_of(Some(u64::MAX as u128)), u64::MAX);
    assert_eq!(arms_hat::id::millis_of(Some(u64::MAX as u128 + 6)), 5);
    let before = arms_hat::id::unix_millis();
    let id = Id::now();
    let after = arms_hat::id::unix_millis();
    assert!(before <= id.millis && id.millis <= after);
}
