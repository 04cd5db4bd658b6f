use one_brc_rs::simd_buffers::SimdBuffer;

#[test]
fn test_usecase() {
    // Test single value
    let mut buffer = SimdBuffer::with_value(5);
    assert_eq!(buffer.len(), 1);
    assert!(!buffer.is_full());
    assert_eq!(buffer.as_slice(), &[5]);
    assert_eq!(buffer.min_max(), (5, 5));

    // Test with some data but not full.
    for i in 2..=14 {
        buffer.add(i);
    }
    assert_eq!(buffer.len(), 14);
    assert!(!buffer.is_full());
    assert_eq!(
        buffer.as_slice(),
        &[5, 2, 3, 4, 5, 6, 7, 8, 9, 10, 11, 12, 13, 14]
    );
    assert_eq!(buffer.min_max(), (2, 14));

    // Insert last element before full vec.
    buffer.add(15);
    assert_eq!(buffer.len(), 15);
    assert!(!buffer.is_full());
    assert_eq!(
        buffer.as_slice(),
        &[5, 2, 3, 4, 5, 6, 7, 8, 9, 10, 11, 12, 13, 14, 15]
    );
    assert_eq!(buffer.min_max(), (2, 15));

    // Vector should not be full.
    buffer.add(16);
    assert_eq!(buffer.len(), 16);
    assert!(buffer.is_full());
    assert_eq!(
        buffer.as_slice(),
        &[5, 2, 3, 4, 5, 6, 7, 8, 9, 10, 11, 12, 13, 14, 15, 16]
    );
    assert_eq!(buffer.min_max(), (2, 16));

    // Cannot insert anything more in the vec.
    buffer.add(17);
    assert_eq!(buffer.len(), 16);
    assert!(buffer.is_full());
    assert_eq!(
        buffer.as_slice(),
        &[5, 2, 3, 4, 5, 6, 7, 8, 9, 10, 11, 12, 13, 14, 15, 16]
    );
    assert_eq!(buffer.min_max(), (2, 16));
}

#[test]
fn simplify_folds_batch_into_extrema() {
    let mut buffer = SimdBuffer::with_value(7);
    for i in 1..=15 {
        buffer.add(i);
    }
    assert!(buffer.is_full());
    // Folding keeps the extrema of the full batch plus the new value.
    buffer.simplify_and_add(20);
    assert_eq!(buffer.len(), 3);
    assert_eq!(buffer.as_slice(), &[20, 1, 15]);
    assert_eq!(buffer.min_max(), (1, 20));
}

#[test]
fn min_max_survives_many_folds() {
    // Extrema stay exact across the batch-flush boundary at sixteen values.
    let mut buffer = SimdBuffer::with_value(0);
    for i in 1..100 {
        if buffer.is_full() {
            buffer.simplify_and_add(i);
        } else {
            buffer.add(i);
        }
    }
    assert_eq!(buffer.min_max(), (0, 99));

    let mut other = SimdBuffer::with_value(-50);
    for i in -49..60 {
        if other.is_full() {
            other.simplify_and_add(i);
        } else {
            other.add(i);
        }
    }
    assert_eq!(other.min_max(), (-50, 59));

    // Merging keeps the extrema of both contribution multisets.
    buffer.merge(&other);
    assert_eq!(buffer.min_max(), (-50, 99));
}
