use one_brc_rs::hashing::key_code;
use one_brc_rs::table::AggregationTable;

#[test]
fn collision_on_code_merges_records_deterministically() {
    // Lookup is by the precomputed code alone: two distinct keys handed the
    // same code are folded into one record, keeping the first key as the
    // representative.  This is the documented fast approximate identity.
    let mut t = AggregationTable::new();
    t.add_measurement(42, b"AAA", 10);
    t.add_measurement(42, b"BBB", 30);
    t.add_measurement(42, b"AAA", 20);
    assert_eq!(t.len(), 1);
    assert_eq!(t.total(), 3);
    let rec = t.get(42).expect("the code is present");
    assert_eq!(rec.city.as_slice(), b"AAA");
    assert_eq!(rec.count, 3);
    assert_eq!(rec.sum, 60);
    assert_eq!(rec.min_max(), (10, 30));

    // The same calls again reproduce exactly the same record.
    let mut t2 = AggregationTable::new();
    t2.add_measurement(42, b"AAA", 10);
    t2.add_measurement(42, b"BBB", 30);
    t2.add_measurement(42, b"AAA", 20);
    let rec2 = t2.get(42).expect("the code is present");
    assert_eq!(rec2.city.as_slice(), b"AAA");
    assert_eq!(rec2.count, 3);
    assert_eq!(rec2.sum, 60);
    assert_eq!(rec2.min_max(), (10, 30));
}

#[test]
fn sharded_folds_merge_to_the_single_fold() {
    // A fixed record set, aggregated three ways: one worker, two shards
    // merged left-to-right, two different shards merged right-to-left.
    // Per-key (min, max, sum, count) must be identical.
    let records: Vec<(&[u8], i16)> = vec![
        (b"Paris", 85),
        (b"Hamburg", 120),
        (b"Paris", -69),
        (b"Quito", 5),
        (b"Hamburg", -10),
        (b"Paris", 400),
        (b"Quito", 5),
    ];

    let mut whole = AggregationTable::new();
    for (key, v) in &records {
        whole.add_measurement(key_code(key), key, *v);
    }

    let mut left = AggregationTable::new();
    for (key, v) in &records[..3] {
        left.add_measurement(key_code(key), key, *v);
    }
    let mut right = AggregationTable::new();
    for (key, v) in &records[3..] {
        right.add_measurement(key_code(key), key, *v);
    }
    left.merge(right);

    let mut tail = AggregationTable::new();
    for (key, v) in &records[5..] {
        tail.add_measurement(key_code(key), key, *v);
    }
    let mut head = AggregationTable::new();
    for (key, v) in &records[..5] {
        head.add_measurement(key_code(key), key, *v);
    }
    tail.merge(head);

    for key in [b"Paris".as_slice(), b"Hamburg".as_slice(), b"Quito".as_slice()] {
        let code = key_code(key);
        let a = whole.get(code).expect("present");
        let b = left.get(code).expect("present");
        let c = tail.get(code).expect("present");
        assert_eq!(a.min_max(), b.min_max());
        assert_eq!(a.min_max(), c.min_max());
        assert_eq!(a.sum, b.sum);
        assert_eq!(a.sum, c.sum);
        assert_eq!(a.count, b.count);
        assert_eq!(a.count, c.count);
    }
    assert_eq!(whole.total(), 7);
    assert_eq!(left.total(), 7);
    assert_eq!(tail.total(), 7);
}

#[test]
fn key_code_matches_fxhash() {
    // The library's explicit hashing step is exactly fxhash's 64-bit hash.
    for key in [b"".as_slice(), b"Paris".as_slice(), b"Hamburg".as_slice(), b"a;b".as_slice()] {
        assert_eq!(key_code(key), fxhash::hash64(key));
    }
    assert_ne!(key_code(b"Paris"), key_code(b"Hamburg"));
}
