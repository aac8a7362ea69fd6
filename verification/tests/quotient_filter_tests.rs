use fm_verified::quotient_filter::QuotientFilter;

#[test]
fn insert_and_query_single() {
    let mut qf = QuotientFilter::new(8, 16);
    assert!(qf.insert(&42_u64));
    assert!(qf.may_contain(&42_u64));
    assert_eq!(qf.len(), 1);
}

#[test]
fn absent_element_not_found() {
    let mut qf = QuotientFilter::new(8, 16);
    qf.insert(&42_u64);
    // Very unlikely to be a false positive for a single element.
    // But we check a few values.
    let mut found_absent = 0;
    for i in 100..200_u64 {
        if qf.may_contain(&i) {
            found_absent += 1;
        }
    }
    // With r=16, FP rate ≈ 1/65536, so 100 queries should yield ~0 FPs.
    assert!(
        found_absent <= 2,
        "Too many false positives: {found_absent}/100"
    );
}

#[test]
fn insert_duplicate_returns_false() {
    let mut qf = QuotientFilter::new(8, 16);
    assert!(qf.insert(&42_u64)); // first insert
    assert!(!qf.insert(&42_u64)); // duplicate
    assert_eq!(qf.len(), 1); // count shouldn't change
}

#[test]
fn multiple_inserts_all_found() {
    let mut qf = QuotientFilter::new(10, 16);
    let values: Vec<u64> = (0..100).collect();

    for v in &values {
        qf.insert(v);
    }

    // All inserted elements must be found (no false negatives).
    for v in &values {
        assert!(
            qf.may_contain(v),
            "Inserted element {v} not found — false negative!"
        );
    }
    assert_eq!(qf.len(), 100);
}

#[test]
fn edge_tuple_detection() {
    // Simulate duplicate edge detection with (from, to) tuples.
    let mut qf = QuotientFilter::with_capacity(100);

    let edge1 = (0_usize, 1_usize);
    let edge2 = (1_usize, 2_usize);
    let edge3 = (0_usize, 1_usize); // duplicate of edge1

    assert!(qf.insert(&edge1));
    assert!(qf.insert(&edge2));
    assert!(!qf.insert(&edge3)); // duplicate

    assert!(qf.may_contain(&edge1));
    assert!(qf.may_contain(&edge2));
}

#[test]
fn with_capacity_sizing() {
    let qf = QuotientFilter::with_capacity(1000);
    // Should have at least 1333 slots (1000 / 0.75)
    assert!(
        qf.table_size() >= 1333,
        "Table too small: {} for 1000 elements",
        qf.table_size()
    );
    assert_eq!(qf.r_bits(), 16);
}

#[test]
fn memory_is_smaller_than_hashset() {
    let qf = QuotientFilter::with_capacity(10000);
    let qf_bytes = qf.memory_bytes();

    // A HashSet<(usize, usize)> for 10000 edges uses roughly:
    // 10000 * (16 bytes data + ~24 bytes overhead) ≈ 400KB
    // The quotient filter should be significantly smaller.
    let hashset_estimate = 10000 * 40;

    assert!(
        qf_bytes < hashset_estimate,
        "QuotientFilter ({qf_bytes} bytes) should be smaller than HashSet estimate ({hashset_estimate} bytes)"
    );
}

#[test]
fn no_false_negatives_stress() {
    // Insert many elements and verify all are found.
    let mut qf = QuotientFilter::with_capacity(5000);
    let mut inserted = Vec::new();

    for i in 0..1000_u64 {
        let key = (i, i * 7 + 13);
        qf.insert(&key);
        inserted.push(key);
    }

    for key in &inserted {
        assert!(qf.may_contain(key), "False negative for {key:?}");
    }
}

#[test]
fn false_positive_rate_empirical() {
    // Measure the empirical false positive rate.
    let mut qf = QuotientFilter::new(12, 12); // 4096 slots, FP ≈ 1/4096
    let n_insert = 1000;
    let n_query = 10000;

    for i in 0..n_insert as u64 {
        qf.insert(&i);
    }

    let mut false_positives = 0;
    for i in (n_insert as u64)..(n_insert as u64 + n_query as u64) {
        if qf.may_contain(&i) {
            false_positives += 1;
        }
    }

    let empirical_fp = false_positives as f64 / n_query as f64;
    let theoretical_fp = 1.0 / (1_u64 << 12) as f64; // ~0.000244

    // Allow 10x margin for small sample sizes and load factor effects.
    assert!(
        empirical_fp < theoretical_fp * 10.0 + 0.01,
        "Empirical FP rate {empirical_fp:.4} too high (theoretical {theoretical_fp:.6})"
    );
}

#[test]
fn empty_filter_contains_nothing() {
    let qf = QuotientFilter::new(8, 16);
    for i in 0..100_u64 {
        assert!(!qf.may_contain(&i));
    }
}

#[test]
fn string_keys_work() {
    let mut qf = QuotientFilter::new(8, 16);
    qf.insert(&"hello");
    qf.insert(&"world");
    assert!(qf.may_contain(&"hello"));
    assert!(qf.may_contain(&"world"));
}

#[test]
fn new_filter_is_empty() {
    let qf = QuotientFilter::new(8, 16);
    assert!(qf.is_empty());
    assert_eq!(qf.len(), 0);
    let load = qf.len() as f64 / qf.table_size() as f64;
    assert!(load < f64::EPSILON);
}

#[test]
fn load_factor_tracks_inserts() {
    let mut qf = QuotientFilter::new(4, 8); // 16 slots
    for i in 0..8_u64 {
        qf.insert(&i);
    }
    let lf = qf.len() as f64 / qf.table_size() as f64;
    assert!((lf - 0.5).abs() < 0.1, "Expected load factor ~0.5, got {lf}");
}

#[test]
fn false_positive_rate_matches_theory() {
    let qf = QuotientFilter::new(10, 16);
    let expected_fp = 1.0 / 65536.0;
    let rate = 1.0 / (1_u64 << qf.r_bits()) as f64;
    assert!(
        (rate - expected_fp).abs() < 1e-10,
        "FP rate should be {expected_fp}, got {}",
        rate
    );
}

#[test]
fn insert_smaller_remainder_into_existing_run() {
    let qf = QuotientFilter::new(4, 8); // 16 slots
    let mut items_by_quotient: std::collections::HashMap<usize, Vec<(u64, u64)>> =
        std::collections::HashMap::new();

    for i in 0..1000_u64 {
        let (q, r) = qf.fingerprint(&i);
        items_by_quotient.entry(q).or_default().push((i, r));
    }

    for (_, mut items) in items_by_quotient {
        if items.len() >= 2 {
            items.sort_by_key(|&(_, r)| std::cmp::Reverse(r));

            let mut test_qf = QuotientFilter::new(4, 8);
            test_qf.insert(&items[0].0);
            test_qf.insert(&items[1].0);

            assert!(
                test_qf.may_contain(&items[0].0),
                "Failed to find larger remainder item!"
            );
            assert!(
                test_qf.may_contain(&items[1].0),
                "Failed to find smaller remainder item!"
            );
        }
    }
}

#[test]
fn insert_into_existing_cluster_causes_false_negative_bug() {
    let mut qf = QuotientFilter::new(4, 8); // 16 slots

    let mut inserted = Vec::new();
    for i in 0..1000_u64 {
        if inserted.len() >= 10 {
            break;
        }
        let (q, _r) = qf.fingerprint(&i);
        if (q == 2 || q == 4) && qf.insert(&i) {
            inserted.push(i);
        }
    }

    let mut d = None;
    for i in 0..1000_u64 {
        let (q, _r) = qf.fingerprint(&i);
        if q == 3 && !qf.may_contain(&i) {
            d = Some(i);
            break;
        }
    }

    if let Some(d) = d {
        assert!(qf.insert(&d), "Table was full!");
        assert!(
            qf.may_contain(&d),
            "False negative on newly inserted element!"
        );
    }
}

#[test]
fn hashes_wrapping_around_the_ring_are_all_found() {
    // 4 slots, 8-bit remainders: quotient = (h >> 8) & 3, remainder = h & 0xff.
    let mut qf = QuotientFilter::new(2, 8);
    let hashes = [0x3_05_u64, 0x3_01, 0x3_09, 0x2_07];
    for h in hashes {
        assert!(qf.insert_hash(h));
    }
    assert_eq!(qf.len(), 4);
    for h in hashes {
        assert!(qf.may_contain_hash(h));
    }
    // Full: nothing more is stored, and duplicates are refused.
    assert!(!qf.insert_hash(0x0_11));
    assert!(!qf.insert_hash(0x3_05));
    assert!(!qf.may_contain_hash(0x3_02));
    assert!(!qf.may_contain_hash(0x1_05));
}

#[test]
fn every_inserted_hash_is_found_in_a_crowded_filter() {
    let mut qf = QuotientFilter::new(3, 4); // 8 slots, 4-bit remainders
    let mut stored = Vec::new();
    let mut h: u64 = 7;
    for _ in 0..40 {
        h = h.wrapping_mul(6364136223846793005).wrapping_add(1442695040888963407);
        let before_full = qf.len() < qf.table_size();
        let newly = qf.insert_hash(h);
        if before_full {
            stored.push(h);
        }
        if newly {
            assert!(qf.may_contain_hash(h));
        }
        for s in &stored {
            assert!(qf.may_contain_hash(*s));
        }
    }
    assert_eq!(qf.len(), qf.table_size());
}

#[test]
fn an_inserted_hash_stays_found_through_later_inserts() {
    let mut qf = QuotientFilter::new(3, 6);
    assert!(qf.insert_hash(0x1_05));
    for h in [0x1_01_u64, 0x0_3f, 0x7_00, 0x1_09, 0x6_02] {
        qf.insert_hash(h);
        assert!(qf.may_contain_hash(0x1_05));
    }
}
