use fm_verified::cache_oblivious::{morton_code, morton_decode, veb_layout_order, BlockedEdgeGroups};

#[test]
fn morton_code_zero() {
    assert_eq!(morton_code(0, 0), 0);
}

#[test]
fn morton_code_simple() {
    // x=1 (0b1), y=0 → interleave → 0b01 = 1
    assert_eq!(morton_code(1, 0), 1);
    // x=0, y=1 → interleave → 0b10 = 2
    assert_eq!(morton_code(0, 1), 2);
    // x=1, y=1 → interleave → 0b11 = 3
    assert_eq!(morton_code(1, 1), 3);
}

#[test]
fn morton_roundtrip() {
    let test_cases = [(0, 0), (1, 0), (0, 1), (1, 1), (255, 255), (1000, 2000)];
    for (x, y) in test_cases {
        let code = morton_code(x, y);
        let (dx, dy) = morton_decode(code);
        assert_eq!((dx, dy), (x, y), "Morton roundtrip failed for ({x}, {y})");
    }
}

#[test]
fn morton_preserves_locality() {
    // Close points should have close Morton codes.
    let c1 = morton_code(10, 10);
    let c2 = morton_code(11, 10);
    let c3 = morton_code(1000, 1000);

    // c1 and c2 should be closer than c1 and c3.
    let diff_close = c1.abs_diff(c2);
    let diff_far = c1.abs_diff(c3);
    assert!(
        diff_close < diff_far,
        "Close points should have closer Morton codes"
    );
}

#[test]
fn blocked_edges_empty() {
    let groups = BlockedEdgeGroups::from_ranks(&[], 0);
    assert_eq!(groups.total_edges(), 0);
}

#[test]
fn blocked_edges_groups_by_rank() {
    // 5 edges with source ranks: [0, 1, 0, 2, 1]
    let ranks = [0, 1, 0, 2, 1];
    let groups = BlockedEdgeGroups::from_ranks(&ranks, 3);

    assert_eq!(groups.edges_for_rank(0), &[0, 2]);
    assert_eq!(groups.edges_for_rank(1), &[1, 4]);
    assert_eq!(groups.edges_for_rank(2), &[3]);
    assert_eq!(groups.total_edges(), 5);
}

#[test]
fn blocked_edges_out_of_range_rank() {
    let groups = BlockedEdgeGroups::from_ranks(&[0, 1], 3);
    assert!(groups.edges_for_rank(99).is_empty());
}

#[test]
fn veb_layout_empty() {
    assert!(veb_layout_order(0).is_empty());
}

#[test]
fn veb_layout_single() {
    assert_eq!(veb_layout_order(1), vec![0]);
}

#[test]
fn veb_layout_small() {
    let order = veb_layout_order(7);
    assert_eq!(order.len(), 7);
    // All indices 0..7 should appear exactly once.
    let mut sorted = order;
    sorted.sort_unstable();
    assert_eq!(sorted, vec![0, 1, 2, 3, 4, 5, 6]);
}

#[test]
fn veb_layout_preserves_all_indices() {
    for n in [3, 7, 15, 31, 63] {
        let order = veb_layout_order(n);
        assert_eq!(order.len(), n);
        let mut sorted = order.clone();
        sorted.sort_unstable();
        let expected: Vec<usize> = (0..n).collect();
        assert_eq!(
            sorted, expected,
            "vEB layout for n={n} should be a permutation"
        );
    }
}

#[test]
fn veb_layout_seven_nodes_top_then_subtrees() {
    // Height 3: the root, then the subtree at 1 (1, 3, 4), then at 2 (2, 5, 6).
    assert_eq!(veb_layout_order(7), vec![0, 1, 3, 4, 2, 5, 6]);
    assert_eq!(veb_layout_order(5)[0], 0);
}
