use fm_verified::egraph_ordering::{
    adjacent_swap, all_adjacent_swaps, block_rotate, crossing_count, estimate_egraph_size,
    local_crossing_count, median_position, merge_sort_count, move_node, optimize_layer_ordering,
    should_use_egraph, LayerEdges, LayerOrdering,
};


#[test]
fn identity_ordering() {
    let o = LayerOrdering::identity(5);
    assert_eq!(o.order, vec![0, 1, 2, 3, 4]);
    assert_eq!(o.len(), 5);
    assert_eq!(o.position_of(3), Some(3));
    assert_eq!(o.position_of(99), None);
}

#[test]
fn adjacent_swap_basic() {
    let o = LayerOrdering::new(vec![0, 1, 2, 3]);
    let swapped = adjacent_swap(&o, 1).unwrap();
    assert_eq!(swapped.order, vec![0, 2, 1, 3]);
}

#[test]
fn adjacent_swap_out_of_bounds() {
    let o = LayerOrdering::new(vec![0, 1, 2]);
    assert!(adjacent_swap(&o, 2).is_none());
    assert!(adjacent_swap(&o, 5).is_none());
}

#[test]
fn block_rotate_basic() {
    let o = LayerOrdering::new(vec![0, 1, 2, 3, 4]);
    let rotated = block_rotate(&o, 1, 3, 1).unwrap();
    assert_eq!(rotated.order, vec![0, 2, 3, 1, 4]);
}

#[test]
fn block_rotate_full() {
    let o = LayerOrdering::new(vec![0, 1, 2, 3]);
    let rotated = block_rotate(&o, 0, 4, 2).unwrap();
    assert_eq!(rotated.order, vec![2, 3, 0, 1]);
}

#[test]
fn move_node_basic() {
    let o = LayerOrdering::new(vec![0, 1, 2, 3, 4]);
    let moved = move_node(&o, 4, 1).unwrap();
    assert_eq!(moved.order, vec![0, 4, 1, 2, 3]);
}

#[test]
fn move_node_same_position() {
    let o = LayerOrdering::new(vec![0, 1, 2]);
    let moved = move_node(&o, 1, 1).unwrap();
    assert_eq!(moved.order, o.order);
}

#[test]
fn crossing_count_no_crossings() {
    // Upper: [A, B], Lower: [C, D]
    // Edges: A→C, B→D (parallel, no crossings)
    let upper = LayerOrdering::new(vec![0, 1]);
    let lower = LayerOrdering::new(vec![2, 3]);
    let edges = LayerEdges {
        edges: vec![(0, 2), (1, 3)],
    };

    assert_eq!(crossing_count(&upper, &lower, &edges), 0);
}

#[test]
fn crossing_count_one_crossing() {
    // Upper: [A, B], Lower: [C, D]
    // Edges: A→D, B→C (crossing!)
    let upper = LayerOrdering::new(vec![0, 1]);
    let lower = LayerOrdering::new(vec![2, 3]);
    let edges = LayerEdges {
        edges: vec![(0, 3), (1, 2)],
    };

    assert_eq!(crossing_count(&upper, &lower, &edges), 1);
}

#[test]
fn crossing_count_multiple() {
    // Upper: [0, 1, 2], Lower: [3, 4, 5]
    // Edges: 0→5, 1→4, 2→3 (all cross = 3 crossings)
    let upper = LayerOrdering::new(vec![0, 1, 2]);
    let lower = LayerOrdering::new(vec![3, 4, 5]);
    let edges = LayerEdges {
        edges: vec![(0, 5), (1, 4), (2, 3)],
    };

    assert_eq!(crossing_count(&upper, &lower, &edges), 3);
}

#[test]
fn crossing_count_empty_edges() {
    let upper = LayerOrdering::new(vec![0, 1]);
    let lower = LayerOrdering::new(vec![2, 3]);
    let edges = LayerEdges { edges: vec![] };

    assert_eq!(crossing_count(&upper, &lower, &edges), 0);
}

#[test]
fn swap_reduces_crossings() {
    // Upper: [0, 1], Lower: [2, 3]
    // Edges: 0→3, 1→2 — 1 crossing.
    // After swap(upper, 0): Upper becomes [1, 0] — 0 crossings.
    let upper = LayerOrdering::new(vec![0, 1]);
    let lower = LayerOrdering::new(vec![2, 3]);
    let edges = LayerEdges {
        edges: vec![(0, 3), (1, 2)],
    };

    let before = crossing_count(&upper, &lower, &edges);
    let swapped = adjacent_swap(&upper, 0).unwrap();
    let after = crossing_count(&swapped, &lower, &edges);

    assert_eq!(before, 1);
    assert_eq!(after, 0);
}

#[test]
fn median_position_basic() {
    // Node 0 connects to nodes at positions 1, 3, 5 in adjacent layer.
    let adjacent = LayerOrdering::new(vec![10, 11, 12, 13, 14, 15]);
    let edges = LayerEdges {
        edges: vec![(0, 11), (0, 13), (0, 15)],
    };

    let median = median_position(0, &adjacent, &edges, true);
    assert_eq!(median, Some(3)); // median of [1, 3, 5] = 3
}

#[test]
fn median_position_no_neighbors() {
    let adjacent = LayerOrdering::new(vec![10, 11, 12]);
    let edges = LayerEdges { edges: vec![] };

    assert!(median_position(0, &adjacent, &edges, true).is_none());
}

#[test]
fn all_swaps_count() {
    let o = LayerOrdering::identity(5);
    let swaps = all_adjacent_swaps(&o);
    assert_eq!(swaps.len(), 4); // n-1 = 4 possible adjacent swaps
}

#[test]
fn all_swaps_single_element() {
    let o = LayerOrdering::identity(1);
    assert!(all_adjacent_swaps(&o).is_empty());
}

#[test]
fn estimate_scales_quadratically() {
    let (n10, _) = estimate_egraph_size(10);
    let (n50, _) = estimate_egraph_size(50);
    let (n100, _) = estimate_egraph_size(100);

    assert_eq!(n10, 100);
    assert_eq!(n50, 2500);
    assert_eq!(n100, 10000);
}

#[test]
fn should_use_egraph_threshold() {
    assert!(should_use_egraph(50));
    assert!(should_use_egraph(100));
    assert!(!should_use_egraph(101));
    assert!(!should_use_egraph(500));
}

#[test]
fn crossing_count_deterministic() {
    let upper = LayerOrdering::new(vec![0, 1, 2, 3]);
    let lower = LayerOrdering::new(vec![4, 5, 6, 7]);
    let edges = LayerEdges {
        edges: vec![(0, 7), (1, 5), (2, 6), (3, 4)],
    };

    let c1 = crossing_count(&upper, &lower, &edges);
    let c2 = crossing_count(&upper, &lower, &edges);
    assert_eq!(c1, c2);
}

#[test]
fn local_crossing_count_sums_both_adjacent_pairs() {
    let upper = LayerOrdering::new(vec![0, 1, 2]);
    let current = LayerOrdering::new(vec![4, 3, 5]);
    let lower = LayerOrdering::new(vec![6, 7, 8]);
    let upper_edges = LayerEdges {
        edges: vec![(0, 3), (1, 4)],
    };
    let lower_edges = LayerEdges {
        edges: vec![(4, 6), (4, 7)],
    };

    assert_eq!(
        local_crossing_count(
            &current,
            Some((&upper, &upper_edges)),
            Some((&lower, &lower_edges))
        ),
        1
    );
}

#[test]
fn optimize_layer_ordering_improves_combined_crossings() {
    let upper = LayerOrdering::new(vec![0, 1, 2]);
    let current = LayerOrdering::new(vec![4, 3, 5]);
    let lower = LayerOrdering::new(vec![6, 7, 8]);
    let upper_edges = LayerEdges {
        edges: vec![(0, 3), (1, 4)],
    };
    let lower_edges = LayerEdges {
        edges: vec![(4, 6), (4, 7)],
    };

    let result = optimize_layer_ordering(
        &current,
        Some((&upper, &upper_edges)),
        Some((&lower, &lower_edges)),
    );

    assert_eq!(result.ordering.order, vec![3, 4, 5]);
    assert_eq!(result.crossing_count, 0);
    assert!(result.rewrites_applied > 0);
}

#[test]
fn merge_sort_inversion_count() {
    // [3, 1, 2] has 2 inversions: (3,1) and (3,2)
    let (sorted, inv) = merge_sort_count(&[3, 1, 2]);
    assert_eq!(sorted, vec![1, 2, 3]);
    assert_eq!(inv, 2);
}

#[test]
fn merge_sort_sorted_input() {
    let (sorted, inv) = merge_sort_count(&[1, 2, 3, 4]);
    assert_eq!(sorted, vec![1, 2, 3, 4]);
    assert_eq!(inv, 0);
}

#[test]
fn merge_sort_reversed_input() {
    // [4, 3, 2, 1] has 6 inversions (n*(n-1)/2)
    let (sorted, inv) = merge_sort_count(&[4, 3, 2, 1]);
    assert_eq!(sorted, vec![1, 2, 3, 4]);
    assert_eq!(inv, 6);
}

#[test]
fn optimize_layer_ordering_each_rewrite_removes_a_crossing() {
    let upper = LayerOrdering::new(vec![0, 1, 2, 3]);
    let current = LayerOrdering::new(vec![7, 6, 5, 4]);
    let edges = LayerEdges {
        edges: vec![(0, 4), (1, 5), (2, 6), (3, 7)],
    };
    let before = local_crossing_count(&current, Some((&upper, &edges)), None);
    let result = optimize_layer_ordering(&current, Some((&upper, &edges)), None);
    assert_eq!(before, 6);
    assert!(result.crossing_count + result.rewrites_applied <= before);
    assert_eq!(result.crossing_count, 0);
    assert_eq!(result.ordering.order, vec![4, 5, 6, 7]);
}
