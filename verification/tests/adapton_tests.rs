use fm_verified::adapton::LayoutDcg;

/// Stand-in for graph metrics: node and edge counts.
type TestMetrics = (usize, usize);
/// Stand-in for a computed layout: node positions.
type TestLayout = Vec<(i64, i64)>;

fn make_test_metrics() -> TestMetrics {
    (10, 15)
}

fn make_test_layout() -> TestLayout {
    vec![(0, 0), (100, 100)]
}

#[test]
fn test_initial_state_is_dirty() {
    let mut dcg: LayoutDcg<TestMetrics, TestLayout> = LayoutDcg::new();

    assert!(dcg.metrics_dirty());
    assert!(dcg.ranks_dirty());
    assert!(dcg.orderings_dirty());
    assert!(dcg.layout_dirty());
    assert!(dcg.any_dirty());
    assert!(!dcg.fully_cached());
}

#[test]
fn test_set_metrics_clears_dirty() {
    let mut dcg: LayoutDcg<TestMetrics, TestLayout> = LayoutDcg::new();

    dcg.set_metrics(make_test_metrics());

    assert!(!dcg.metrics_dirty());
    assert!(dcg.ranks_dirty()); // Other phases still dirty
    assert!(dcg.get_metrics().is_some());
}

#[test]
fn test_ir_change_invalidates_all() {
    let mut dcg: LayoutDcg<TestMetrics, TestLayout> = LayoutDcg::new();

    // Populate all caches
    dcg.set_metrics(make_test_metrics());
    dcg.set_ranks(vec![0, 1, 1, 2]);
    dcg.set_orderings(vec![vec![0], vec![1, 2], vec![3]]);

    assert!(!dcg.metrics_dirty());
    assert!(!dcg.ranks_dirty());
    assert!(!dcg.orderings_dirty());

    // Change IR fingerprint
    dcg.set_ir_fingerprint(12345);

    // All should be dirty now
    assert!(dcg.metrics_dirty());
    assert!(dcg.ranks_dirty());
    assert!(dcg.orderings_dirty());
    assert!(dcg.layout_dirty());
}

#[test]
fn test_config_change_preserves_metrics() {
    let mut dcg: LayoutDcg<TestMetrics, TestLayout> = LayoutDcg::new();
    dcg.set_ir_fingerprint(100);

    // Populate caches
    dcg.set_metrics(make_test_metrics());
    dcg.set_ranks(vec![0, 1, 2]);
    dcg.set_orderings(vec![vec![0], vec![1], vec![2]]);

    assert!(!dcg.metrics_dirty());
    assert!(!dcg.ranks_dirty());
    assert!(!dcg.orderings_dirty());

    // Change config
    dcg.set_config_fingerprint(999);

    // Metrics and ranks should still be clean (topology didn't change)
    assert!(!dcg.metrics_dirty());
    // Orderings and layout depend on config
    assert!(dcg.orderings_dirty());
    assert!(dcg.layout_dirty());
}

#[test]
fn test_same_fingerprint_no_invalidation() {
    let mut dcg: LayoutDcg<TestMetrics, TestLayout> = LayoutDcg::new();
    dcg.set_ir_fingerprint(100);
    dcg.set_metrics(make_test_metrics());

    assert!(!dcg.metrics_dirty());

    // Set same fingerprint
    dcg.set_ir_fingerprint(100);

    // Should still be clean
    assert!(!dcg.metrics_dirty());
    assert_eq!(dcg.stats().input_changes, 1); // Only counted once
}

#[test]
fn test_stats_tracking() {
    let mut dcg: LayoutDcg<TestMetrics, TestLayout> = LayoutDcg::new();

    dcg.set_ir_fingerprint(100);
    dcg.set_config_fingerprint(200);
    assert_eq!(dcg.stats().input_changes, 2);

    dcg.set_metrics(make_test_metrics());
    assert_eq!(dcg.stats().metrics_recomputes, 1);

    let _ = dcg.get_metrics();
    assert_eq!(dcg.stats().metrics_hits, 1);

    let _ = dcg.get_metrics();
    assert_eq!(dcg.stats().metrics_hits, 2);
}

#[test]
fn test_dirty_summary() {
    let mut dcg: LayoutDcg<TestMetrics, TestLayout> = LayoutDcg::new();

    assert_eq!(dcg.dirty_summary(), "metrics, ranks, orderings, layout");

    dcg.set_metrics(make_test_metrics());
    dcg.set_ranks(vec![0, 1]);
    dcg.set_orderings(vec![vec![0], vec![1]]);

    assert_eq!(dcg.dirty_summary(), "layout");

    dcg.set_layout(make_test_layout());

    assert_eq!(dcg.dirty_summary(), "clean");
}

#[test]
fn test_invalidate_all() {
    let mut dcg: LayoutDcg<TestMetrics, TestLayout> = LayoutDcg::new();
    dcg.set_metrics(make_test_metrics());
    dcg.set_ranks(vec![0]);
    dcg.set_orderings(vec![vec![0]]);
    dcg.set_layout(make_test_layout());

    assert!(dcg.fully_cached());

    dcg.invalidate_all();

    assert!(!dcg.fully_cached());
    assert!(dcg.metrics_dirty());
    assert!(dcg.get_metrics().is_none());
}
