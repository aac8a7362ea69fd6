use fm_verified::egraph_crossing::{
    budget_report, finish_saturation, saturate_layer_if_improves, select_best_ordering, BudgetType,
    CrossingContext, SaturationConfig, SaturationResult, SaturationStop,
};
use fm_verified::egraph_ordering::{LayerEdges, LayerOrdering};

#[test]
fn saturation_if_improves_returns_none_when_no_improvement() {
    // No edges = 0 crossings already; saturation can only come back with 0 as well.
    let initial = LayerOrdering::new(vec![0, 1, 2]);
    let ctx = CrossingContext::default();
    let saturated = SaturationResult {
        ordering: LayerOrdering::new(vec![0, 1, 2]),
        crossing_count: 0,
        egraph_nodes: 7,
        iterations: 3,
        hit_limit: false,
        budget_exhausted: None,
    };

    let result = saturate_layer_if_improves(&initial, &ctx, saturated);

    assert!(result.is_none());
}

#[test]
fn config_defaults_are_reasonable() {
    let config = SaturationConfig::default();
    assert_eq!(config.node_limit, 10_000);
    assert_eq!(config.iter_limit, 30);
    assert_eq!(config.time_limit_ms, 100);
}

use fm_verified::egraph_crossing::{collect_orderings, extract_best_ordering, OrderingNode};

/// Classes of the e-graph of both orders of a two-node layer: 0 `nil`, 1 `node_0`,
/// 2 `node_1`, 3 `(seq node_1 nil)`, 4 `(seq node_0 nil)`, 5 the root.
fn two_node_table() -> Vec<Vec<OrderingNode>> {
    vec![
        vec![OrderingNode::Nil],
        vec![OrderingNode::Symbol(Some(0))],
        vec![OrderingNode::Symbol(Some(1))],
        vec![OrderingNode::Cons(2, 0)],
        vec![OrderingNode::Cons(1, 0)],
        vec![OrderingNode::Cons(1, 3), OrderingNode::Cons(2, 4)],
    ]
}

#[test]
fn collect_orderings_reads_both_orders_last_continuation_first() {
    let orderings = collect_orderings(&two_node_table(), 5, 100);
    let orders: Vec<Vec<usize>> = orderings.iter().map(|o| o.order.clone()).collect();
    assert_eq!(orders, vec![vec![1, 0], vec![0, 1]]);
}

#[test]
fn collect_orderings_stops_at_the_limit() {
    let orderings = collect_orderings(&two_node_table(), 5, 1);
    assert_eq!(orderings.len(), 1);
    assert_eq!(orderings[0].order, vec![1, 0]);
    assert!(collect_orderings(&two_node_table(), 5, 0).is_empty());
}

#[test]
fn collect_orderings_on_a_cycle_stops_at_the_table_size() {
    let table = vec![
        vec![OrderingNode::Nil, OrderingNode::Cons(1, 0)],
        vec![OrderingNode::Symbol(Some(7)), OrderingNode::Symbol(None)],
    ];
    let orders: Vec<Vec<usize>> = collect_orderings(&table, 0, 100).iter().map(|o| o.order.clone()).collect();
    assert_eq!(orders, vec![vec![], vec![7]]);
}

#[test]
fn extract_best_ordering_picks_the_uncrossed_order() {
    // Upper layer [0, 1]; edges 0 -> 1 and 1 -> 0 cross when the layer reads [0, 1].
    let ctx = CrossingContext {
        upper_ordering: Some(LayerOrdering::new(vec![0, 1])),
        upper_edges: Some(LayerEdges { edges: vec![(0, 1), (1, 0)] }),
        lower_ordering: None,
        lower_edges: None,
    };
    let (best, crossings) = extract_best_ordering(&two_node_table(), 5, &ctx).unwrap();
    assert_eq!(best.order, vec![1, 0]);
    assert_eq!(crossings, 0);
    let only_crossed = vec![
        vec![OrderingNode::Nil],
        vec![OrderingNode::Symbol(Some(0))],
        vec![OrderingNode::Symbol(Some(1))],
        vec![OrderingNode::Cons(2, 0)],
        vec![OrderingNode::Cons(1, 3)],
    ];
    let (o, c) = extract_best_ordering(&only_crossed, 4, &ctx).unwrap();
    assert_eq!(o.order, vec![0, 1]);
    assert_eq!(c, 1);
    assert!(extract_best_ordering(&vec![vec![OrderingNode::Symbol(None)]], 0, &ctx).is_none());
}
