use fm_verified::directed::{compute_reachability, compute_scc, compute_wcc, detect_directed_cycles};
use fm_verified::graph_ir::{IrEndpoint, IrNodeId, IrPortId};
use fm_verified::model::IrEdge;

fn edge(from: usize, to: usize) -> IrEdge {
    IrEdge { from: IrEndpoint::Node(IrNodeId(from)), to: IrEndpoint::Node(IrNodeId(to)), ..Default::default() }
}

/// A graph over nodes 0..=max of the listed edges, as the original test helper builds it.
fn graph(edges: &[(usize, usize)]) -> (usize, Vec<IrEdge>) {
    let max_node = edges.iter().map(|&(a, b)| a.max(b)).max().unwrap_or(0);
    (max_node + 1, edges.iter().map(|&(a, b)| edge(a, b)).collect())
}

#[test]
fn scc_empty_graph() {
    let result = compute_scc(0, &[]);
    assert_eq!(result.components.len(), 0);
    assert_eq!(result.non_trivial_count, 0);
}

#[test]
fn scc_single_node() {
    let result = compute_scc(1, &[]);
    assert_eq!(result.components.len(), 1);
    assert!(result.components[0].is_trivial);
}

#[test]
fn scc_linear_chain() {
    let (n, edges) = graph(&[(0, 1), (1, 2)]);
    let result = compute_scc(n, &edges);
    assert_eq!(result.components.len(), 3);
    assert_eq!(result.non_trivial_count, 0);
    for comp in &result.components {
        assert!(comp.is_trivial);
        assert_eq!(comp.nodes.len(), 1);
    }
}

#[test]
fn scc_simple_cycle() {
    let (n, edges) = graph(&[(0, 1), (1, 2), (2, 0)]);
    let result = compute_scc(n, &edges);
    assert_eq!(result.components.len(), 1);
    assert_eq!(result.non_trivial_count, 1);
    assert!(!result.components[0].is_trivial);
    assert_eq!(result.components[0].nodes, vec![0, 1, 2]);
}

#[test]
fn scc_two_components() {
    let (n, edges) = graph(&[(0, 1), (1, 0), (2, 3)]);
    let result = compute_scc(n, &edges);
    assert_eq!(result.components.len(), 3);
    assert_eq!(result.non_trivial_count, 1);
}

#[test]
fn scc_deterministic_ordering() {
    let (n, edges) = graph(&[(2, 3), (3, 2), (0, 1), (1, 0)]);
    let result1 = compute_scc(n, &edges);
    let result2 = compute_scc(n, &edges);
    assert_eq!(result1, result2, "SCC results must be deterministic");
    assert!(result1.components[0].nodes.contains(&0));
}

#[test]
fn wcc_empty_graph() {
    let result = compute_wcc(0, &[]);
    assert_eq!(result.components.len(), 0);
    assert!(result.is_connected);
}

#[test]
fn wcc_connected_graph() {
    let (n, edges) = graph(&[(0, 1), (1, 2)]);
    let result = compute_wcc(n, &edges);
    assert_eq!(result.components.len(), 1);
    assert!(result.is_connected);
    assert_eq!(result.components[0].nodes, vec![0, 1, 2]);
}

#[test]
fn wcc_disconnected_graph() {
    let (n, edges) = graph(&[(0, 1), (2, 3)]);
    let result = compute_wcc(n, &edges);
    assert_eq!(result.components.len(), 2);
    assert!(!result.is_connected);
}

#[test]
fn cycles_no_cycles() {
    let (n, edges) = graph(&[(0, 1), (1, 2)]);
    let result = detect_directed_cycles(n, &edges);
    assert!(!result.has_cycles);
    assert!(result.cycles.is_empty());
}

#[test]
fn cycles_simple_cycle() {
    let (n, edges) = graph(&[(0, 1), (1, 2), (2, 0)]);
    let result = detect_directed_cycles(n, &edges);
    assert!(result.has_cycles);
    assert!(!result.cycles.is_empty());
    assert!(result.cyclic_nodes.contains(&0));
    assert!(result.cyclic_nodes.contains(&1));
    assert!(result.cyclic_nodes.contains(&2));
}

#[test]
fn cycles_self_loop() {
    let (n, edges) = graph(&[(0, 0)]);
    let result = detect_directed_cycles(n, &edges);
    assert!(result.has_cycles);
    assert!(result.cyclic_nodes.contains(&0));
}

#[test]
fn reachability_linear() {
    let (n, edges) = graph(&[(0, 1), (1, 2)]);
    let result = compute_reachability(n, &edges);
    assert!(result.reachable_from[&0].contains(&1));
    assert!(result.reachable_from[&0].contains(&2));
    assert!(result.reachable_from[&2].is_empty());
    assert!(result.sources.contains(&0));
    assert!(result.sinks.contains(&2));
}

#[test]
fn reachability_cycle() {
    let (n, edges) = graph(&[(0, 1), (1, 0)]);
    let result = compute_reachability(n, &edges);
    assert!(result.reachable_from[&0].contains(&1));
    assert!(result.reachable_from[&1].contains(&0));
    assert!(result.sources.is_empty());
    assert!(result.sinks.is_empty());
}

#[test]
fn scc_with_isolated_nodes() {
    let edges = vec![edge(0, 1), edge(1, 0)];
    let result = compute_scc(3, &edges);
    assert_eq!(result.components.len(), 2);
    assert_eq!(result.non_trivial_count, 1);
    let node2_comp = result.node_to_component[&2];
    assert!(result.components[node2_comp].is_trivial);
    assert_eq!(result.components[node2_comp].nodes, vec![2]);
}

#[test]
fn wcc_isolated_node_forms_own_component() {
    let edges = vec![edge(0, 1)];
    let result = compute_wcc(3, &edges);
    assert_eq!(result.components.len(), 2);
    assert!(!result.is_connected);
    let node2_comp = result.node_to_component[&2];
    assert_eq!(result.components[node2_comp].nodes, vec![2]);
}

#[test]
fn wcc_self_loop_only_node_is_isolated() {
    let (n, edges) = graph(&[(0, 0), (1, 2)]);
    let result = compute_wcc(n, &edges);
    assert_eq!(result.components.len(), 2);
    assert!(!result.is_connected);
}

#[test]
fn reachability_isolated_nodes() {
    let edges = vec![edge(0, 1)];
    let result = compute_reachability(3, &edges);
    assert!(result.sources.contains(&2));
    assert!(result.sinks.contains(&2));
    assert!(result.reachable_from[&2].is_empty());
    assert!(result.reaches_to[&2].is_empty());
}

#[test]
fn cycles_determinism() {
    let (n, edges) = graph(&[(0, 1), (1, 2), (2, 0)]);
    let result1 = detect_directed_cycles(n, &edges);
    let result2 = detect_directed_cycles(n, &edges);
    assert_eq!(result1, result2, "Cycle detection must be deterministic");
}

#[test]
fn reaches_to_mirrors_reachable_from() {
    let (n, edges) = graph(&[(0, 1), (1, 2), (3, 1)]);
    let result = compute_reachability(n, &edges);
    for s in 0..n {
        for t in 0..n {
            assert_eq!(result.reachable_from[&s].contains(&t), result.reaches_to[&t].contains(&s));
        }
    }
    assert_eq!(result.reaches_to[&2].iter().copied().collect::<Vec<_>>(), vec![0, 1, 3]);
    assert_eq!(result.sources.iter().copied().collect::<Vec<_>>(), vec![0, 3]);
    assert_eq!(result.sinks.iter().copied().collect::<Vec<_>>(), vec![2]);
}

#[test]
fn cycle_extraction_lists_cycle_in_order_with_entering_edges() {
    // 0 -> 1 -> 2 -> 0, found by the back edge 2 -> 0 (edge 2).
    let (n, edges) = graph(&[(0, 1), (1, 2), (2, 0)]);
    let result = detect_directed_cycles(n, &edges);
    assert_eq!(result.cycles.len(), 1);
    assert_eq!(result.cycles[0].nodes, vec![1, 2, 0]);
    assert_eq!(result.cycles[0].edges, vec![0, 1, 2]);
    assert_eq!(result.cyclic_edges.iter().copied().collect::<Vec<_>>(), vec![0, 1, 2]);
}

#[test]
fn cycles_ignore_ports_and_unknown_nodes() {
    let edges = vec![
        IrEdge { from: IrEndpoint::Port(IrPortId(0)), to: IrEndpoint::Node(IrNodeId(0)), ..Default::default() },
        edge(0, 5),
        edge(0, 1),
    ];
    let result = detect_directed_cycles(2, &edges);
    assert!(!result.has_cycles);
    let scc = compute_scc(2, &edges);
    assert_eq!(scc.components.len(), 2);
}

#[test]
fn scc_components_ordered_by_least_node() {
    let (n, edges) = graph(&[(3, 4), (4, 3), (1, 2), (2, 1), (0, 3)]);
    let result = compute_scc(n, &edges);
    let firsts: Vec<usize> = result.components.iter().map(|c| c.nodes[0]).collect();
    assert_eq!(firsts, vec![0, 1, 3]);
    assert_eq!(result.max_component_size, 2);
    assert_eq!(result.components[2].nodes, vec![3, 4]);
    for (i, c) in result.components.iter().enumerate() {
        assert_eq!(c.index, i);
    }
}
