use fm_verified::diagnostics::{Position, Span};
use fm_verified::graph_ir::{IrClusterId, IrGraphCluster, IrGraphNode, IrNodeId, IrSubgraph, IrSubgraphId, MermaidGraphIr};
use fm_verified::taxonomy::IrNodeKind;

fn sample_span(line: usize, start_col: usize, end_col: usize) -> Span {
    Span::new(Position { line, col: start_col, byte: 0 }, Position { line, col: end_col, byte: 0 })
}

fn subgraph(id: usize, key: &str, parent: Option<usize>, children: Vec<usize>, members: Vec<usize>) -> IrSubgraph {
    IrSubgraph {
        id: IrSubgraphId(id),
        key: key.to_string(),
        title: None,
        parent: parent.map(IrSubgraphId),
        children: children.into_iter().map(IrSubgraphId).collect(),
        members: members.into_iter().map(IrNodeId).collect(),
        cluster: Some(IrClusterId(id)),
        grid_span: 1,
        span: sample_span(id + 1, 1, 1),
        direction: None,
    }
}

#[test]
fn graph_ir_traversal_helpers_follow_hierarchy_deterministically() {
    let mut graph = MermaidGraphIr::default();
    graph.nodes.push(IrGraphNode {
        node_id: IrNodeId(0),
        kind: IrNodeKind::Generic,
        clusters: vec![IrClusterId(0)],
        subgraphs: vec![IrSubgraphId(0)],
    });
    graph.nodes.push(IrGraphNode {
        node_id: IrNodeId(1),
        kind: IrNodeKind::Generic,
        clusters: vec![IrClusterId(0), IrClusterId(1)],
        subgraphs: vec![IrSubgraphId(0), IrSubgraphId(1)],
    });
    graph.nodes.push(IrGraphNode {
        node_id: IrNodeId(2),
        kind: IrNodeKind::Generic,
        clusters: vec![IrClusterId(0), IrClusterId(1), IrClusterId(2)],
        subgraphs: vec![IrSubgraphId(0), IrSubgraphId(1), IrSubgraphId(2)],
    });
    graph.clusters.push(IrGraphCluster {
        cluster_id: IrClusterId(0),
        title: None,
        members: vec![IrNodeId(0), IrNodeId(1), IrNodeId(2)],
        subgraph: Some(IrSubgraphId(0)),
        grid_span: 1,
        span: sample_span(1, 1, 1),
    });
    graph.clusters.push(IrGraphCluster {
        cluster_id: IrClusterId(1),
        title: None,
        members: vec![IrNodeId(1), IrNodeId(2)],
        subgraph: Some(IrSubgraphId(1)),
        grid_span: 1,
        span: sample_span(2, 1, 1),
    });
    graph.clusters.push(IrGraphCluster {
        cluster_id: IrClusterId(2),
        title: None,
        members: vec![IrNodeId(2)],
        subgraph: Some(IrSubgraphId(2)),
        grid_span: 1,
        span: sample_span(3, 1, 1),
    });
    graph.subgraphs.push(subgraph(0, "root", None, vec![1], vec![0, 1]));
    graph.subgraphs.push(subgraph(1, "child", Some(0), vec![2], vec![1, 2]));
    graph.subgraphs.push(subgraph(2, "leaf", Some(1), vec![], vec![2]));

    assert_eq!(
        graph.subgraph_ancestors(IrSubgraphId(2)).into_iter().map(|s| s.key.as_str()).collect::<Vec<_>>(),
        vec!["root", "child"]
    );
    assert_eq!(
        graph.subgraph_descendants(IrSubgraphId(0)).into_iter().map(|s| s.key.as_str()).collect::<Vec<_>>(),
        vec!["child", "leaf"]
    );
    assert_eq!(graph.leaf_subgraphs().into_iter().map(|s| s.key.as_str()).collect::<Vec<_>>(), vec!["leaf"]);
    assert_eq!(graph.subgraph_members_recursive(IrSubgraphId(0)), vec![IrNodeId(0), IrNodeId(1), IrNodeId(2)]);
    assert_eq!(
        graph.node_clusters(IrNodeId(2)).into_iter().map(|c| c.cluster_id).collect::<Vec<_>>(),
        vec![IrClusterId(0), IrClusterId(1), IrClusterId(2)]
    );
    assert_eq!(
        graph.node_subgraphs(IrNodeId(2)).into_iter().map(|s| s.id).collect::<Vec<_>>(),
        vec![IrSubgraphId(0), IrSubgraphId(1), IrSubgraphId(2)]
    );
}

#[test]
fn descendants_are_pre_order_and_skip_missing_subgraphs() {
    let mut graph = MermaidGraphIr::default();
    graph.subgraphs.push(subgraph(0, "a", None, vec![1, 9, 3], vec![5]));
    graph.subgraphs.push(subgraph(1, "b", Some(0), vec![2], vec![7, 5]));
    graph.subgraphs.push(subgraph(2, "c", Some(1), vec![], vec![4]));
    graph.subgraphs.push(subgraph(3, "d", Some(0), vec![], vec![1]));
    assert_eq!(
        graph.subgraph_descendants(IrSubgraphId(0)).into_iter().map(|s| s.key.as_str()).collect::<Vec<_>>(),
        vec!["b", "c", "d"]
    );
    assert_eq!(
        graph.subgraph_members_recursive(IrSubgraphId(0)),
        vec![IrNodeId(1), IrNodeId(4), IrNodeId(5), IrNodeId(7)]
    );
    assert_eq!(graph.subgraph_members_recursive(IrSubgraphId(1)), vec![IrNodeId(4), IrNodeId(5), IrNodeId(7)]);
    assert!(graph.subgraph_descendants(IrSubgraphId(8)).is_empty());
    assert!(graph.subgraph_members_recursive(IrSubgraphId(8)).is_empty());
}
