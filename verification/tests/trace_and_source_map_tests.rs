use fm_verified::diagnostics::{Position, Span};
use fm_verified::graph_ir::IrClusterId;
use fm_verified::lens::source_map;
use fm_verified::model::{IrCluster, IrEdge, IrNode};
use fm_verified::taxonomy::{DiagramType, MermaidSourceMapKind};
use fm_verified::trace_ids::{
    mermaid_decision_id, mermaid_layout_guard_policy_id, mermaid_trace_id, stable_u128_hash, stable_u64_hash,
};

fn fnv(parts: &[&str]) -> u64 {
    let mut h = 0xcbf2_9ce4_8422_2325_u64;
    for p in parts {
        for b in p.as_bytes() {
            h ^= u64::from(*b);
            h = h.wrapping_mul(0x0100_0000_01b3);
        }
    }
    h
}

#[test]
fn stable_hashes_are_fnv1a_of_salt_domain_and_parts() {
    assert_eq!(stable_u64_hash("", "", &[]), 0xcbf2_9ce4_8422_2325);
    assert_eq!(stable_u64_hash("a", "", &[]), 0xaf63_dc4c_8601_ec8c);
    assert_eq!(stable_u64_hash("upper", "trace", &["svg", "é"]), fnv(&["upper", "trace", "svg", "é"]));
    let h = stable_u128_hash("trace", &["svg", "graph TD"]);
    assert_eq!((h >> 64) as u64, fnv(&["upper", "trace", "svg", "graph TD"]));
    assert_eq!(h as u64, fnv(&["lower", "trace", "svg", "graph TD"]));
}

#[test]
fn trace_and_decision_ids_hash_their_inputs() {
    let trace = mermaid_trace_id("svg", "graph TD; A-->B");
    assert_eq!(trace.as_u128(), stable_u128_hash("trace", &["svg", "graph TD; A-->B"]));
    assert_eq!(mermaid_trace_id("svg", "graph TD; A-->B"), trace);
    assert_ne!(mermaid_trace_id("term", "graph TD; A-->B"), trace);
    let policy = mermaid_layout_guard_policy_id();
    assert_eq!(policy.name(), "fm.layout.guard");
    assert_eq!(policy.version(), 1);
    let decision = mermaid_decision_id(trace, &policy, "layout.guard", "sugiyama");
    let text = format!("{:032x}", trace.as_u128());
    assert_eq!(
        decision.as_u128(),
        stable_u128_hash("decision", &[text.as_str(), "fm.layout.guard", "1", "layout.guard", "sugiyama"])
    );
}

fn span(line: usize) -> Span {
    Span::new(Position { line, col: 1, byte: 0 }, Position { line, col: 3, byte: 0 })
}

#[test]
fn source_map_lists_known_spans_of_nodes_edges_and_clusters() {
    let nodes = vec![
        IrNode { id: "Alpha".to_string(), span_primary: span(1), ..Default::default() },
        IrNode { id: "Hidden".to_string(), ..Default::default() },
        IrNode { id: String::new(), span_primary: span(3), ..Default::default() },
    ];
    let edges = vec![IrEdge { span: span(4), ..Default::default() }, IrEdge::default()];
    let clusters = vec![IrCluster { id: IrClusterId(7), span: span(5), ..Default::default() }];
    let map = source_map(DiagramType::Flowchart, &nodes, &edges, &clusters);
    assert_eq!(map.diagram_type, DiagramType::Flowchart);
    let got: Vec<(MermaidSourceMapKind, usize, &str, Option<&str>)> = map
        .entries
        .iter()
        .map(|e| (e.kind, e.index, e.element_id.as_str(), e.source_id.as_deref()))
        .collect();
    assert_eq!(
        got,
        vec![
            (MermaidSourceMapKind::Node, 0, "fm-node-alpha-0", Some("Alpha")),
            (MermaidSourceMapKind::Node, 2, "fm-node-2", None),
            (MermaidSourceMapKind::Edge, 0, "fm-edge-0", None),
            (MermaidSourceMapKind::Cluster, 0, "fm-cluster-0", Some("7")),
        ]
    );
    assert_eq!(map.entries[2].span, span(4));
}
