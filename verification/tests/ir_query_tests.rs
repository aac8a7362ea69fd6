use fm_verified::diagnostics::{Diagnostic, Position, Span};
use fm_verified::graph_ir::{IrEndpoint, IrGraphEdge, IrNodeId, IrPort, IrPortId, MermaidGraphIr};
use fm_verified::ir_queries::{
    diagnostic_counts, diagnostics_by_category, diagnostics_by_severity, find_node, find_node_index, graph_incident_edges,
    graph_incoming_edges, graph_neighbors, graph_outgoing_edges, has_errors, has_warnings,
};
use fm_verified::model::IrNode;
use fm_verified::taxonomy::{DiagnosticCategory, DiagnosticSeverity, IrEdgeKind, IrPortSideHint};

fn sample_span(line: usize, start_col: usize, end_col: usize) -> Span {
    Span::new(Position { line, col: start_col, byte: 0 }, Position { line, col: end_col, byte: 0 })
}

#[test]
fn ir_diagnostic_helpers() {
    let mut diagnostics: Vec<Diagnostic> = Vec::new();
    assert!(!has_errors(&diagnostics));
    assert!(!has_warnings(&diagnostics));

    diagnostics.push(Diagnostic::warning("a warning"));
    assert!(!has_errors(&diagnostics));
    assert!(has_warnings(&diagnostics));

    diagnostics.push(Diagnostic::error("an error"));
    assert!(has_errors(&diagnostics));

    let counts = diagnostic_counts(&diagnostics);
    assert_eq!(counts.warnings, 1);
    assert_eq!(counts.errors, 1);
    assert_eq!(counts.total(), 2);
}

#[test]
fn ir_diagnostic_filtering() {
    let diagnostics = vec![
        Diagnostic::warning("w1").with_category(DiagnosticCategory::Parser),
        Diagnostic::warning("w2").with_category(DiagnosticCategory::Semantic),
        Diagnostic::error("e1").with_category(DiagnosticCategory::Parser),
    ];
    let parser_diags = diagnostics_by_category(&diagnostics, DiagnosticCategory::Parser);
    assert_eq!(parser_diags.len(), 2);
    let warnings = diagnostics_by_severity(&diagnostics, DiagnosticSeverity::Warning);
    assert_eq!(warnings.len(), 2);
}

#[test]
fn ir_helpers_find_node_and_batch_add_diagnostics() {
    let nodes = vec![
        IrNode { id: "A".to_string(), ..Default::default() },
        IrNode { id: "B".to_string(), ..Default::default() },
    ];
    let mut diagnostics: Vec<Diagnostic> = Vec::new();
    diagnostics.extend(vec![
        Diagnostic::hint("hint"),
        Diagnostic::info("info"),
        Diagnostic::warning("warning"),
        Diagnostic::error("error"),
    ]);

    assert_eq!(find_node_index(&nodes, "A"), Some(0));
    assert_eq!(find_node(&nodes, "B").map(|node| node.id.as_str()), Some("B"));
    assert_eq!(find_node_index(&nodes, "missing"), None);

    let counts = diagnostic_counts(&diagnostics);
    assert_eq!(counts.hints, 1);
    assert_eq!(counts.infos, 1);
    assert_eq!(counts.warnings, 1);
    assert_eq!(counts.errors, 1);
    assert_eq!(counts.total(), 4);
}

#[test]
fn endpoint_resolution_and_graph_adjacency_helpers_handle_ports() {
    let ports = vec![
        IrPort { node: IrNodeId(1), name: "out".to_string(), side_hint: IrPortSideHint::Horizontal, span: sample_span(1, 1, 1) },
        IrPort { node: IrNodeId(2), name: "in".to_string(), side_hint: IrPortSideHint::Horizontal, span: sample_span(1, 1, 1) },
    ];
    let mut graph = MermaidGraphIr::default();
    graph.edges.push(IrGraphEdge {
        edge_id: 0,
        kind: IrEdgeKind::Generic,
        from: IrEndpoint::Node(IrNodeId(0)),
        to: IrEndpoint::Port(IrPortId(0)),
        span: sample_span(1, 1, 1),
    });
    graph.edges.push(IrGraphEdge {
        edge_id: 1,
        kind: IrEdgeKind::Generic,
        from: IrEndpoint::Port(IrPortId(0)),
        to: IrEndpoint::Port(IrPortId(1)),
        span: sample_span(1, 1, 1),
    });
    graph.edges.push(IrGraphEdge {
        edge_id: 2,
        kind: IrEdgeKind::Generic,
        from: IrEndpoint::Node(IrNodeId(2)),
        to: IrEndpoint::Node(IrNodeId(0)),
        span: sample_span(1, 1, 1),
    });

    assert_eq!(IrEndpoint::Port(IrPortId(0)).resolved_node_id(&ports), Some(IrNodeId(1)));
    assert_eq!(IrEndpoint::Port(IrPortId(1)).resolved_node_id(&ports), Some(IrNodeId(2)));
    assert_eq!(graph_incident_edges(&graph, &ports, IrNodeId(0)).len(), 2);
    assert_eq!(graph_outgoing_edges(&graph, &ports, IrNodeId(1)).len(), 1);
    assert_eq!(graph_incoming_edges(&graph, &ports, IrNodeId(2)).len(), 1);
    assert_eq!(graph_neighbors(&graph, &ports, IrNodeId(0)), vec![IrNodeId(1), IrNodeId(2)]);
    assert_eq!(graph_neighbors(&graph, &ports, IrNodeId(1)), vec![IrNodeId(0), IrNodeId(2)]);
}

#[test]
fn ir_diagnostics_add_and_filter() {
    let diagnostics = vec![
        Diagnostic {
            severity: DiagnosticSeverity::Warning,
            category: DiagnosticCategory::Recovery,
            message: "auto-created node".to_string(),
            ..Diagnostic::default()
        },
        Diagnostic {
            severity: DiagnosticSeverity::Error,
            category: DiagnosticCategory::Parser,
            message: "syntax error".to_string(),
            ..Diagnostic::default()
        },
        Diagnostic {
            severity: DiagnosticSeverity::Info,
            category: DiagnosticCategory::Inference,
            message: "fuzzy match".to_string(),
            ..Diagnostic::default()
        },
    ];
    assert_eq!(diagnostics.len(), 3);
    assert!(has_errors(&diagnostics));
    let warnings = diagnostics_by_severity(&diagnostics, DiagnosticSeverity::Warning);
    assert_eq!(warnings.len(), 1);
    assert_eq!(warnings[0].message, "auto-created node");
}

#[test]
fn find_node_returns_the_first_match_and_neighbors_skip_unresolved_ends() {
    let nodes = vec![
        IrNode { id: "X".to_string(), implicit: true, ..Default::default() },
        IrNode { id: "X".to_string(), ..Default::default() },
    ];
    assert_eq!(find_node_index(&nodes, "X"), Some(0));
    assert!(find_node(&nodes, "X").map(|n| n.implicit).unwrap_or(false));
    let mut graph = MermaidGraphIr::default();
    graph.edges.push(IrGraphEdge { from: IrEndpoint::Node(IrNodeId(0)), to: IrEndpoint::Unresolved, ..Default::default() });
    graph.edges.push(IrGraphEdge { from: IrEndpoint::Node(IrNodeId(0)), to: IrEndpoint::Node(IrNodeId(0)), ..Default::default() });
    graph.edges.push(IrGraphEdge { from: IrEndpoint::Node(IrNodeId(3)), to: IrEndpoint::Node(IrNodeId(0)), ..Default::default() });
    assert_eq!(graph_incident_edges(&graph, &[], IrNodeId(0)).len(), 3);
    assert_eq!(graph_neighbors(&graph, &[], IrNodeId(0)), vec![IrNodeId(0), IrNodeId(3)]);
}
