use fm_verified::cascade::populate_structured_styles;
use fm_verified::diagnostics::Span;
use fm_verified::graph_ir::{IrEndpoint, IrNodeId};
use fm_verified::model::{IrEdge, IrNode, IrStyleRef, IrStyleTarget};
use fm_verified::taxonomy::ArrowType;

fn style_ref(target: IrStyleTarget, style: &str) -> IrStyleRef {
    IrStyleRef { target, style: style.to_string(), span: Span::default() }
}

#[test]
fn populate_structured_styles_classdef() {
    let mut nodes = vec![IrNode {
        id: "A".to_string(),
        classes: vec!["important".to_string()],
        ..Default::default()
    }];
    let mut edges: Vec<IrEdge> = Vec::new();
    let refs = vec![style_ref(IrStyleTarget::Class("important".to_string()), "fill:#f9f,stroke:#333")];

    let style_defs = populate_structured_styles(&refs, &mut nodes, &mut edges);

    assert_eq!(style_defs.len(), 1);
    assert_eq!(style_defs[0].name, "important");
    assert_eq!(style_defs[0].properties.get("fill").unwrap(), "#f9f");

    let node_style = nodes[0].inline_style.as_ref().unwrap();
    assert_eq!(node_style.properties.get("fill").unwrap(), "#f9f");
    assert_eq!(node_style.properties.get("stroke").unwrap(), "#333");
}

#[test]
fn populate_structured_styles_node_override() {
    let mut nodes = vec![IrNode {
        id: "A".to_string(),
        classes: vec!["cls".to_string()],
        ..Default::default()
    }];
    let mut edges: Vec<IrEdge> = Vec::new();
    let refs = vec![
        style_ref(IrStyleTarget::Class("cls".to_string()), "fill:#fff"),
        style_ref(IrStyleTarget::Node(IrNodeId(0)), "fill:#000"),
    ];

    populate_structured_styles(&refs, &mut nodes, &mut edges);

    // Node-level style overrides classDef.
    let node_style = nodes[0].inline_style.as_ref().unwrap();
    assert_eq!(node_style.properties.get("fill").unwrap(), "#000");
}

#[test]
fn populate_structured_styles_link_default_and_specific() {
    let mut nodes = vec![
        IrNode { id: "A".to_string(), ..Default::default() },
        IrNode { id: "B".to_string(), ..Default::default() },
    ];
    let mut edges = vec![IrEdge {
        from: IrEndpoint::Node(IrNodeId(0)),
        to: IrEndpoint::Node(IrNodeId(1)),
        arrow: ArrowType::Arrow,
        ..IrEdge::default()
    }];
    let refs = vec![
        style_ref(IrStyleTarget::LinkDefault, "stroke:#aaa"),
        style_ref(IrStyleTarget::Link(0), "stroke:#f00"),
    ];

    populate_structured_styles(&refs, &mut nodes, &mut edges);

    let edge_style = edges[0].inline_style.as_ref().unwrap();
    // Specific linkStyle overrides default.
    assert_eq!(edge_style.properties.get("stroke").unwrap(), "#f00");
}

#[test]
fn populate_structured_styles_idempotent() {
    let mut nodes = vec![IrNode {
        id: "A".to_string(),
        classes: vec!["cls".to_string()],
        ..Default::default()
    }];
    let mut edges: Vec<IrEdge> = Vec::new();
    let refs = vec![style_ref(IrStyleTarget::Class("cls".to_string()), "fill:#fff")];

    let first_defs = populate_structured_styles(&refs, &mut nodes, &mut edges);
    let first = nodes[0].inline_style.clone();

    let second_defs = populate_structured_styles(&refs, &mut nodes, &mut edges);
    assert_eq!(nodes[0].inline_style, first);
    assert_eq!(second_defs, first_defs);
}

#[test]
fn class_definitions_come_in_name_order_with_first_span_and_merged_properties() {
    let mut nodes = vec![IrNode {
        id: "A".to_string(),
        classes: vec!["zeta".to_string(), "alpha".to_string()],
        ..Default::default()
    }];
    let mut edges: Vec<IrEdge> = Vec::new();
    let mut first_zeta = style_ref(IrStyleTarget::Class("zeta".to_string()), "fill:#111;stroke:#222");
    first_zeta.span = Span::zero();
    let mut later_zeta = style_ref(IrStyleTarget::Class("zeta".to_string()), "fill:#333");
    later_zeta.span.start.line = 9;
    let refs = vec![
        first_zeta,
        style_ref(IrStyleTarget::Class("alpha".to_string()), "fill:#aaa;color:#bbb"),
        later_zeta,
    ];

    let defs = populate_structured_styles(&refs, &mut nodes, &mut edges);

    assert_eq!(defs.len(), 2);
    assert_eq!(defs[0].name, "alpha");
    assert_eq!(defs[1].name, "zeta");
    assert_eq!(defs[1].properties.get("fill").unwrap(), "#333");
    assert_eq!(defs[1].properties.get("stroke").unwrap(), "#222");
    assert_eq!(defs[1].span.start.line, 0);
    // The later class in the node's list wins.
    let node_style = nodes[0].inline_style.as_ref().unwrap();
    assert_eq!(node_style.properties.get("fill").unwrap(), "#aaa");
    assert_eq!(node_style.properties.get("stroke").unwrap(), "#222");
    assert_eq!(node_style.properties.get("color").unwrap(), "#bbb");
}

#[test]
fn an_element_with_no_computed_style_keeps_its_style() {
    let mut nodes = vec![IrNode { id: "A".to_string(), ..Default::default() }];
    let mut edges = vec![IrEdge::default()];
    let refs = vec![style_ref(IrStyleTarget::Node(IrNodeId(5)), "fill:#000")];

    let defs = populate_structured_styles(&refs, &mut nodes, &mut edges);

    assert!(defs.is_empty());
    assert!(nodes[0].inline_style.is_none());
    assert!(edges[0].inline_style.is_none());
}
