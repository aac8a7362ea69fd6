use fm_verified::diagnostics::{Position, Span};
use fm_verified::lens::{apply_lens_edit, build_lens_bindings, resolve_span_text_range};
use fm_verified::model::{MermaidLensEdit, MermaidLensError, MermaidSourceMap, MermaidSourceMapEntry};
use fm_verified::taxonomy::{DiagramType, MermaidSourceMapKind};

fn sample_span(line: usize, start_col: usize, end_col: usize) -> Span {
    Span::new(Position { line, col: start_col, byte: 0 }, Position { line, col: end_col, byte: 0 })
}

fn entry(kind: MermaidSourceMapKind, element_id: &str, source_id: Option<&str>, span: Span) -> MermaidSourceMapEntry {
    MermaidSourceMapEntry {
        kind,
        index: 0,
        element_id: element_id.to_string(),
        source_id: source_id.map(str::to_string),
        span,
    }
}

#[test]
fn resolve_span_text_range_maps_line_columns_to_byte_offsets() {
    let source = "flowchart LR\nA-->B\n";
    let range = resolve_span_text_range(source, sample_span(2, 1, 5)).expect("range");
    assert_eq!(&source[range.start_byte..range.end_byte], "A-->B");
}

#[test]
fn build_lens_bindings_captures_snippets_from_source_map_entries() {
    let source = "flowchart LR\nA-->B\n";
    let source_map = MermaidSourceMap {
        diagram_type: DiagramType::Flowchart,
        entries: vec![
            entry(MermaidSourceMapKind::Node, "fm-node-a-0", Some("A"), sample_span(2, 1, 1)),
            entry(MermaidSourceMapKind::Edge, "fm-edge-0", None, sample_span(2, 1, 5)),
        ],
    };

    let bindings = build_lens_bindings(source, &source_map);
    assert_eq!(bindings[0].snippet.as_deref(), Some("A"));
    assert_eq!(bindings[1].snippet.as_deref(), Some("A-->B"));
}

#[test]
fn apply_lens_edit_rewrites_the_selected_source_region() {
    let source = "flowchart LR\nA-->B\n";
    let source_map = MermaidSourceMap {
        diagram_type: DiagramType::Flowchart,
        entries: vec![entry(MermaidSourceMapKind::Edge, "fm-edge-0", None, sample_span(2, 1, 5))],
    };
    let edit = MermaidLensEdit { element_id: "fm-edge-0".to_string(), replacement: "A-.->B".to_string() };

    let result = apply_lens_edit(source, &source_map, &edit).expect("edit should apply");
    assert_eq!(result.previous_snippet, "A-->B");
    assert_eq!(result.updated_source, "flowchart LR\nA-.->B\n");
}

#[test]
fn columns_count_characters_not_bytes() {
    let source = "graph\r\né-->ß\n";
    let range = resolve_span_text_range(source, sample_span(2, 2, 4)).expect("range");
    assert_eq!(&source[range.start_byte..range.end_byte], "-->");
    // The column just past the last character is the line's end, before "\r\n" or "\n".
    let whole = resolve_span_text_range(source, sample_span(2, 1, 5)).expect("range");
    assert_eq!(&source[whole.start_byte..whole.end_byte], "é-->ß");
    let head = resolve_span_text_range(source, sample_span(1, 1, 5)).expect("range");
    assert_eq!(&source[head.start_byte..head.end_byte], "graph");
    assert_eq!(resolve_span_text_range(source, sample_span(2, 1, 6)), None);
    assert_eq!(resolve_span_text_range(source, sample_span(4, 1, 1)), None);
}

#[test]
fn byte_offsets_take_precedence_and_unknown_spans_resolve_to_nothing() {
    let source = "abc";
    let span = Span::new(Position { line: 9, col: 9, byte: 1 }, Position { line: 9, col: 9, byte: 3 });
    let range = resolve_span_text_range(source, span).expect("range");
    assert_eq!((range.start_byte, range.end_byte), (1, 3));
    assert_eq!(resolve_span_text_range(source, Span::default()), None);
}

#[test]
fn lens_edit_errors() {
    let source = "aé";
    let source_map = MermaidSourceMap {
        diagram_type: DiagramType::Flowchart,
        entries: vec![
            entry(MermaidSourceMapKind::Node, "split", None,
                Span::new(Position { line: 1, col: 1, byte: 0 }, Position { line: 1, col: 1, byte: 2 })),
            entry(MermaidSourceMapKind::Node, "far", None, sample_span(3, 1, 1)),
        ],
    };
    let missing = MermaidLensEdit { element_id: "none".to_string(), replacement: String::new() };
    assert_eq!(apply_lens_edit(source, &source_map, &missing), Err(MermaidLensError::ElementNotFound("none".to_string())));
    let split = MermaidLensEdit { element_id: "split".to_string(), replacement: String::new() };
    assert_eq!(apply_lens_edit(source, &source_map, &split), Err(MermaidLensError::UnresolvedSpan("split".to_string())));
    let far = MermaidLensEdit { element_id: "far".to_string(), replacement: String::new() };
    assert_eq!(apply_lens_edit(source, &source_map, &far), Err(MermaidLensError::UnresolvedSpan("far".to_string())));
    let bindings = build_lens_bindings(source, &source_map);
    assert_eq!(bindings[0].text_range.map(|r| (r.start_byte, r.end_byte)), Some((0, 2)));
    assert_eq!(bindings[0].snippet, None);
}
