//! The capability matrix: what the project advertises for each diagram family and each
//! surface, with the evidence behind it, and the README tables made from it.
use vstd::prelude::*;
use vstd::string::StringExecFns;
use crate::model::{CapabilityClaim, CapabilityEvidence};
use crate::taxonomy::{CapabilityStatus, DiagramType, MermaidSupportLevel};
use crate::text::{decimal, push_decimal, text_eq};

verus! {

/// The diagram families the README documents, in its order.
pub open spec fn documented_types() -> Seq<DiagramType> {
    seq![
        DiagramType::Flowchart,
        DiagramType::Sequence,
        DiagramType::Class,
        DiagramType::State,
        DiagramType::Er,
        DiagramType::C4Context,
        DiagramType::C4Container,
        DiagramType::C4Component,
        DiagramType::C4Dynamic,
        DiagramType::C4Deployment,
        DiagramType::ArchitectureBeta,
        DiagramType::BlockBeta,
        DiagramType::Gantt,
        DiagramType::Timeline,
        DiagramType::Journey,
        DiagramType::GitGraph,
        DiagramType::Sankey,
        DiagramType::Mindmap,
        DiagramType::Pie,
        DiagramType::QuadrantChart,
        DiagramType::XyChart,
        DiagramType::Requirement,
        DiagramType::PacketBeta,
    ]
}

/// The diagram families the README documents.
pub fn documented_diagram_types() -> (r: Vec<DiagramType>)
    ensures
        r@ == documented_types(),
{
    let r = vec![
        DiagramType::Flowchart,
        DiagramType::Sequence,
        DiagramType::Class,
        DiagramType::State,
        DiagramType::Er,
        DiagramType::C4Context,
        DiagramType::C4Container,
        DiagramType::C4Component,
        DiagramType::C4Dynamic,
        DiagramType::C4Deployment,
        DiagramType::ArchitectureBeta,
        DiagramType::BlockBeta,
        DiagramType::Gantt,
        DiagramType::Timeline,
        DiagramType::Journey,
        DiagramType::GitGraph,
        DiagramType::Sankey,
        DiagramType::Mindmap,
        DiagramType::Pie,
        DiagramType::QuadrantChart,
        DiagramType::XyChart,
        DiagramType::Requirement,
        DiagramType::PacketBeta,
    ];
    proof {
        assert(r@ =~= documented_types());
    }
    r
}

/// The claim status a support level stands for.
pub open spec fn status_for_level(level: MermaidSupportLevel) -> CapabilityStatus {
    match level {
        MermaidSupportLevel::Supported => CapabilityStatus::Implemented,
        MermaidSupportLevel::Partial => CapabilityStatus::Partial,
        MermaidSupportLevel::Unsupported => CapabilityStatus::Unsupported,
    }
}

fn status_for_support_level(level: MermaidSupportLevel) -> (s: CapabilityStatus)
    ensures
        s == status_for_level(level),
{
    match level {
        MermaidSupportLevel::Supported => CapabilityStatus::Implemented,
        MermaidSupportLevel::Partial => CapabilityStatus::Partial,
        MermaidSupportLevel::Unsupported => CapabilityStatus::Unsupported,
    }
}

/// The status as the README writes it.
pub open spec fn status_label(status: CapabilityStatus) -> Seq<char> {
    match status {
        CapabilityStatus::Implemented => "Implemented"@,
        CapabilityStatus::Partial => "Partial"@,
        CapabilityStatus::Experimental => "Experimental"@,
        CapabilityStatus::Planned => "Planned"@,
        CapabilityStatus::Unsupported => "Unsupported"@,
    }
}

/// The status as the README writes it.
pub fn capability_status_label(status: CapabilityStatus) -> (s: &'static str)
    ensures
        s@ == status_label(status),
{
    match status {
        CapabilityStatus::Implemented => "Implemented",
        CapabilityStatus::Partial => "Partial",
        CapabilityStatus::Experimental => "Experimental",
        CapabilityStatus::Planned => "Planned",
        CapabilityStatus::Unsupported => "Unsupported",
    }
}

/// The lines joined by newlines.
pub open spec fn join_lines(lines: Seq<Seq<char>>) -> Seq<char>
    decreases lines.len(),
{
    if lines.len() == 0 {
        Seq::empty()
    } else if lines.len() == 1 {
        lines[0]
    } else {
        join_lines(lines.drop_last()) + "\n"@ + lines.last()
    }
}

/// Append `line` to the text `s` of the lines so far (`first` when there are none yet).
fn push_line(s: &mut String, line: &str, Ghost(lines): Ghost<Seq<Seq<char>>>)
    requires
        old(s)@ == join_lines(lines),
        lines.len() >= 1,
    ensures
        final(s)@ == join_lines(lines.push(line@)),
{
    s.append("\n");
    s.append(line);
    proof {
        assert(lines.push(line@).drop_last() =~= lines);
    }
}

/// The README row of a documented diagram family.
pub open spec fn type_row(t: DiagramType) -> Seq<char> {
    "| `"@ + t.name_text() + "` | "@ + status_label(status_for_level(t.level())) + " |"@
}

/// The README table of the documented diagram families and their status.
pub open spec fn types_table() -> Seq<char> {
    join_lines(seq!["| Diagram Type | Runtime Status |"@, "|--------------|----------------|"@]
        + documented_types().map_values(|t: DiagramType| type_row(t)))
}

/// The README table of the documented diagram families and their status.
pub fn capability_readme_supported_diagram_types_markdown() -> (r: String)
    ensures
        r@ == types_table(),
{
    let ghost header = seq!["| Diagram Type | Runtime Status |"@, "|--------------|----------------|"@];
    let ghost first = seq!["| Diagram Type | Runtime Status |"@];
    let mut s = String::from_str("| Diagram Type | Runtime Status |");
    proof {
        assert(join_lines(first) == "| Diagram Type | Runtime Status |"@);
    }
    push_line(&mut s, "|--------------|----------------|", Ghost(first));
    proof {
        assert(first.push("|--------------|----------------|"@) =~= header);
    }
    let types = documented_diagram_types();
    let mut i: usize = 0;
    proof {
        assert(header + types@.take(0).map_values(|t: DiagramType| type_row(t)) =~= header);
    }
    while i < types.len()
        invariant
            i <= types@.len(),
            types@ == documented_types(),
            header.len() == 2,
            s@ == join_lines(header + types@.take(i as int).map_values(|t: DiagramType| type_row(t))),
        decreases types@.len() - i,
    {
        let t = types[i];
        let status = status_for_support_level(t.support_level());
        let mut line = String::from_str("| `");
        line.append(t.as_str());
        line.append("` | ");
        line.append(capability_status_label(status));
        line.append(" |");
        let ghost lines = header + types@.take(i as int).map_values(|t: DiagramType| type_row(t));
        push_line(&mut s, line.as_str(), Ghost(lines));
        proof {
            assert(line@ == type_row(t));
            assert(header + types@.take(i + 1).map_values(|t: DiagramType| type_row(t)) =~= lines.push(type_row(t)));
        }
        i = i + 1;
    }
    proof {
        assert(types@.take(types@.len() as int) =~= types@);
    }
    s
}

/// What the claim for a documented diagram family says.
pub open spec fn is_type_claim(c: CapabilityClaim, t: DiagramType) -> bool {
    &&& c.id@ == "diagram-type/"@ + t.name_text()
    &&& c.category@ == "diagram_type"@
    &&& c.title@ == "Support "@ + t.name_text() + " diagrams"@
    &&& c.status == status_for_level(t.level())
    &&& c.advertised_in@.len() == 1
    &&& c.code_paths@.len() == 2
    &&& c.evidence@.len() == 2
    &&& c.notes@.len() == 1
    &&& c.notes@[0]@ == "README advertises this family; current code marks it as "@ + t.label_text() + " capability"@
}

fn type_claim(t: DiagramType) -> (c: CapabilityClaim)
    ensures
        is_type_claim(c, t),
{
    let name = t.as_str();
    let mut id = String::from_str("diagram-type/");
    id.append(name);
    let mut title = String::from_str("Support ");
    title.append(name);
    title.append(" diagrams");
    let mut note = String::from_str("README advertises this family; current code marks it as ");
    note.append(t.support_label());
    note.append(" capability");
    CapabilityClaim {
        id,
        category: String::from_str("diagram_type"),
        title,
        status: status_for_support_level(t.support_level()),
        advertised_in: vec![String::from_str("README.md#supported-diagram-types")],
        code_paths: vec![
            String::from_str("crates/fm-core/src/lib.rs::DiagramType"),
            String::from_str("crates/fm-parser/src/lib.rs::detect_type_with_confidence"),
        ],
        evidence: vec![
            CapabilityEvidence {
                kind: String::from_str("code_path"),
                reference: String::from_str("crates/fm-core/src/lib.rs::DiagramType::support_level"),
                note: Some(String::from_str("Source-of-truth support taxonomy")),
            },
            CapabilityEvidence {
                kind: String::from_str("test"),
                reference: String::from_str(
                    "crates/fm-core/src/lib.rs::tests::diagram_type_support_contract_matches_surface_expectations",
                ),
                note: Some(String::from_str("Verifies advertised support level mapping")),
            },
        ],
        notes: vec![note],
    }
}

/// One claim per documented diagram family, in the README's order.
pub fn documented_diagram_type_claims() -> (r: Vec<CapabilityClaim>)
    ensures
        r@.len() == documented_types().len(),
        forall|i: int| 0 <= i < r@.len() ==> is_type_claim(#[trigger] r@[i], documented_types()[i]),
{
    let types = documented_diagram_types();
    let mut r: Vec<CapabilityClaim> = Vec::new();
    let mut i: usize = 0;
    while i < types.len()
        invariant
            i <= types@.len(),
            types@ == documented_types(),
            r@.len() == i,
            forall|k: int| 0 <= k < i ==> is_type_claim(#[trigger] r@[k], types@[k]),
        decreases types@.len() - i,
    {
        r.push(type_claim(types[i]));
        i = i + 1;
    }
    r
}

/// Identifier, category, title, status and number of evidence references of each
/// surface claim, in order.
pub open spec fn surface_claim_table() -> Seq<(Seq<char>, Seq<char>, Seq<char>, CapabilityStatus, nat)> {
    seq![
        ("surface/cli-detect"@, "surface"@, "CLI detect command"@, CapabilityStatus::Implemented, 2nat),
        ("surface/cli-parse"@, "surface"@, "CLI parse command with IR JSON evidence"@, CapabilityStatus::Implemented, 1nat),
        ("surface/cli-render-svg"@, "surface"@, "CLI SVG rendering"@, CapabilityStatus::Implemented, 1nat),
        ("surface/cli-render-term"@, "surface"@, "CLI terminal rendering"@, CapabilityStatus::Implemented, 1nat),
        ("surface/cli-validate"@, "surface"@, "CLI validate command with structured diagnostics"@, CapabilityStatus::Implemented, 1nat),
        ("surface/cli-capabilities"@, "surface"@, "CLI capability matrix command"@, CapabilityStatus::Implemented, 2nat),
        ("surface/wasm-svg"@, "surface"@, "WASM API renders SVG"@, CapabilityStatus::Implemented, 1nat),
        ("surface/wasm-capabilities"@, "surface"@, "WASM API exposes capability matrix metadata"@, CapabilityStatus::Implemented, 1nat),
        ("surface/canvas"@, "surface"@, "Canvas rendering backend"@, CapabilityStatus::Implemented, 1nat),
        ("layout/deterministic"@, "layout"@, "Deterministic layout output"@, CapabilityStatus::Implemented, 1nat),
        ("parser/recovery"@, "parser"@, "Best-effort parse with warnings instead of hard failure"@, CapabilityStatus::Partial, 1nat),
        ("runtime/guard-report"@, "runtime"@, "Guard and degradation report types exist in shared IR"@, CapabilityStatus::Experimental, 1nat),
    ]
}

/// The claim agrees with a row of `surface_claim_table`.
pub open spec fn matches_row(c: CapabilityClaim, row: (Seq<char>, Seq<char>, Seq<char>, CapabilityStatus, nat)) -> bool {
    &&& c.id@ == row.0
    &&& c.category@ == row.1
    &&& c.title@ == row.2
    &&& c.status == row.3
    &&& c.evidence@.len() == row.4
}

/// The texts of a list of strings.
pub open spec fn texts(v: Seq<String>) -> Seq<Seq<char>> {
    v.map_values(|s: String| s@)
}

/// Where each surface claim is advertised, and the code paths that back it, in
/// the order of [`surface_claim_table`].
pub open spec fn surface_claim_sources() -> Seq<(Seq<Seq<char>>, Seq<Seq<char>>)> {
    seq![
        (seq!["README.md#quick-example"@, "README.md#command-reference"@], seq!["crates/fm-cli/src/main.rs::Command::Detect"@, "crates/fm-parser/src/lib.rs::detect_type_with_confidence"@]),
        (seq!["README.md#quick-example"@, "README.md#command-reference"@], seq!["crates/fm-cli/src/main.rs::Command::Parse"@, "crates/fm-parser/src/lib.rs::parse_evidence_json"@]),
        (seq!["README.md#quick-example"@, "README.md#command-reference"@], seq!["crates/fm-cli/src/main.rs::Command::Render"@, "crates/fm-render-svg/src/lib.rs::render_svg_with_layout"@]),
        (seq!["README.md#quick-example"@, "README.md#command-reference"@], seq!["crates/fm-cli/src/main.rs::Command::Render"@, "crates/fm-render-term/src/lib.rs::render_term_with_config"@]),
        (seq!["README.md#quick-example"@, "README.md#command-reference"@], seq!["crates/fm-cli/src/main.rs::Command::Validate"@, "crates/fm-core/src/lib.rs::StructuredDiagnostic"@]),
        (seq!["README.md#command-reference"@, "README.md#runtime-capability-metadata"@], seq!["crates/fm-cli/src/main.rs::Command::Capabilities"@, "crates/fm-cli/src/main.rs::cmd_capabilities"@, "crates/fm-core/src/lib.rs::capability_matrix"@]),
        (seq!["README.md#javascript--wasm-api"@, "README.md#technical-architecture"@], seq!["crates/fm-wasm/src/lib.rs::render"@, "crates/fm-wasm/src/lib.rs::render_svg_js"@, "crates/fm-wasm/src/lib.rs::Diagram::render"@]),
        (seq!["README.md#javascript--wasm-api"@, "README.md#runtime-capability-metadata"@], seq!["crates/fm-wasm/src/lib.rs::capability_matrix_js"@, "crates/fm-core/src/lib.rs::capability_matrix"@]),
        (seq!["README.md#why-use-frankenmermaid"@, "README.md#technical-architecture"@], seq!["crates/fm-render-canvas/src/lib.rs::render_to_canvas"@, "crates/fm-wasm/src/lib.rs::Diagram::render"@]),
        (seq!["README.md#design-philosophy"@, "README.md#faq"@], seq!["crates/fm-layout/src/lib.rs::layout_diagram_traced"@, "crates/fm-layout/src/lib.rs::crossing_refinement"@]),
        (seq!["README.md#tl-dr"@, "README.md#design-philosophy"@], seq!["crates/fm-parser/src/lib.rs::parse"@, "crates/fm-core/src/lib.rs::MermaidWarning"@]),
        (seq!["AGENTS.md#key-design-decisions"@, "README.md#technical-architecture"@], seq!["crates/fm-core/src/lib.rs::MermaidGuardReport"@, "crates/fm-core/src/lib.rs::MermaidDegradationPlan"@]),
    ]
}

/// The evidence of a claim as text: kind, reference and note.
pub open spec fn evidence_texts(v: Seq<CapabilityEvidence>) -> Seq<(Seq<char>, Seq<char>, Option<Seq<char>>)> {
    v.map_values(|e: CapabilityEvidence| (e.kind@, e.reference@, match e.note {
        Some(n) => Some(n@),
        None => None,
    }))
}

/// The evidence (kind, reference, note) and the notes of each surface claim, in the
/// order of [`surface_claim_table`].
pub open spec fn surface_claim_evidence() -> Seq<(Seq<(Seq<char>, Seq<char>, Option<Seq<char>>)>, Seq<Seq<char>>)> {
    seq![
        (seq![("test"@, "crates/fm-parser/src/lib.rs::tests::detects_flowchart_keyword"@, Some("Smoke coverage for type detection"@)), ("code_path"@, "crates/fm-cli/src/main.rs::cmd_detect"@, None)], seq![]),
        (seq![("test"@, "crates/fm-parser/src/lib.rs::tests::parse_flowchart_extracts_nodes_edges_and_direction"@, Some("Validates parse output contains structural IR"@))], seq![]),
        (seq![("test"@, "crates/fm-render-svg/src/lib.rs::tests::prop_svg_render_is_total_and_counts_match"@, Some("SVG renderer smoke coverage"@))], seq![]),
        (seq![("test"@, "crates/fm-render-term/src/lib.rs::tests::render_term_produces_output"@, Some("Terminal renderer smoke coverage"@))], seq![]),
        (seq![("test"@, "crates/fm-cli/src/main.rs::tests::collect_validation_diagnostics_includes_parse_warnings"@, Some("Validate path emits structured diagnostics"@))], seq![]),
        (seq![("test"@, "crates/fm-core/src/lib.rs::tests::capability_matrix_json_matches_checked_in_artifact"@, Some("CLI command serializes the checked-in capability artifact"@)), ("code_path"@, "crates/fm-cli/src/main.rs::cmd_capabilities"@, None)], seq![]),
        (seq![("test"@, "crates/fm-wasm/src/lib.rs::tests::render_returns_svg_and_type"@, Some("WASM facade smoke coverage"@))], seq![]),
        (seq![("test"@, "crates/fm-wasm/src/lib.rs::tests::capability_matrix_js_returns_matrix_payload"@, Some("WASM surface returns the shared capability matrix"@))], seq![]),
        (seq![("test"@, "crates/fm-render-canvas/src/lib.rs::tests::render_with_mock_context"@, Some("Canvas backend exercises draw pipeline"@))], seq![]),
        (seq![("test"@, "crates/fm-layout/src/lib.rs::tests::traced_layout_is_deterministic"@, Some("Checks full traced layout equality across runs"@))], seq![]),
        (seq![("test"@, "crates/fm-parser/src/lib.rs::tests::empty_input_returns_warning"@, Some("Current coverage proves warning-based fallback for empty input"@))], seq!["Recovery exists, but README claims are broader than current automated evidence"@]),
        (seq![("code_path"@, "crates/fm-core/src/lib.rs::MermaidDiagramMeta"@, Some("Types are threaded into IR metadata but not yet fully activated"@))], seq!["Data model exists; cross-pipeline activation is still an open backlog item"@]),
    ]
}

/// The claims about the command-line, WebAssembly and rendering surfaces and the runtime.
pub fn surface_capability_claims() -> (r: Vec<CapabilityClaim>)
    ensures
        r@.len() == surface_claim_table().len(),
        forall|i: int| 0 <= i < r@.len() ==> matches_row(#[trigger] r@[i], surface_claim_table()[i]),
        forall|i: int| 0 <= i < r@.len() ==> texts((#[trigger] r@[i]).advertised_in@) == surface_claim_sources()[i].0
            && texts(r@[i].code_paths@) == surface_claim_sources()[i].1,
        forall|i: int| 0 <= i < r@.len() ==> evidence_texts((#[trigger] r@[i]).evidence@) == surface_claim_evidence()[i].0
            && texts(r@[i].notes@) == surface_claim_evidence()[i].1,
{
    vec![
        CapabilityClaim {
            id: String::from_str("surface/cli-detect"),
            category: String::from_str("surface"),
            title: String::from_str("CLI detect command"),
            status: CapabilityStatus::Implemented,
            advertised_in: vec![
                String::from_str("README.md#quick-example"),
                String::from_str("README.md#command-reference"),
            ],
            code_paths: vec![
                String::from_str("crates/fm-cli/src/main.rs::Command::Detect"),
                String::from_str("crates/fm-parser/src/lib.rs::detect_type_with_confidence"),
            ],
            evidence: vec![
                CapabilityEvidence {
                    kind: String::from_str("test"),
                    reference: String::from_str(
                        "crates/fm-parser/src/lib.rs::tests::detects_flowchart_keyword",
                    ),
                    note: Some(String::from_str("Smoke coverage for type detection")),
                },
                CapabilityEvidence {
                    kind: String::from_str("code_path"),
                    reference: String::from_str("crates/fm-cli/src/main.rs::cmd_detect"),
                    note: None,
                },
            ],
            notes: vec![],
        },
        CapabilityClaim {
            id: String::from_str("surface/cli-parse"),
            category: String::from_str("surface"),
            title: String::from_str("CLI parse command with IR JSON evidence"),
            status: CapabilityStatus::Implemented,
            advertised_in: vec![
                String::from_str("README.md#quick-example"),
                String::from_str("README.md#command-reference"),
            ],
            code_paths: vec![
                String::from_str("crates/fm-cli/src/main.rs::Command::Parse"),
                String::from_str("crates/fm-parser/src/lib.rs::parse_evidence_json"),
            ],
            evidence: vec![CapabilityEvidence {
                kind: String::from_str("test"),
                reference: String::from_str(
                    "crates/fm-parser/src/lib.rs::tests::parse_flowchart_extracts_nodes_edges_and_direction",
                ),
                note: Some(String::from_str(
                    "Validates parse output contains structural IR",
                )),
            }],
            notes: vec![],
        },
        CapabilityClaim {
            id: String::from_str("surface/cli-render-svg"),
            category: String::from_str("surface"),
            title: String::from_str("CLI SVG rendering"),
            status: CapabilityStatus::Implemented,
            advertised_in: vec![
                String::from_str("README.md#quick-example"),
                String::from_str("README.md#command-reference"),
            ],
            code_paths: vec![
                String::from_str("crates/fm-cli/src/main.rs::Command::Render"),
                String::from_str("crates/fm-render-svg/src/lib.rs::render_svg_with_layout"),
            ],
            evidence: vec![CapabilityEvidence {
                kind: String::from_str("test"),
                reference: String::from_str(
                    "crates/fm-render-svg/src/lib.rs::tests::prop_svg_render_is_total_and_counts_match",
                ),
                note: Some(String::from_str("SVG renderer smoke coverage")),
            }],
            notes: vec![],
        },
        CapabilityClaim {
            id: String::from_str("surface/cli-render-term"),
            category: String::from_str("surface"),
            title: String::from_str("CLI terminal rendering"),
            status: CapabilityStatus::Implemented,
            advertised_in: vec![
                String::from_str("README.md#quick-example"),
                String::from_str("README.md#command-reference"),
            ],
            code_paths: vec![
                String::from_str("crates/fm-cli/src/main.rs::Command::Render"),
                String::from_str("crates/fm-render-term/src/lib.rs::render_term_with_config"),
            ],
            evidence: vec![CapabilityEvidence {
                kind: String::from_str("test"),
                reference: String::from_str(
                    "crates/fm-render-term/src/lib.rs::tests::render_term_produces_output",
                ),
                note: Some(String::from_str("Terminal renderer smoke coverage")),
            }],
            notes: vec![],
        },
        CapabilityClaim {
            id: String::from_str("surface/cli-validate"),
            category: String::from_str("surface"),
            title: String::from_str("CLI validate command with structured diagnostics"),
            status: CapabilityStatus::Implemented,
            advertised_in: vec![
                String::from_str("README.md#quick-example"),
                String::from_str("README.md#command-reference"),
            ],
            code_paths: vec![
                String::from_str("crates/fm-cli/src/main.rs::Command::Validate"),
                String::from_str("crates/fm-core/src/lib.rs::StructuredDiagnostic"),
            ],
            evidence: vec![CapabilityEvidence {
                kind: String::from_str("test"),
                reference: String::from_str(
                    "crates/fm-cli/src/main.rs::tests::collect_validation_diagnostics_includes_parse_warnings",
                ),
                note: Some(String::from_str("Validate path emits structured diagnostics")),
            }],
            notes: vec![],
        },
        CapabilityClaim {
            id: String::from_str("surface/cli-capabilities"),
            category: String::from_str("surface"),
            title: String::from_str("CLI capability matrix command"),
            status: CapabilityStatus::Implemented,
            advertised_in: vec![
                String::from_str("README.md#command-reference"),
                String::from_str("README.md#runtime-capability-metadata"),
            ],
            code_paths: vec![
                String::from_str("crates/fm-cli/src/main.rs::Command::Capabilities"),
                String::from_str("crates/fm-cli/src/main.rs::cmd_capabilities"),
                String::from_str("crates/fm-core/src/lib.rs::capability_matrix"),
            ],
            evidence: vec![
                CapabilityEvidence {
                    kind: String::from_str("test"),
                    reference: String::from_str(
                        "crates/fm-core/src/lib.rs::tests::capability_matrix_json_matches_checked_in_artifact",
                    ),
                    note: Some(String::from_str(
                        "CLI command serializes the checked-in capability artifact",
                    )),
                },
                CapabilityEvidence {
                    kind: String::from_str("code_path"),
                    reference: String::from_str("crates/fm-cli/src/main.rs::cmd_capabilities"),
                    note: None,
                },
            ],
            notes: vec![],
        },
        CapabilityClaim {
            id: String::from_str("surface/wasm-svg"),
            category: String::from_str("surface"),
            title: String::from_str("WASM API renders SVG"),
            status: CapabilityStatus::Implemented,
            advertised_in: vec![
                String::from_str("README.md#javascript--wasm-api"),
                String::from_str("README.md#technical-architecture"),
            ],
            code_paths: vec![
                String::from_str("crates/fm-wasm/src/lib.rs::render"),
                String::from_str("crates/fm-wasm/src/lib.rs::render_svg_js"),
                String::from_str("crates/fm-wasm/src/lib.rs::Diagram::render"),
            ],
            evidence: vec![CapabilityEvidence {
                kind: String::from_str("test"),
                reference: String::from_str(
                    "crates/fm-wasm/src/lib.rs::tests::render_returns_svg_and_type",
                ),
                note: Some(String::from_str("WASM facade smoke coverage")),
            }],
            notes: vec![],
        },
        CapabilityClaim {
            id: String::from_str("surface/wasm-capabilities"),
            category: String::from_str("surface"),
            title: String::from_str("WASM API exposes capability matrix metadata"),
            status: CapabilityStatus::Implemented,
            advertised_in: vec![
                String::from_str("README.md#javascript--wasm-api"),
                String::from_str("README.md#runtime-capability-metadata"),
            ],
            code_paths: vec![
                String::from_str("crates/fm-wasm/src/lib.rs::capability_matrix_js"),
                String::from_str("crates/fm-core/src/lib.rs::capability_matrix"),
            ],
            evidence: vec![CapabilityEvidence {
                kind: String::from_str("test"),
                reference: String::from_str(
                    "crates/fm-wasm/src/lib.rs::tests::capability_matrix_js_returns_matrix_payload",
                ),
                note: Some(String::from_str(
                    "WASM surface returns the shared capability matrix",
                )),
            }],
            notes: vec![],
        },
        CapabilityClaim {
            id: String::from_str("surface/canvas"),
            category: String::from_str("surface"),
            title: String::from_str("Canvas rendering backend"),
            status: CapabilityStatus::Implemented,
            advertised_in: vec![
                String::from_str("README.md#why-use-frankenmermaid"),
                String::from_str("README.md#technical-architecture"),
            ],
            code_paths: vec![
                String::from_str("crates/fm-render-canvas/src/lib.rs::render_to_canvas"),
                String::from_str("crates/fm-wasm/src/lib.rs::Diagram::render"),
            ],
            evidence: vec![CapabilityEvidence {
                kind: String::from_str("test"),
                reference: String::from_str(
                    "crates/fm-render-canvas/src/lib.rs::tests::render_with_mock_context",
                ),
                note: Some(String::from_str("Canvas backend exercises draw pipeline")),
            }],
            notes: vec![],
        },
        CapabilityClaim {
            id: String::from_str("layout/deterministic"),
            category: String::from_str("layout"),
            title: String::from_str("Deterministic layout output"),
            status: CapabilityStatus::Implemented,
            advertised_in: vec![
                String::from_str("README.md#design-philosophy"),
                String::from_str("README.md#faq"),
            ],
            code_paths: vec![
                String::from_str("crates/fm-layout/src/lib.rs::layout_diagram_traced"),
                String::from_str("crates/fm-layout/src/lib.rs::crossing_refinement"),
            ],
            evidence: vec![CapabilityEvidence {
                kind: String::from_str("test"),
                reference: String::from_str(
                    "crates/fm-layout/src/lib.rs::tests::traced_layout_is_deterministic",
                ),
                note: Some(String::from_str(
                    "Checks full traced layout equality across runs",
                )),
            }],
            notes: vec![],
        },
        CapabilityClaim {
            id: String::from_str("parser/recovery"),
            category: String::from_str("parser"),
            title: String::from_str("Best-effort parse with warnings instead of hard failure"),
            status: CapabilityStatus::Partial,
            advertised_in: vec![
                String::from_str("README.md#tl-dr"),
                String::from_str("README.md#design-philosophy"),
            ],
            code_paths: vec![
                String::from_str("crates/fm-parser/src/lib.rs::parse"),
                String::from_str("crates/fm-core/src/lib.rs::MermaidWarning"),
            ],
            evidence: vec![CapabilityEvidence {
                kind: String::from_str("test"),
                reference: String::from_str(
                    "crates/fm-parser/src/lib.rs::tests::empty_input_returns_warning",
                ),
                note: Some(String::from_str(
                    "Current coverage proves warning-based fallback for empty input",
                )),
            }],
            notes: vec![String::from_str(
                "Recovery exists, but README claims are broader than current automated evidence",
            )],
        },
        CapabilityClaim {
            id: String::from_str("runtime/guard-report"),
            category: String::from_str("runtime"),
            title: String::from_str("Guard and degradation report types exist in shared IR"),
            status: CapabilityStatus::Experimental,
            advertised_in: vec![
                String::from_str("AGENTS.md#key-design-decisions"),
                String::from_str("README.md#technical-architecture"),
            ],
            code_paths: vec![
                String::from_str("crates/fm-core/src/lib.rs::MermaidGuardReport"),
                String::from_str("crates/fm-core/src/lib.rs::MermaidDegradationPlan"),
            ],
            evidence: vec![CapabilityEvidence {
                kind: String::from_str("code_path"),
                reference: String::from_str("crates/fm-core/src/lib.rs::MermaidDiagramMeta"),
                note: Some(String::from_str(
                    "Types are threaded into IR metadata but not yet fully activated",
                )),
            }],
            notes: vec![String::from_str(
                "Data model exists; cross-pipeline activation is still an open backlog item",
            )],
        },
    ]
}

/// All claims: one per documented diagram family, then the surface claims.
pub fn capability_claims() -> (r: Vec<CapabilityClaim>)
    ensures
        r@.len() == documented_types().len() + surface_claim_table().len(),
        forall|i: int| 0 <= i < documented_types().len() ==> is_type_claim(#[trigger] r@[i], documented_types()[i]),
        forall|i: int| documented_types().len() <= i < r@.len() ==> matches_row(#[trigger] r@[i],
            surface_claim_table()[i - documented_types().len()]),
{
    let mut claims = documented_diagram_type_claims();
    let ghost first = claims@;
    let mut surface = surface_capability_claims();
    let ghost second = surface@;
    claims.append(&mut surface);
    proof {
        assert forall|i: int| documented_types().len() <= i < claims@.len() implies matches_row(#[trigger] claims@[i],
            surface_claim_table()[i - documented_types().len()]) by {
            assert(claims@[i] == second[i - first.len()]);
        }
        assert forall|i: int| 0 <= i < documented_types().len() implies is_type_claim(#[trigger] claims@[i], documented_types()[i]) by {
            assert(claims@[i] == first[i]);
        }
    }
    claims
}

/// The README row of a surface claim.
pub open spec fn surface_row(row: (Seq<char>, Seq<char>, Seq<char>, CapabilityStatus, nat)) -> Seq<char> {
    "| "@ + row.2 + " | "@ + status_label(row.3) + " | "@ + decimal(row.4) + " evidence refs |"@
}

pub open spec fn is_surface_row(row: (Seq<char>, Seq<char>, Seq<char>, CapabilityStatus, nat)) -> bool {
    row.1 == "surface"@
}

/// The README table of the surface claims, their status and how much evidence backs them.
pub open spec fn surface_table() -> Seq<char> {
    join_lines(seq!["| Surface | Status | Evidence |"@, "|---------|--------|----------|"@]
        + surface_claim_table().filter(|row: (Seq<char>, Seq<char>, Seq<char>, CapabilityStatus, nat)| is_surface_row(row))
            .map_values(|row: (Seq<char>, Seq<char>, Seq<char>, CapabilityStatus, nat)| surface_row(row)))
}

/// The README table of the surface claims, their status and how much evidence backs them.
pub fn capability_readme_surface_markdown() -> (r: String)
    ensures
        r@ == surface_table(),
{
    broadcast use Seq::lemma_filter_push;
    let ghost table = surface_claim_table();
    let ghost header = seq!["| Surface | Status | Evidence |"@, "|---------|--------|----------|"@];
    let ghost first = seq!["| Surface | Status | Evidence |"@];
    let ghost p = |row: (Seq<char>, Seq<char>, Seq<char>, CapabilityStatus, nat)| is_surface_row(row);
    let ghost f = |row: (Seq<char>, Seq<char>, Seq<char>, CapabilityStatus, nat)| surface_row(row);
    let mut s = String::from_str("| Surface | Status | Evidence |");
    push_line(&mut s, "|---------|--------|----------|", Ghost(first));
    proof {
        assert(first.push("|---------|--------|----------|"@) =~= header);
        assert(header + table.take(0).filter(p).map_values(f) =~= header);
    }
    let claims = surface_capability_claims();
    let mut i: usize = 0;
    while i < claims.len()
        invariant
            i <= claims@.len(),
            claims@.len() == table.len(),
            table == surface_claim_table(),
            forall|k: int| 0 <= k < claims@.len() ==> matches_row(#[trigger] claims@[k], table[k]),
            header.len() == 2,
            p == (|row: (Seq<char>, Seq<char>, Seq<char>, CapabilityStatus, nat)| is_surface_row(row)),
            f == (|row: (Seq<char>, Seq<char>, Seq<char>, CapabilityStatus, nat)| surface_row(row)),
            s@ == join_lines(header + table.take(i as int).filter(p).map_values(f)),
        decreases claims@.len() - i,
    {
        let claim = &claims[i];
        proof {
            assert(matches_row(claims@[i as int], table[i as int]));
            assert(table.take(i + 1) =~= table.take(i as int).push(table[i as int]));
            table.take(i as int).lemma_filter_push(table[i as int], p);
        }
        let ghost lines = header + table.take(i as int).filter(p).map_values(f);
        if text_eq(claim.category.as_str(), "surface") {
            let mut line = String::from_str("| ");
            line.append(claim.title.as_str());
            line.append(" | ");
            line.append(capability_status_label(claim.status));
            line.append(" | ");
            push_decimal(&mut line, claim.evidence.len() as u64);
            line.append(" evidence refs |");
            push_line(&mut s, line.as_str(), Ghost(lines));
            proof {
                assert(line@ == surface_row(table[i as int]));
                assert(table.take(i + 1).filter(p) == table.take(i as int).filter(p).push(table[i as int]));
                assert(header + table.take(i + 1).filter(p).map_values(f) =~= lines.push(f(table[i as int])));
            }
        } else {
            proof {
                assert(table.take(i + 1).filter(p) == table.take(i as int).filter(p));
            }
        }
        i = i + 1;
    }
    proof {
        assert(table.take(table.len() as int) =~= table);
    }
    s
}

/// How many claims have the status.
pub open spec fn status_count(claims: Seq<CapabilityClaim>, status: CapabilityStatus) -> nat {
    claims.filter(|c: CapabilityClaim| c.status == status).len()
}

fn count_with_status(claims: &Vec<CapabilityClaim>, status: CapabilityStatus) -> (n: usize)
    ensures
        n == status_count(claims@, status),
{
    broadcast use Seq::lemma_filter_push;
    let ghost p = |c: CapabilityClaim| c.status == status;
    let mut n: usize = 0;
    let mut i: usize = 0;
    while i < claims.len()
        invariant
            i <= claims@.len(),
            p == (|c: CapabilityClaim| c.status == status),
            n == claims@.take(i as int).filter(p).len(),
            n <= i,
        decreases claims@.len() - i,
    {
        proof {
            assert(claims@.take(i + 1) =~= claims@.take(i as int).push(claims@[i as int]));
            claims@.take(i as int).lemma_filter_push(claims@[i as int], p);
        }
        if claims[i].status == status {
            n = n + 1;
        }
        i = i + 1;
    }
    proof {
        assert(claims@.take(claims@.len() as int) =~= claims@);
    }
    n
}

/// The statuses in the order of their names.
pub open spec fn statuses_by_name() -> Seq<CapabilityStatus> {
    seq![
        CapabilityStatus::Experimental,
        CapabilityStatus::Implemented,
        CapabilityStatus::Partial,
        CapabilityStatus::Planned,
        CapabilityStatus::Unsupported,
    ]
}

/// Each status that some claim has, by name, with how many claims have it.
pub open spec fn status_counts_of(claims: Seq<CapabilityClaim>) -> Seq<(Seq<char>, nat)> {
    statuses_by_name().filter(|s: CapabilityStatus| status_count(claims, s) > 0)
        .map_values(|s: CapabilityStatus| (s.status_text(), status_count(claims, s)))
}

/// Each status that some claim has, by name, with how many claims have it.
pub fn capability_status_counts(claims: &Vec<CapabilityClaim>) -> (r: Vec<(String, usize)>)
    ensures
        r@.map_values(|e: (String, usize)| (e.0@, e.1 as nat)) == status_counts_of(claims@),
{
    broadcast use Seq::lemma_filter_push;
    let order = vec![
        CapabilityStatus::Experimental,
        CapabilityStatus::Implemented,
        CapabilityStatus::Partial,
        CapabilityStatus::Planned,
        CapabilityStatus::Unsupported,
    ];
    proof {
        assert(order@ =~= statuses_by_name());
    }
    let ghost p = |s: CapabilityStatus| status_count(claims@, s) > 0;
    let ghost f = |s: CapabilityStatus| (s.status_text(), status_count(claims@, s));
    let ghost g = |e: (String, usize)| (e.0@, e.1 as nat);
    let mut r: Vec<(String, usize)> = Vec::new();
    let mut i: usize = 0;
    while i < order.len()
        invariant
            i <= order@.len(),
            order@ == statuses_by_name(),
            p == (|s: CapabilityStatus| status_count(claims@, s) > 0),
            f == (|s: CapabilityStatus| (s.status_text(), status_count(claims@, s))),
            g == (|e: (String, usize)| (e.0@, e.1 as nat)),
            r@.map_values(g) == order@.take(i as int).filter(p).map_values(f),
        decreases order@.len() - i,
    {
        let status = order[i];
        let n = count_with_status(claims, status);
        proof {
            assert(order@.take(i + 1) =~= order@.take(i as int).push(status));
            order@.take(i as int).lemma_filter_push(status, p);
        }
        let ghost before = r@;
        if n > 0 {
            r.push((String::from_str(status.as_str()), n));
            proof {
                assert(r@.map_values(g) =~= before.map_values(g).push((status.status_text(), n as nat)));
                assert(order@.take(i + 1).filter(p) == order@.take(i as int).filter(p).push(status));
                assert(order@.take(i + 1).filter(p).map_values(f) =~= order@.take(i as int).filter(p).map_values(f).push(f(status)));
            }
        } else {
            proof {
                assert(order@.take(i + 1).filter(p) == order@.take(i as int).filter(p));
            }
        }
        i = i + 1;
    }
    proof {
        assert(order@.take(order@.len() as int) =~= order@);
    }
    r
}

} // verus!
