use fm_verified::budget::{scale_budget, MermaidBudgetLedger};
use fm_verified::degradation::{
    compute_degradation_plan, compute_degradation_plan_with_trace, DegradationContext, DegradationOperator,
    MermaidDegradationPlan, MermaidFidelity, MermaidQualityMode,
};
use fm_verified::diagnostics::{Diagnostic, MermaidError, Position, Span};
use fm_verified::graph_ir::{
    IrClusterId, IrEndpoint, IrGraphCluster, IrGraphEdge, IrGraphNode, IrLabelId, IrNodeId, IrPort, IrPortId,
    IrSubgraph, IrSubgraphId, MermaidGraphIr,
};
use fm_verified::model::{
    IrCluster, IrEdge, IrEntityAttribute, IrNode, IrSequenceMeta, MermaidConfig, MermaidFallbackPolicy,
};
use fm_verified::pressure::{
    MermaidNativePressureSignals, MermaidPressureReport, MermaidPressureTier, MermaidWasmPressureSignals,
};
use fm_verified::taxonomy::{
    ArrowType, DiagnosticCategory, DiagnosticSeverity, DiagramPalettePreset, DiagramType, GraphDirection,
    IrAttributeKey, IrEdgeKind, IrNodeKind, IrPortSideHint, MermaidErrorCode, MermaidFallbackAction,
    MermaidGlyphMode, MermaidSanitizeMode, MermaidSupportLevel, MermaidWarningCode,
};

fn sample_span(line: usize, start_col: usize, end_col: usize) -> Span {
    Span::new(
        Position {
            line,
            col: start_col,
            byte: 0,
        },
        Position {
            line,
            col: end_col,
            byte: 0,
        },
    )
}

#[test]
fn arrow_type_string_mapping_is_stable() {
    assert_eq!(ArrowType::DottedArrow.as_str(), "-.->");
}

#[test]
fn diagnostic_builder_pattern() {
    let diag = Diagnostic::error("Test error")
        .with_category(DiagnosticCategory::Parser)
        .with_span(Span::default())
        .with_suggestion("Try this instead")
        .with_expected(vec!["foo".to_string(), "bar".to_string()])
        .with_found("baz");

    assert_eq!(diag.severity, DiagnosticSeverity::Error);
    assert_eq!(diag.category, DiagnosticCategory::Parser);
    assert_eq!(diag.message, "Test error");
    assert!(diag.span.is_some());
    assert_eq!(diag.suggestion, Some("Try this instead".to_string()));
    assert_eq!(diag.expected, vec!["foo", "bar"]);
    assert_eq!(diag.found, Some("baz".to_string()));
}

#[test]
fn diagnostic_severity_levels() {
    assert!(Diagnostic::error("e").is_error());
    assert!(!Diagnostic::error("e").is_warning());
    assert!(Diagnostic::warning("w").is_warning());
    assert!(!Diagnostic::warning("w").is_error());
}

#[test]
fn span_helpers_build_expected_positions() {
    let span = sample_span(7, 3, 11);
    assert_eq!(span.start.line, 7);
    assert_eq!(span.start.col, 3);
    assert_eq!(span.end.col, 11);

    let line_span = Span::at_line(9, 0);
    assert_eq!(line_span.start.line, 9);
    assert_eq!(line_span.start.col, 1);
    assert_eq!(line_span.end.col, 1);
}

#[test]
fn mermaid_error_code_strings_are_stable() {
    let expectations = [
        (MermaidErrorCode::Parse, "mermaid/error/parse"),
        (MermaidErrorCode::Validation, "mermaid/error/validation"),
        (MermaidErrorCode::Unsupported, "mermaid/error/unsupported"),
    ];

    for (code, expected) in expectations {
        assert_eq!(code.as_str(), expected);
    }
}

#[test]
fn mermaid_warning_code_strings_are_stable() {
    let expectations = [
        (
            MermaidWarningCode::ParseRecovery,
            "mermaid/warn/parse-recovery",
        ),
        (
            MermaidWarningCode::UnsupportedStyle,
            "mermaid/warn/unsupported-style",
        ),
        (
            MermaidWarningCode::UnsupportedLink,
            "mermaid/warn/unsupported-link",
        ),
        (
            MermaidWarningCode::UnsupportedFeature,
            "mermaid/warn/unsupported-feature",
        ),
    ];

    for (code, expected) in expectations {
        assert_eq!(code.as_str(), expected);
    }
}

#[test]
fn mermaid_error_code_and_span_accessors_cover_variants() {
    let span = sample_span(4, 2, 8);
    let parse = MermaidError::Parse {
        message: "parse".to_string(),
        span,
        expected: vec!["node".to_string()],
    };
    let validation = MermaidError::Validation {
        message: "validation".to_string(),
        span,
    };
    let unsupported = MermaidError::Unsupported {
        message: "unsupported".to_string(),
        span,
    };

    assert_eq!(parse.code(), MermaidErrorCode::Parse);
    assert_eq!(validation.code(), MermaidErrorCode::Validation);
    assert_eq!(unsupported.code(), MermaidErrorCode::Unsupported);
    assert_eq!(parse.span(), span);
    assert_eq!(validation.span(), span);
    assert_eq!(unsupported.span(), span);
}

#[test]
fn diagram_type_string_mapping_is_exhaustive() {
    let expectations = [
        (DiagramType::Flowchart, "flowchart"),
        (DiagramType::Sequence, "sequence"),
        (DiagramType::State, "state"),
        (DiagramType::Gantt, "gantt"),
        (DiagramType::Class, "class"),
        (DiagramType::Er, "er"),
        (DiagramType::Mindmap, "mindmap"),
        (DiagramType::Pie, "pie"),
        (DiagramType::GitGraph, "gitGraph"),
        (DiagramType::Journey, "journey"),
        (DiagramType::Requirement, "requirementDiagram"),
        (DiagramType::Timeline, "timeline"),
        (DiagramType::QuadrantChart, "quadrantChart"),
        (DiagramType::Sankey, "sankey"),
        (DiagramType::XyChart, "xyChart"),
        (DiagramType::BlockBeta, "block-beta"),
        (DiagramType::PacketBeta, "packet-beta"),
        (DiagramType::ArchitectureBeta, "architecture-beta"),
        (DiagramType::C4Context, "C4Context"),
        (DiagramType::C4Container, "C4Container"),
        (DiagramType::C4Component, "C4Component"),
        (DiagramType::C4Dynamic, "C4Dynamic"),
        (DiagramType::C4Deployment, "C4Deployment"),
        (DiagramType::Kanban, "kanban"),
        (DiagramType::Unknown, "unknown"),
    ];

    for (diagram_type, expected) in expectations {
        assert_eq!(diagram_type.as_str(), expected);
    }
}

#[test]
fn graph_direction_string_mapping_is_exhaustive() {
    let expectations = [
        (GraphDirection::TB, "TB"),
        (GraphDirection::TD, "TD"),
        (GraphDirection::LR, "LR"),
        (GraphDirection::RL, "RL"),
        (GraphDirection::BT, "BT"),
    ];

    for (direction, expected) in expectations {
        assert_eq!(direction.as_str(), expected);
    }
}

#[test]
fn ir_port_side_hint_tracks_graph_direction() {
    assert_eq!(
        IrPortSideHint::from_direction(GraphDirection::LR),
        IrPortSideHint::Horizontal
    );
    assert_eq!(
        IrPortSideHint::from_direction(GraphDirection::RL),
        IrPortSideHint::Horizontal
    );
    assert_eq!(
        IrPortSideHint::from_direction(GraphDirection::TB),
        IrPortSideHint::Vertical
    );
    assert_eq!(
        IrPortSideHint::from_direction(GraphDirection::TD),
        IrPortSideHint::Vertical
    );
    assert_eq!(
        IrPortSideHint::from_direction(GraphDirection::BT),
        IrPortSideHint::Vertical
    );
}

#[test]
fn arrow_type_string_mapping_is_complete() {
    let expectations = [
        (ArrowType::Line, "---"),
        (ArrowType::Arrow, "-->"),
        (ArrowType::OpenArrow, "-)"),
        (ArrowType::HalfArrowTop, "-|\\"),
        (ArrowType::HalfArrowBottom, "-|/"),
        (ArrowType::HalfArrowTopReverse, "/|-"),
        (ArrowType::HalfArrowBottomReverse, "\\|-"),
        (ArrowType::StickArrowTop, "-\\\\"),
        (ArrowType::StickArrowBottom, "-//"),
        (ArrowType::StickArrowTopReverse, "//-"),
        (ArrowType::StickArrowBottomReverse, "\\\\-"),
        (ArrowType::ThickArrow, "==>"),
        (ArrowType::DottedArrow, "-.->"),
        (ArrowType::DottedOpenArrow, "--)"),
        (ArrowType::DottedCross, "--x"),
        (ArrowType::HalfArrowTopDotted, "--|\\"),
        (ArrowType::HalfArrowBottomDotted, "--|/"),
        (ArrowType::HalfArrowTopReverseDotted, "/|--"),
        (ArrowType::HalfArrowBottomReverseDotted, "\\|--"),
        (ArrowType::StickArrowTopDotted, "--\\\\"),
        (ArrowType::StickArrowBottomDotted, "--//"),
        (ArrowType::StickArrowTopReverseDotted, "//--"),
        (ArrowType::StickArrowBottomReverseDotted, "\\\\--"),
        (ArrowType::Circle, "--o"),
        (ArrowType::Cross, "-x"),
        (ArrowType::ThickLine, "==="),
        (ArrowType::DottedLine, "-.-"),
        (ArrowType::DoubleArrow, "<-->"),
        (ArrowType::DoubleThickArrow, "<==>"),
        (ArrowType::DoubleDottedArrow, "<-.->"),
    ];

    for (arrow, expected) in expectations {
        assert_eq!(arrow.as_str(), expected);
    }
}

#[test]
fn mermaid_config_default_values_are_stable() {
    let config = MermaidConfig::default();
    assert!(config.enabled);
    assert_eq!(config.max_nodes, 200);
    assert_eq!(config.max_edges, 400);
    assert_eq!(config.route_budget, 4_000);
    assert_eq!(config.layout_iteration_budget, 200);
    assert_eq!(config.max_label_chars, 48);
    assert_eq!(config.max_label_lines, 3);
    assert_eq!(config.palette, DiagramPalettePreset::Default);
    assert_eq!(config.sanitize_mode, MermaidSanitizeMode::Strict);
    assert_eq!(config.theme, None);
}

#[test]
fn native_pressure_quantization_prefers_highest_observed_signal() {
    let report = MermaidNativePressureSignals {
        cpu_pressure_permille: Some(410),
        memory_pressure_permille: Some(880),
        io_pressure_permille: Some(300),
        available_parallelism: Some(8),
        rss_mib: Some(256),
    }
    .into_report();
    assert!(report.telemetry_available);
    assert_eq!(report.quantized_score_permille, 880);
    assert_eq!(report.tier, MermaidPressureTier::Critical);
}

#[test]
fn wasm_pressure_quantization_uses_frame_and_worker_signals() {
    let report = MermaidWasmPressureSignals {
        frame_budget_ms: Some(16),
        frame_time_ms: Some(12),
        event_loop_lag_ms: Some(4),
        worker_saturation_permille: Some(720),
    }
    .into_report();
    assert!(report.telemetry_available);
    assert_eq!(report.source.as_str(), "wasm");
    assert_eq!(report.quantized_score_permille, 750);
    assert_eq!(report.tier, MermaidPressureTier::High);
}

#[test]
fn unavailable_pressure_signal_produces_conservative_unknown_report() {
    let report = MermaidNativePressureSignals::default().into_report();
    assert!(!report.telemetry_available);
    assert!(report.conservative_fallback);
    assert_eq!(report.tier, MermaidPressureTier::Unknown);
    assert!(
        report
            .notes
            .iter()
            .any(|note| note.contains("telemetry unavailable"))
    );
}

#[test]
fn budget_broker_rebalances_after_parse_and_tracks_exhaustion() {
    let pressure = MermaidNativePressureSignals {
        cpu_pressure_permille: Some(910),
        ..MermaidNativePressureSignals::default()
    }
    .into_report();
    let mut broker = MermaidBudgetLedger::new(&pressure);

    assert_eq!(broker.total_budget_ms, 80);
    broker.record_parse(30);
    assert!(broker.parse.exceeded);
    assert!(broker.layout.allocated_ms > broker.render.allocated_ms);

    broker.record_layout(40);
    broker.record_render(20);
    assert!(broker.exhausted);
    assert!(broker.events.iter().any(|event| {
        event.kind == "rebalance" && event.stage.as_deref() == Some("layout")
    }));
    assert!(broker.events.iter().any(|event| {
        event.kind == "accounting" && event.note.as_deref() == Some("global budget exhausted")
    }));
}

#[test]
fn budget_broker_events_capture_remaining_total_at_event_time() {
    let pressure = MermaidNativePressureSignals::default().into_report();
    let mut broker = MermaidBudgetLedger::new(&pressure);

    assert_eq!(broker.events.len(), 4);
    assert!(
        broker
            .events
            .iter()
            .take(3)
            .all(|event| event.kind == "allocate" && event.remaining_total_ms == 120)
    );
    assert_eq!(broker.events[3].kind, "policy_note");
    assert_eq!(broker.events[3].remaining_total_ms, 120);

    broker.record_parse(24);

    let parse_consume = broker
        .events
        .iter()
        .find(|event| event.kind == "consume" && event.stage.as_deref() == Some("parse"))
        .expect("parse consume event should be emitted");
    assert_eq!(parse_consume.used_ms, Some(24));
    assert_eq!(parse_consume.remaining_total_ms, 96);

    let layout_rebalance = broker
        .events
        .iter()
        .find(|event| event.kind == "rebalance" && event.stage.as_deref() == Some("layout"))
        .expect("layout rebalance event should be emitted");
    assert_eq!(layout_rebalance.remaining_total_ms, 96);

    let accounting = broker
        .events
        .iter()
        .find(|event| event.kind == "accounting")
        .expect("accounting event should be emitted");
    assert_eq!(accounting.used_ms, Some(24));
    assert_eq!(accounting.remaining_total_ms, 96);
}

#[test]
fn pressure_tier_boundary_quantization_is_deterministic() {
    // Exact boundary values for tier transitions
    let cases: Vec<(u16, bool, MermaidPressureTier)> = vec![
        (0, true, MermaidPressureTier::Nominal),
        (349, true, MermaidPressureTier::Nominal),
        (350, true, MermaidPressureTier::Elevated),
        (649, true, MermaidPressureTier::Elevated),
        (650, true, MermaidPressureTier::High),
        (849, true, MermaidPressureTier::High),
        (850, true, MermaidPressureTier::Critical),
        (1000, true, MermaidPressureTier::Critical),
        (500, false, MermaidPressureTier::Unknown),
    ];
    for (score, telemetry, expected) in cases {
        assert_eq!(
            MermaidPressureTier::from_quantized_score(score, telemetry),
            expected,
            "score={score}, telemetry={telemetry}"
        );
    }
}

#[test]
fn budget_allocation_varies_deterministically_by_pressure_tier() {
    let tiers_and_budgets: Vec<(MermaidPressureTier, u64)> = vec![
        (MermaidPressureTier::Nominal, 250),
        (MermaidPressureTier::Elevated, 180),
        (MermaidPressureTier::High, 120),
        (MermaidPressureTier::Unknown, 120),
        (MermaidPressureTier::Critical, 80),
    ];
    for (tier, expected_total) in tiers_and_budgets {
        let pressure = MermaidPressureReport {
            tier,
            telemetry_available: true,
            ..MermaidPressureReport::default()
        };
        let broker = MermaidBudgetLedger::new(&pressure);
        assert_eq!(broker.total_budget_ms, expected_total, "tier={tier:?}");
        // parse + layout + render must sum to total
        let sum =
            broker.parse.allocated_ms + broker.layout.allocated_ms + broker.render.allocated_ms;
        assert_eq!(sum, expected_total, "stage sum mismatch for tier={tier:?}");
        // layout gets the lion's share
        assert!(
            broker.layout.allocated_ms >= broker.parse.allocated_ms,
            "layout should get more than parse for tier={tier:?}"
        );
    }
}

#[test]
fn combined_high_cpu_and_memory_pressure_selects_worst_case_tier() {
    let report = MermaidNativePressureSignals {
        cpu_pressure_permille: Some(700),
        memory_pressure_permille: Some(860),
        io_pressure_permille: Some(200),
        available_parallelism: Some(8),
        rss_mib: Some(64),
    }
    .into_report();
    // 860 is the max signal → Critical
    assert_eq!(report.quantized_score_permille, 860);
    assert_eq!(report.tier, MermaidPressureTier::Critical);
}

#[test]
fn all_stages_exceeding_budget_marks_global_exhaustion() {
    let pressure = MermaidNativePressureSignals {
        cpu_pressure_permille: Some(100),
        ..MermaidNativePressureSignals::default()
    }
    .into_report();
    let mut broker = MermaidBudgetLedger::new(&pressure);
    assert_eq!(broker.total_budget_ms, 250);

    // Exceed every stage
    broker.record_parse(200);
    assert!(broker.parse.exceeded);
    broker.record_layout(200);
    assert!(broker.layout.exceeded);
    broker.record_render(200);
    assert!(broker.render.exceeded);
    assert!(broker.exhausted);
    assert_eq!(broker.remaining_total_ms, 0);
    // Event trail records exhaustion
    assert!(
        broker
            .events
            .iter()
            .any(|e| e.kind == "accounting" && e.exceeded),
        "should have at least one exhaustion accounting event"
    );
}

#[test]
fn rebalance_gives_layout_three_quarters_of_remaining_budget() {
    let pressure = MermaidPressureReport {
        tier: MermaidPressureTier::Nominal,
        telemetry_available: true,
        ..MermaidPressureReport::default()
    };
    let mut broker = MermaidBudgetLedger::new(&pressure);
    // Nominal: total=250, parse=50, layout=150, render=50
    assert_eq!(broker.total_budget_ms, 250);

    // Fast parse uses only 10ms
    broker.record_parse(10);
    // Remaining = 250 - 10 = 240
    // Render tail = ceil(240/4) = 60
    // Layout = 240 - 60 = 180
    assert_eq!(broker.layout.allocated_ms, 180);
    assert_eq!(broker.render.allocated_ms, 60);
}

#[test]
fn scale_budget_handles_edge_cases() {
    // Zero allocated still returns at least 1
    assert_eq!(scale_budget(200, 0, 250), 1);
    // Equal to baseline returns default
    assert_eq!(scale_budget(200, 250, 250), 200);
    // Double baseline doubles budget
    assert_eq!(scale_budget(200, 500, 250), 400);
    // Very small allocation scales down proportionally
    assert_eq!(scale_budget(4000, 25, 250), 400);
}

#[test]
fn should_simplify_render_triggers_on_high_pressure_or_low_render_budget() {
    // High pressure → simplify
    let pressure_high = MermaidPressureReport {
        tier: MermaidPressureTier::High,
        telemetry_available: true,
        ..MermaidPressureReport::default()
    };
    let broker_high = MermaidBudgetLedger::new(&pressure_high);
    assert!(broker_high.should_simplify_render());

    // Critical → simplify
    let pressure_crit = MermaidPressureReport {
        tier: MermaidPressureTier::Critical,
        telemetry_available: true,
        ..MermaidPressureReport::default()
    };
    let broker_crit = MermaidBudgetLedger::new(&pressure_crit);
    assert!(broker_crit.should_simplify_render());

    // Nominal → no simplification (render budget > 24ms)
    let pressure_nom = MermaidPressureReport {
        tier: MermaidPressureTier::Nominal,
        telemetry_available: true,
        ..MermaidPressureReport::default()
    };
    let broker_nom = MermaidBudgetLedger::new(&pressure_nom);
    assert!(!broker_nom.should_simplify_render());
}

#[test]
fn budget_broker_within_budget_is_not_exhausted() {
    let pressure = MermaidPressureReport {
        tier: MermaidPressureTier::Nominal,
        telemetry_available: true,
        ..MermaidPressureReport::default()
    };
    let mut broker = MermaidBudgetLedger::new(&pressure);
    broker.record_parse(5);
    broker.record_layout(30);
    broker.record_render(10);
    assert!(!broker.exhausted);
    assert!(!broker.parse.exceeded);
    assert!(!broker.layout.exceeded);
    assert!(!broker.render.exceeded);
    assert!(broker.remaining_total_ms > 0);
}

#[test]
fn wasm_frame_overrun_produces_high_pressure() {
    // frame_time 2x budget = 2000 permille, clamped to 1000
    let report = MermaidWasmPressureSignals {
        frame_budget_ms: Some(16),
        frame_time_ms: Some(32),
        event_loop_lag_ms: None,
        worker_saturation_permille: None,
    }
    .into_report();
    assert_eq!(report.quantized_score_permille, 1000);
    assert_eq!(report.tier, MermaidPressureTier::Critical);
}

#[test]
fn wasm_event_loop_lag_scales_pressure() {
    // 10ms lag → 10*50 = 500 permille → Elevated
    let report = MermaidWasmPressureSignals {
        frame_budget_ms: None,
        frame_time_ms: None,
        event_loop_lag_ms: Some(10),
        worker_saturation_permille: None,
    }
    .into_report();
    assert_eq!(report.quantized_score_permille, 500);
    assert_eq!(report.tier, MermaidPressureTier::Elevated);
}

#[test]
fn parallelism_single_core_produces_high_pressure() {
    let report = MermaidNativePressureSignals {
        available_parallelism: Some(1),
        ..MermaidNativePressureSignals::default()
    }
    .into_report();
    assert_eq!(report.quantized_score_permille, 900);
    assert_eq!(report.tier, MermaidPressureTier::Critical);
}

#[test]
fn rss_high_memory_produces_pressure() {
    let report = MermaidNativePressureSignals {
        rss_mib: Some(4096),
        ..MermaidNativePressureSignals::default()
    }
    .into_report();
    // 4096 MiB → 920 permille → Critical
    assert_eq!(report.quantized_score_permille, 920);
    assert_eq!(report.tier, MermaidPressureTier::Critical);
}

#[test]
fn degradation_plan_explain_no_degradation() {
    let plan = MermaidDegradationPlan::default();
    let explanation = plan.explain();
    assert_eq!(explanation.len(), 1);
    assert!(explanation[0].contains("full quality"));
}

#[test]
fn degradation_plan_explain_lists_active_operators() {
    let plan = MermaidDegradationPlan {
        target_fidelity: MermaidFidelity::Compact,
        reduce_decoration: true,
        simplify_routing: true,
        force_glyph_mode: Some(MermaidGlyphMode::Ascii),
        ..MermaidDegradationPlan::default()
    };
    let explanation = plan.explain();
    assert!(explanation.iter().any(|l| l.contains("Decoration reduced")));
    assert!(explanation.iter().any(|l| l.contains("routing simplified")));
    assert!(explanation.iter().any(|l| l.contains("ASCII")));
    assert!(explanation.iter().any(|l| l.contains("Compact")));
    assert!(explanation.iter().any(|l| l.contains("Remediation")));
}

#[test]
fn degradation_plan_is_degraded_detects_any_active_operator() {
    assert!(!MermaidDegradationPlan::default().is_degraded());
    assert!(
        MermaidDegradationPlan {
            reduce_decoration: true,
            ..MermaidDegradationPlan::default()
        }
        .is_degraded()
    );
    assert!(
        MermaidDegradationPlan {
            target_fidelity: MermaidFidelity::Compact,
            ..MermaidDegradationPlan::default()
        }
        .is_degraded()
    );
}

#[test]
fn quality_mode_as_str_is_stable() {
    assert_eq!(MermaidQualityMode::QualityFirst.as_str(), "quality-first");
    assert_eq!(MermaidQualityMode::Auto.as_str(), "auto");
    assert_eq!(MermaidQualityMode::Balanced.as_str(), "balanced");
    assert_eq!(MermaidQualityMode::LatencyFirst.as_str(), "latency-first");
}

#[test]
fn degradation_plan_default_is_no_degradation() {
    let plan = MermaidDegradationPlan::default();
    assert_eq!(plan.target_fidelity, MermaidFidelity::Normal);
    assert!(!plan.hide_labels);
    assert!(!plan.collapse_clusters);
    assert!(!plan.simplify_routing);
    assert!(!plan.reduce_decoration);
    assert!(plan.force_glyph_mode.is_none());
}

#[test]
fn degradation_operator_ordinals_are_unique_and_ascending() {
    let ops = DegradationOperator::all_in_order();
    for pair in ops.windows(2) {
        assert!(
            pair[0].ordinal() < pair[1].ordinal(),
            "{:?} ordinal {} should be < {:?} ordinal {}",
            pair[0],
            pair[0].ordinal(),
            pair[1],
            pair[1].ordinal()
        );
    }
}

#[test]
fn no_degradation_when_everything_is_nominal() {
    let ctx = DegradationContext {
        pressure_tier: MermaidPressureTier::Nominal,
        ..DegradationContext::default()
    };
    let (plan, applied) = compute_degradation_plan_with_trace(&ctx);
    assert!(applied.is_empty());
    assert_eq!(plan.target_fidelity, MermaidFidelity::Normal);
    assert!(!plan.reduce_decoration);
    assert!(!plan.simplify_routing);
    assert!(!plan.hide_labels);
    assert!(!plan.collapse_clusters);
    assert!(plan.force_glyph_mode.is_none());
}

#[test]
fn route_budget_exceeded_triggers_routing_and_decoration() {
    let ctx = DegradationContext {
        pressure_tier: MermaidPressureTier::Nominal,
        route_budget_exceeded: true,
        ..DegradationContext::default()
    };
    let (plan, applied) = compute_degradation_plan_with_trace(&ctx);
    assert!(plan.simplify_routing);
    assert!(plan.reduce_decoration);
    assert_eq!(plan.target_fidelity, MermaidFidelity::Compact);
    assert!(applied.contains(&DegradationOperator::SimplifyRouting));
    assert!(applied.contains(&DegradationOperator::ReduceDecoration));
}

#[test]
fn high_pressure_alone_triggers_decoration_reduction() {
    let ctx = DegradationContext {
        pressure_tier: MermaidPressureTier::High,
        ..DegradationContext::default()
    };
    let (plan, applied) = compute_degradation_plan_with_trace(&ctx);
    assert!(plan.reduce_decoration);
    assert!(applied.contains(&DegradationOperator::ReduceDecoration));
    // No budget exceeded → no other operators
    assert!(!plan.simplify_routing);
    assert_eq!(plan.target_fidelity, MermaidFidelity::Normal);
}

#[test]
fn critical_pressure_with_time_exceeded_drops_to_outline() {
    let ctx = DegradationContext {
        pressure_tier: MermaidPressureTier::Critical,
        time_budget_exceeded: true,
        node_limit_exceeded: true,
        ..DegradationContext::default()
    };
    let (plan, applied) = compute_degradation_plan_with_trace(&ctx);
    assert_eq!(plan.target_fidelity, MermaidFidelity::Outline);
    assert!(plan.reduce_decoration);
    assert!(plan.hide_labels);
    assert!(plan.collapse_clusters);
    assert!(applied.contains(&DegradationOperator::DowngradeToOutline));
}

#[test]
fn degradation_operator_application_is_deterministic() {
    let ctx = DegradationContext {
        pressure_tier: MermaidPressureTier::High,
        route_budget_exceeded: true,
        layout_budget_exceeded: true,
        time_budget_exceeded: true,
        node_limit_exceeded: true,
        edge_limit_exceeded: true,
    };
    let (plan1, applied1) = compute_degradation_plan_with_trace(&ctx);
    let (plan2, applied2) = compute_degradation_plan_with_trace(&ctx);
    assert_eq!(plan1, plan2);
    assert_eq!(applied1, applied2);
}

#[test]
fn degradation_operators_apply_in_canonical_order() {
    let ctx = DegradationContext {
        pressure_tier: MermaidPressureTier::Critical,
        route_budget_exceeded: true,
        time_budget_exceeded: true,
        node_limit_exceeded: true,
        ..DegradationContext::default()
    };
    let (_, applied) = compute_degradation_plan_with_trace(&ctx);
    for pair in applied.windows(2) {
        assert!(
            pair[0].ordinal() < pair[1].ordinal(),
            "operators should be applied in ordinal order"
        );
    }
}

#[test]
fn mermaid_fallback_policy_defaults_match_contract() {
    let policy = MermaidFallbackPolicy::default();
    assert_eq!(policy.unsupported_diagram, MermaidFallbackAction::Error);
    assert_eq!(policy.unsupported_directive, MermaidFallbackAction::Warn);
    assert_eq!(policy.unsupported_style, MermaidFallbackAction::Warn);
    assert_eq!(policy.unsupported_link, MermaidFallbackAction::Warn);
    assert_eq!(policy.unsupported_feature, MermaidFallbackAction::Warn);
}

#[test]
fn diagnostic_severity_string_and_emoji_mappings_are_stable() {
    let expectations = [
        (DiagnosticSeverity::Hint, "hint", "💡"),
        (DiagnosticSeverity::Info, "info", "ℹ️"),
        (DiagnosticSeverity::Warning, "warning", "⚠️"),
        (DiagnosticSeverity::Error, "error", "❌"),
    ];

    for (severity, expected_str, expected_emoji) in expectations {
        assert_eq!(severity.as_str(), expected_str);
        assert_eq!(severity.emoji(), expected_emoji);
    }
}

#[test]
fn diagnostic_category_string_mappings_are_stable() {
    let expectations = [
        (DiagnosticCategory::Lexer, "lexer"),
        (DiagnosticCategory::Parser, "parser"),
        (DiagnosticCategory::Semantic, "semantic"),
        (DiagnosticCategory::Recovery, "recovery"),
        (DiagnosticCategory::Inference, "inference"),
        (DiagnosticCategory::Compatibility, "compatibility"),
    ];

    for (category, expected) in expectations {
        assert_eq!(category.as_str(), expected);
    }
}

#[test]
fn diagnostic_with_related_records_location() {
    let related_span = sample_span(11, 2, 5);
    let diagnostic = Diagnostic::warning("duplicate node")
        .with_category(DiagnosticCategory::Semantic)
        .with_related("first definition", related_span);

    assert_eq!(diagnostic.related.len(), 1);
    assert_eq!(diagnostic.related[0].message, "first definition");
    assert_eq!(diagnostic.related[0].span, related_span);
}

#[test]
fn ir_node_members_support_er_attributes() {
    let node = IrNode {
        id: "User".to_string(),
        members: vec![
            IrEntityAttribute {
                data_type: "int".to_string(),
                name: "id".to_string(),
                key: IrAttributeKey::Pk,
                comment: Some("primary key".to_string()),
            },
            IrEntityAttribute {
                data_type: "varchar".to_string(),
                name: "name".to_string(),
                key: IrAttributeKey::NoKey,
                comment: None,
            },
        ],
        ..Default::default()
    };

    assert_eq!(node.members.len(), 2);
    assert_eq!(node.members[0].key, IrAttributeKey::Pk);
    assert_eq!(node.members[1].name, "name");
}

#[test]
fn ir_edge_supports_self_loop_and_port_endpoints() {
    let edge = IrEdge {
        from: IrEndpoint::Port(IrPortId(1)),
        to: IrEndpoint::Port(IrPortId(1)),
        arrow: ArrowType::Circle,
        label: Some(IrLabelId(3)),
        span: sample_span(6, 1, 9),
        er_notation: None,
        source_cardinality: None,
        target_cardinality: None,
        guard: None,
        action: None,
        inline_style: None,
    };

    assert_eq!(edge.from, edge.to);
    assert_eq!(edge.arrow, ArrowType::Circle);
    assert_eq!(edge.label, Some(IrLabelId(3)));
}

#[test]
fn ir_cluster_supports_empty_and_single_member() {
    let empty = IrCluster {
        id: IrClusterId(0),
        title: None,
        members: Vec::new(),
        grid_span: 1,
        span: sample_span(1, 1, 1),
    };
    let single = IrCluster {
        id: IrClusterId(1),
        title: Some(IrLabelId(2)),
        members: vec![IrNodeId(9)],
        grid_span: 1,
        span: sample_span(4, 1, 4),
    };

    assert!(empty.members.is_empty());
    assert_eq!(single.members, vec![IrNodeId(9)]);
    assert_eq!(single.title, Some(IrLabelId(2)));
}

#[test]
fn graph_ir_supports_typed_nodes_edges_clusters_and_subgraphs() {
    let subgraph = IrSubgraph {
        id: IrSubgraphId(0),
        key: "api".to_string(),
        title: Some(IrLabelId(0)),
        parent: None,
        children: vec![IrSubgraphId(1)],
        members: vec![IrNodeId(0), IrNodeId(1)],
        cluster: Some(IrClusterId(0)),
        grid_span: 1,
        span: sample_span(1, 1, 3),
        direction: None,
    };
    let child = IrSubgraph {
        id: IrSubgraphId(1),
        key: "workers".to_string(),
        title: Some(IrLabelId(1)),
        parent: Some(IrSubgraphId(0)),
        children: Vec::new(),
        members: vec![IrNodeId(1)],
        cluster: Some(IrClusterId(1)),
        grid_span: 1,
        span: sample_span(2, 1, 3),
        direction: None,
    };
    let graph_node = IrGraphNode {
        node_id: IrNodeId(1),
        kind: IrNodeKind::Participant,
        clusters: vec![IrClusterId(0), IrClusterId(1)],
        subgraphs: vec![IrSubgraphId(0), IrSubgraphId(1)],
    };
    let graph_edge = IrGraphEdge {
        edge_id: 0,
        kind: IrEdgeKind::Message,
        from: IrEndpoint::Node(IrNodeId(0)),
        to: IrEndpoint::Node(IrNodeId(1)),
        span: sample_span(3, 1, 5),
    };
    let graph_cluster = IrGraphCluster {
        cluster_id: IrClusterId(1),
        title: Some(IrLabelId(1)),
        members: vec![IrNodeId(1)],
        subgraph: Some(IrSubgraphId(1)),
        grid_span: 1,
        span: sample_span(2, 1, 3),
    };

    assert_eq!(subgraph.children, vec![IrSubgraphId(1)]);
    assert_eq!(child.parent, Some(IrSubgraphId(0)));
    assert_eq!(graph_node.kind, IrNodeKind::Participant);
    assert_eq!(graph_node.subgraphs.len(), 2);
    assert_eq!(graph_edge.kind, IrEdgeKind::Message);
    assert_eq!(graph_cluster.subgraph, Some(IrSubgraphId(1)));
}

#[test]
fn diagram_type_support_contract_matches_surface_expectations() {
    assert_eq!(
        DiagramType::Flowchart.support_level(),
        MermaidSupportLevel::Supported
    );
    assert_eq!(DiagramType::Flowchart.support_label(), "full");

    assert_eq!(
        DiagramType::GitGraph.support_level(),
        MermaidSupportLevel::Supported
    );
    assert_eq!(DiagramType::GitGraph.support_label(), "full");

    assert_eq!(
        DiagramType::C4Context.support_level(),
        MermaidSupportLevel::Supported
    );
    assert_eq!(DiagramType::C4Context.support_label(), "full");

    assert_eq!(
        DiagramType::ArchitectureBeta.support_level(),
        MermaidSupportLevel::Supported
    );
    assert_eq!(DiagramType::ArchitectureBeta.support_label(), "full");

    assert_eq!(
        DiagramType::Unknown.support_level(),
        MermaidSupportLevel::Unsupported
    );
    assert_eq!(DiagramType::Unknown.support_label(), "unknown");
}

#[test]
fn sequence_meta_default_is_empty() {
    let meta = IrSequenceMeta::default();
    assert!(!meta.autonumber);
    assert_eq!(meta.autonumber_start, 1);
    assert_eq!(meta.autonumber_increment, 1);
    assert!(!meta.hide_footbox);
    assert!(meta.activations.is_empty());
    assert!(meta.notes.is_empty());
    assert!(meta.fragments.is_empty());
    assert!(meta.participant_groups.is_empty());
    assert!(meta.lifecycle_events.is_empty());
}

#[test]
fn sequence_meta_autonumber_value_uses_start_and_increment() {
    let meta = IrSequenceMeta {
        autonumber: true,
        autonumber_start: 10,
        autonumber_increment: 5,
        ..Default::default()
    };

    assert_eq!(meta.autonumber_value(0), Some(10));
    assert_eq!(meta.autonumber_value(1), Some(15));
    assert_eq!(meta.autonumber_value(2), Some(20));
}

#[test]
fn ir_endpoint_resolution() {
    let ports = vec![IrPort {
        node: IrNodeId(2),
        name: "port1".to_string(),
        ..IrPort::default()
    }];
    assert_eq!(
        IrEndpoint::Node(IrNodeId(5)).resolved_node_id(&ports),
        Some(IrNodeId(5))
    );
    assert_eq!(
        IrEndpoint::Port(IrPortId(0)).resolved_node_id(&ports),
        Some(IrNodeId(2))
    );
    assert_eq!(IrEndpoint::Unresolved.resolved_node_id(&ports), None);
    assert_eq!(
        IrEndpoint::Port(IrPortId(99)).resolved_node_id(&ports),
        None
    );
}

#[test]
fn graph_ir_node_query_by_id() {
    let mut graph = MermaidGraphIr::default();
    graph.nodes.push(IrGraphNode {
        node_id: IrNodeId(0),
        kind: IrNodeKind::Generic,
        clusters: vec![],
        subgraphs: vec![],
    });
    graph.nodes.push(IrGraphNode {
        node_id: IrNodeId(1),
        kind: IrNodeKind::Entity,
        clusters: vec![],
        subgraphs: vec![],
    });
    assert_eq!(graph.node(IrNodeId(0)).unwrap().kind, IrNodeKind::Generic);
    assert_eq!(graph.node(IrNodeId(1)).unwrap().kind, IrNodeKind::Entity);
    assert!(graph.node(IrNodeId(99)).is_none());
}

#[test]
fn graph_ir_edge_query() {
    let mut graph = MermaidGraphIr::default();
    graph.edges.push(IrGraphEdge {
        edge_id: 0,
        kind: IrEdgeKind::Generic,
        from: IrEndpoint::Node(IrNodeId(0)),
        to: IrEndpoint::Node(IrNodeId(1)),
        span: Span::default(),
    });
    assert_eq!(graph.edge(0).unwrap().kind, IrEdgeKind::Generic);
    assert!(graph.edge(99).is_none());
}

#[test]
fn graph_ir_cluster_query() {
    let mut graph = MermaidGraphIr::default();
    graph.clusters.push(IrGraphCluster {
        cluster_id: IrClusterId(0),
        title: None,
        members: vec![IrNodeId(0), IrNodeId(1)],
        subgraph: None,
        grid_span: 0,
        span: Span::default(),
    });
    let cluster = graph.cluster(IrClusterId(0)).unwrap();
    assert_eq!(cluster.members.len(), 2);
    assert!(graph.cluster(IrClusterId(99)).is_none());
}

#[test]
fn graph_ir_subgraph_by_key() {
    let mut graph = MermaidGraphIr::default();
    graph.subgraphs.push(IrSubgraph {
        id: IrSubgraphId(0),
        key: "alpha".to_string(),
        ..IrSubgraph::default()
    });
    graph.subgraphs.push(IrSubgraph {
        id: IrSubgraphId(1),
        key: "beta".to_string(),
        ..IrSubgraph::default()
    });
    graph.subgraphs.push(IrSubgraph {
        id: IrSubgraphId(2),
        key: "alpha".to_string(),
        ..IrSubgraph::default()
    });

    let alpha = graph.subgraphs_by_key("alpha");
    assert_eq!(alpha.len(), 2);
    assert_eq!(
        graph.first_subgraph_by_key("beta").unwrap().id,
        IrSubgraphId(1)
    );
    assert!(graph.first_subgraph_by_key("missing").is_none());
}

#[test]
fn graph_ir_node_clusters_and_subgraphs() {
    let mut graph = MermaidGraphIr::default();
    graph.nodes.push(IrGraphNode {
        node_id: IrNodeId(0),
        kind: IrNodeKind::Generic,
        clusters: vec![IrClusterId(0)],
        subgraphs: vec![IrSubgraphId(0)],
    });
    graph.clusters.push(IrGraphCluster {
        cluster_id: IrClusterId(0),
        title: None,
        members: vec![IrNodeId(0)],
        subgraph: Some(IrSubgraphId(0)),
        grid_span: 0,
        span: Span::default(),
    });
    graph.subgraphs.push(IrSubgraph {
        id: IrSubgraphId(0),
        key: "sub1".to_string(),
        members: vec![IrNodeId(0)],
        cluster: Some(IrClusterId(0)),
        ..IrSubgraph::default()
    });

    let node_clusters = graph.node_clusters(IrNodeId(0));
    assert_eq!(node_clusters.len(), 1);
    let node_subgraphs = graph.node_subgraphs(IrNodeId(0));
    assert_eq!(node_subgraphs.len(), 1);
    assert_eq!(node_subgraphs[0].key, "sub1");
}

#[test]
fn ir_edge_kinds_are_distinct() {
    let kinds = [
        IrEdgeKind::Generic,
        IrEdgeKind::Relationship,
        IrEdgeKind::Message,
        IrEdgeKind::Timeline,
        IrEdgeKind::Dependency,
        IrEdgeKind::Commit,
    ];
    for (i, a) in kinds.iter().enumerate() {
        for (j, b) in kinds.iter().enumerate() {
            if i == j {
                assert_eq!(a, b);
            } else {
                assert_ne!(a, b);
            }
        }
    }
}

#[test]
fn ir_node_kinds_are_distinct() {
    let kinds = [
        IrNodeKind::Generic,
        IrNodeKind::Entity,
        IrNodeKind::Participant,
        IrNodeKind::State,
        IrNodeKind::Task,
        IrNodeKind::Event,
        IrNodeKind::Commit,
        IrNodeKind::Requirement,
        IrNodeKind::Slice,
        IrNodeKind::Point,
    ];
    for (i, a) in kinds.iter().enumerate() {
        for (j, b) in kinds.iter().enumerate() {
            if i == j {
                assert_eq!(a, b);
            } else {
                assert_ne!(a, b);
            }
        }
    }
}
