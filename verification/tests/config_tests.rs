use fm_verified::config::{parse_mermaid_js_config_value, ConfigKind, ConfigValue};
use fm_verified::diagnostics::MermaidError;
use fm_verified::model::to_init_parse;
use fm_verified::taxonomy::{DiagramPalettePreset, GraphDirection, MermaidSanitizeMode, MermaidWarningCode};

fn text(s: &str) -> ConfigValue {
    ConfigValue { kind: ConfigKind::Text(s.to_string()), json: format!("\"{s}\"") }
}

fn number(s: &str) -> ConfigValue {
    ConfigValue { kind: ConfigKind::Number(s.to_string()), json: s.to_string() }
}

fn null() -> ConfigValue {
    ConfigValue { kind: ConfigKind::Null, json: "null".to_string() }
}

fn boolean(b: bool) -> ConfigValue {
    ConfigValue { kind: ConfigKind::Bool(b), json: b.to_string() }
}

/// An object with its members in key order, as a JSON map iterates them.
fn object(members: Vec<(&str, ConfigValue)>) -> ConfigValue {
    let mut members: Vec<(String, ConfigValue)> = members.into_iter().map(|(k, v)| (k.to_string(), v)).collect();
    members.sort_by(|a, b| a.0.cmp(&b.0));
    let json = format!(
        "{{{}}}",
        members.iter().map(|(k, v)| format!("\"{k}\":{}", v.json)).collect::<Vec<_>>().join(",")
    );
    ConfigValue { kind: ConfigKind::Object(members), json }
}

#[test]
fn mermaid_js_config_adapter_maps_common_fields() {
    let parsed = parse_mermaid_js_config_value(&object(vec![
        ("theme", text("dark")),
        ("themeVariables", object(vec![("primaryColor", text("#ffffff")), ("lineColor", number("12"))])),
        ("flowchart", object(vec![("direction", text("RL")), ("curve", text("basis"))])),
        ("sequence", object(vec![("mirrorActors", boolean(true)), ("showSequenceNumbers", boolean(true))])),
        ("securityLevel", text("loose")),
    ]));

    assert!(parsed.errors.is_empty(), "unexpected errors: {:?}", parsed.errors);
    assert_eq!(parsed.config.theme.as_deref(), Some("dark"));
    assert_eq!(parsed.config.theme_variables.get("primaryColor").map(String::as_str), Some("#ffffff"));
    assert_eq!(parsed.config.theme_variables.get("lineColor").map(String::as_str), Some("12"));
    assert_eq!(parsed.config.flowchart_direction, Some(GraphDirection::RL));
    assert_eq!(parsed.config.flowchart_curve.as_deref(), Some("basis"));
    assert_eq!(parsed.config.sequence_mirror_actors, Some(true));
    assert_eq!(parsed.config.sequence_show_sequence_numbers, Some(true));
    assert_eq!(parsed.config.sanitize_mode, MermaidSanitizeMode::Lenient);
}

#[test]
fn mermaid_js_config_adapter_reports_unknown_and_type_issues() {
    let parsed = parse_mermaid_js_config_value(&object(vec![
        ("theme", number("42")),
        ("flowchart", text("not-an-object")),
        ("sequence", object(vec![("mirrorActors", text("yes")), ("showSequenceNumbers", text("yes"))])),
        ("unknownKey", boolean(true)),
    ]));

    assert!(!parsed.errors.is_empty());
    assert!(parsed.errors.iter().any(|e| e.field == "theme"));
    assert!(parsed.errors.iter().any(|e| e.field == "flowchart"));
    assert!(parsed.errors.iter().any(|e| e.field == "sequence.mirrorActors"));
    assert!(parsed.errors.iter().any(|e| e.field == "sequence.showSequenceNumbers"));
    assert!(parsed.warnings.iter().any(|w| w.message.contains("unknownKey")));
}

#[test]
fn mermaid_js_config_can_be_projected_to_init_parse() {
    let parsed = parse_mermaid_js_config_value(&object(vec![
        ("theme", text("corporate")),
        ("themeVariables", object(vec![("primaryColor", text("#0ff"))])),
        ("flowchart", object(vec![("rankDir", text("LR")), ("curve", text("linear"))])),
        ("sequence", object(vec![("mirrorActors", boolean(false)), ("showSequenceNumbers", boolean(true))])),
    ]));
    let init_parse = to_init_parse(parsed);

    assert!(init_parse.errors.is_empty());
    assert_eq!(init_parse.config.theme.as_deref(), Some("corporate"));
    assert_eq!(init_parse.config.theme_variables.get("primaryColor").map(String::as_str), Some("#0ff"));
    assert_eq!(init_parse.config.flowchart_direction, Some(GraphDirection::LR));
    assert_eq!(init_parse.config.flowchart_curve.as_deref(), Some("linear"));
    assert_eq!(init_parse.config.sequence_mirror_actors, Some(false));
    assert_eq!(init_parse.config.sequence_show_sequence_numbers, Some(true));
}

#[test]
fn parse_mermaid_js_config_requires_object_root() {
    let parsed = parse_mermaid_js_config_value(&text("not-an-object"));
    assert_eq!(parsed.errors.len(), 1);
    assert_eq!(parsed.errors[0].field, "$");
    assert!(parsed.errors[0].message.contains("JSON object"));
}

#[test]
fn parse_mermaid_js_config_accepts_case_insensitive_direction() {
    let parsed = parse_mermaid_js_config_value(&object(vec![("flowchart", object(vec![("direction", text("lr"))]))]));
    assert!(parsed.errors.is_empty());
    assert_eq!(parsed.config.flowchart_direction, Some(GraphDirection::LR));
}

#[test]
fn parse_mermaid_js_config_emits_warning_for_start_on_load() {
    let parsed = parse_mermaid_js_config_value(&object(vec![("startOnLoad", boolean(true))]));
    assert!(parsed.errors.is_empty());
    assert!(parsed.warnings.iter().any(|warning| warning.message.contains("startOnLoad")));
}

#[test]
fn parse_mermaid_js_config_maps_high_contrast_theme_to_palette() {
    let parsed = parse_mermaid_js_config_value(&object(vec![("theme", text("high-contrast"))]));
    assert!(parsed.errors.is_empty());
    assert_eq!(parsed.config.palette, DiagramPalettePreset::HighContrast);
}

#[test]
fn to_init_parse_converts_config_errors_to_parse_errors() {
    let parsed = parse_mermaid_js_config_value(&object(vec![("theme", number("123"))]));
    let init_parse = to_init_parse(parsed);

    assert_eq!(init_parse.errors.len(), 1);
    match &init_parse.errors[0] {
        MermaidError::Parse { message, expected, .. } => {
            assert!(message.contains("theme"));
            assert_eq!(expected, &vec!["a valid Mermaid config value".to_string()]);
        }
        other => panic!("expected parse error, got {other:?}"),
    }
}

#[test]
fn config_messages_and_fields_are_exact() {
    let parsed = parse_mermaid_js_config_value(&object(vec![
        ("flowchart", object(vec![("direction", text("diagonal")), ("curve", number("3")), ("rankDir", boolean(false)), ("x", null())])),
        ("securityLevel", text("Sandbox")),
        ("themeVariables", object(vec![("bad", ConfigValue { kind: ConfigKind::Array, json: "[1]".to_string() })])),
        ("zzz", text("v")),
    ]));
    let messages: Vec<&str> = parsed.warnings.iter().map(|w| w.message.as_str()).collect();
    assert_eq!(
        messages,
        vec![
            "Unsupported flowchart direction 'diagonal' ignored",
            "Unsupported flowchart config key 'x' ignored",
            "Unsupported securityLevel 'Sandbox' ignored",
            "Unsupported Mermaid config key 'zzz' ignored",
        ]
    );
    assert!(parsed.warnings.iter().all(|w| w.code == MermaidWarningCode::UnsupportedFeature));
    let errors: Vec<(&str, &str, &str)> =
        parsed.errors.iter().map(|e| (e.field.as_str(), e.value.as_str(), e.message.as_str())).collect();
    assert_eq!(
        errors,
        vec![
            ("flowchart.curve", "3", "must be a string"),
            ("flowchart.rankDir", "false", "must be a direction string (LR, RL, TB, TD, BT)"),
            ("themeVariables.bad", "[1]", "must be a string, number, or boolean"),
        ]
    );
    assert_eq!(parsed.config.flowchart_direction, None);
    assert_eq!(parsed.config.sanitize_mode, MermaidSanitizeMode::Strict);
    assert!(parsed.config.theme_variables.is_empty());
}

#[test]
fn security_level_and_palette_names_ignore_case() {
    let parsed = parse_mermaid_js_config_value(&object(vec![
        ("securityLevel", text("AntiScript")),
        ("theme", text("  Neon ")),
    ]));
    assert!(parsed.warnings.is_empty() && parsed.errors.is_empty());
    assert_eq!(parsed.config.sanitize_mode, MermaidSanitizeMode::Strict);
    assert_eq!(parsed.config.palette, DiagramPalettePreset::Neon);
    assert_eq!(parsed.config.theme.as_deref(), Some("  Neon "));
}


#[test]
fn theme_variables_keep_scalars_as_text_and_later_members_win() {
    let value = object(vec![
        ("themeVariables", object(vec![("primaryColor", text("#111")), ("fontSize", number("12"))])),
        ("themeVariables", object(vec![
            ("primaryColor", text("#222")),
            ("dark", ConfigValue { kind: ConfigKind::Bool(true), json: "true".to_string() }),
            ("bad", ConfigValue { kind: ConfigKind::Array, json: "[]".to_string() }),
        ])),
        ("themeVariables", text("ignored")),
    ]);
    let parsed = parse_mermaid_js_config_value(&value);
    let vars = &parsed.config.theme_variables;
    assert_eq!(vars.len(), 3);
    assert_eq!(vars.get("primaryColor").unwrap(), "#222");
    assert_eq!(vars.get("fontSize").unwrap(), "12");
    assert_eq!(vars.get("dark").unwrap(), "true");
    assert_eq!(parsed.errors.len(), 2);
}
