//! Reading a Mermaid configuration object (as Mermaid's JavaScript API takes it) into the
//! renderer's configuration, with a warning for each ignored member and an error for each
//! member of the wrong type.
use vstd::prelude::*;
use vstd::string::StringExecFns;
use crate::diagnostics::{MermaidWarning, Span, ascii_lower, ascii_lower_char};
use crate::model::{MermaidConfig, MermaidConfigError, MermaidConfigParse};
use crate::style::{insert_text_entry, lower_text, text_keys_distinct, text_view};
use crate::taxonomy::{DiagramPalettePreset, GraphDirection, MermaidSanitizeMode, MermaidWarningCode};
use crate::text::{chars_of, string_from_chars, text_eq, trim, trim_range};

verus! {

/// A configuration value as read from JSON, with the compact JSON text it was written as.
#[derive(Debug, PartialEq, Eq)]
pub struct ConfigValue {
    pub kind: ConfigKind,
    /// The value written as compact JSON.
    pub json: String,
}

/// What a configuration value is.
#[derive(Debug, PartialEq, Eq)]
pub enum ConfigKind {
    Null,
    Bool(bool),
    /// A number, as written.
    Number(String),
    Text(String),
    Array,
    /// An object's members in order.
    Object(Vec<(String, ConfigValue)>),
}

/// What reading a configuration decides: theme, palette, sanitize mode, flowchart
/// direction and curve, the two sequence flags, the warning messages and the errors
/// (field, value, message).
pub type ConfigState = (
    Option<Seq<char>>,
    DiagramPalettePreset,
    MermaidSanitizeMode,
    Option<GraphDirection>,
    Option<Seq<char>>,
    Option<bool>,
    Option<bool>,
    Seq<Seq<char>>,
    Seq<(Seq<char>, Seq<char>, Seq<char>)>,
);

pub open spec fn opt_text(o: Option<String>) -> Option<Seq<char>> {
    match o {
        Some(s) => Some(s@),
        None => None,
    }
}

/// The state a parse result holds.
pub open spec fn state_of(p: MermaidConfigParse) -> ConfigState {
    (
        opt_text(p.config.theme),
        p.config.palette,
        p.config.sanitize_mode,
        p.config.flowchart_direction,
        opt_text(p.config.flowchart_curve),
        p.config.sequence_mirror_actors,
        p.config.sequence_show_sequence_numbers,
        p.warnings@.map_values(|w: MermaidWarning| w.message@),
        p.errors@.map_values(|e: MermaidConfigError| (e.field@, e.value@, e.message@)),
    )
}

/// Every warning is an unsupported-feature warning without a location.
pub open spec fn plain_warnings(p: MermaidConfigParse) -> bool {
    forall|i: int| 0 <= i < p.warnings@.len() ==> (#[trigger] p.warnings@[i]).code == MermaidWarningCode::UnsupportedFeature
        && p.warnings@[i].span == Span::default_spec()
}

/// The fields that reading a configuration object does not set are those of `b`.
pub open spec fn same_base(a: MermaidConfig, b: MermaidConfig) -> bool {
    &&& a.enabled == b.enabled
    &&& a.glyph_mode == b.glyph_mode
    &&& a.render_mode == b.render_mode
    &&& a.tier_override == b.tier_override
    &&& a.max_nodes == b.max_nodes
    &&& a.max_edges == b.max_edges
    &&& a.route_budget == b.route_budget
    &&& a.layout_iteration_budget == b.layout_iteration_budget
    &&& a.edge_bundling == b.edge_bundling
    &&& a.edge_bundle_min_count == b.edge_bundle_min_count
    &&& a.max_label_chars == b.max_label_chars
    &&& a.max_label_lines == b.max_label_lines
    &&& a.wrap_mode == b.wrap_mode
    &&& a.enable_styles == b.enable_styles
    &&& a.enable_init_directives == b.enable_init_directives
    &&& a.enable_links == b.enable_links
    &&& a.link_mode == b.link_mode
    &&& a.error_mode == b.error_mode
    &&& a.log_path == b.log_path
    &&& a.cache_enabled == b.cache_enabled
    &&& a.capability_profile == b.capability_profile
    &&& a.debug_overlay == b.debug_overlay
}

pub open spec fn with_error(st: ConfigState, field: Seq<char>, value: Seq<char>, message: Seq<char>) -> ConfigState {
    (st.0, st.1, st.2, st.3, st.4, st.5, st.6, st.7, st.8.push((field, value, message)))
}

pub open spec fn with_warning(st: ConfigState, message: Seq<char>) -> ConfigState {
    (st.0, st.1, st.2, st.3, st.4, st.5, st.6, st.7.push(message), st.8)
}

/// `s` with ASCII small letters turned into capitals.
pub open spec fn upper_text(s: Seq<char>) -> Seq<char> {
    s.map_values(|c: char| ascii_upper(c))
}

pub open spec fn ascii_upper(c: char) -> char {
    if 'a' <= c && c <= 'z' { ((c as u32) - 32) as char } else { c }
}

/// The flowchart direction a token names, case and surrounding space ignored.
pub open spec fn direction_token(t: Seq<char>) -> Option<GraphDirection> {
    let u = upper_text(trim(t));
    if u == "LR"@ {
        Some(GraphDirection::LR)
    } else if u == "RL"@ {
        Some(GraphDirection::RL)
    } else if u == "TB"@ {
        Some(GraphDirection::TB)
    } else if u == "TD"@ {
        Some(GraphDirection::TD)
    } else if u == "BT"@ {
        Some(GraphDirection::BT)
    } else {
        None
    }
}

/// The palette a theme name selects, case and surrounding space ignored.
pub open spec fn palette_for_theme(t: Seq<char>) -> DiagramPalettePreset {
    let l = lower_text(trim(t));
    if l == "corporate"@ {
        DiagramPalettePreset::Corporate
    } else if l == "neon"@ {
        DiagramPalettePreset::Neon
    } else if l == "monochrome"@ {
        DiagramPalettePreset::Monochrome
    } else if l == "pastel"@ {
        DiagramPalettePreset::Pastel
    } else if l == "highcontrast"@ || l == "high-contrast"@ {
        DiagramPalettePreset::HighContrast
    } else {
        DiagramPalettePreset::Default
    }
}

/// A string, number or boolean as text.
pub open spec fn scalar_text(v: ConfigValue) -> Option<Seq<char>> {
    match v.kind {
        ConfigKind::Text(t) => Some(t@),
        ConfigKind::Bool(b) => Some(if b { "true"@ } else { "false"@ }),
        ConfigKind::Number(s) => Some(s@),
        _ => None,
    }
}

/// One member of `themeVariables`.
pub open spec fn theme_variable_step(st: ConfigState, key: Seq<char>, v: ConfigValue) -> ConfigState {
    match scalar_text(v) {
        Some(_) => st,
        None => with_error(st, "themeVariables."@ + key, v.json@, "must be a string, number, or boolean"@),
    }
}

pub open spec fn theme_variables_fold(st: ConfigState, es: Seq<(String, ConfigValue)>) -> ConfigState
    decreases es.len(),
{
    if es.len() == 0 {
        st
    } else {
        theme_variable_step(theme_variables_fold(st, es.drop_last()), es.last().0@, es.last().1)
    }
}

/// One member of the `flowchart` object.
pub open spec fn flowchart_step(st: ConfigState, key: Seq<char>, v: ConfigValue) -> ConfigState {
    if key == "direction"@ || key == "rankDir"@ {
        match v.kind {
            ConfigKind::Text(t) => match direction_token(t@) {
                Some(d) => (st.0, st.1, st.2, Some(d), st.4, st.5, st.6, st.7, st.8),
                None => with_warning(st, "Unsupported flowchart direction '"@ + t@ + "' ignored"@),
            },
            _ => with_error(st, "flowchart."@ + key, v.json@, "must be a direction string (LR, RL, TB, TD, BT)"@),
        }
    } else if key == "curve"@ {
        match v.kind {
            ConfigKind::Text(t) => (st.0, st.1, st.2, st.3, Some(t@), st.5, st.6, st.7, st.8),
            _ => with_error(st, "flowchart.curve"@, v.json@, "must be a string"@),
        }
    } else {
        with_warning(st, "Unsupported flowchart config key '"@ + key + "' ignored"@)
    }
}

pub open spec fn flowchart_fold(st: ConfigState, es: Seq<(String, ConfigValue)>) -> ConfigState
    decreases es.len(),
{
    if es.len() == 0 {
        st
    } else {
        flowchart_step(flowchart_fold(st, es.drop_last()), es.last().0@, es.last().1)
    }
}

/// One member of the `sequence` object.
pub open spec fn sequence_step(st: ConfigState, key: Seq<char>, v: ConfigValue) -> ConfigState {
    if key == "mirrorActors"@ {
        match v.kind {
            ConfigKind::Bool(b) => (st.0, st.1, st.2, st.3, st.4, Some(b), st.6, st.7, st.8),
            _ => with_error(st, "sequence.mirrorActors"@, v.json@, "must be a boolean"@),
        }
    } else if key == "showSequenceNumbers"@ {
        match v.kind {
            ConfigKind::Bool(b) => (st.0, st.1, st.2, st.3, st.4, st.5, Some(b), st.7, st.8),
            _ => with_error(st, "sequence.showSequenceNumbers"@, v.json@, "must be a boolean"@),
        }
    } else {
        with_warning(st, "Unsupported sequence config key '"@ + key + "' ignored"@)
    }
}

pub open spec fn sequence_fold(st: ConfigState, es: Seq<(String, ConfigValue)>) -> ConfigState
    decreases es.len(),
{
    if es.len() == 0 {
        st
    } else {
        sequence_step(sequence_fold(st, es.drop_last()), es.last().0@, es.last().1)
    }
}

/// One member of the configuration object.
pub open spec fn member_step(st: ConfigState, key: Seq<char>, v: ConfigValue) -> ConfigState {
    if key == "theme"@ {
        match v.kind {
            ConfigKind::Text(t) => (Some(t@), palette_for_theme(t@), st.2, st.3, st.4, st.5, st.6, st.7, st.8),
            _ => with_error(st, "theme"@, v.json@, "must be a string (for example, \"default\" or \"dark\")"@),
        }
    } else if key == "themeVariables"@ {
        match v.kind {
            ConfigKind::Object(es) => theme_variables_fold(st, es@),
            _ => with_error(st, "themeVariables"@, v.json@, "must be an object"@),
        }
    } else if key == "flowchart"@ {
        match v.kind {
            ConfigKind::Object(es) => flowchart_fold(st, es@),
            _ => with_error(st, "flowchart"@, v.json@, "must be an object"@),
        }
    } else if key == "sequence"@ {
        match v.kind {
            ConfigKind::Object(es) => sequence_fold(st, es@),
            _ => with_error(st, "sequence"@, v.json@, "must be an object"@),
        }
    } else if key == "securityLevel"@ {
        match v.kind {
            ConfigKind::Text(l) => {
                let lower = lower_text(l@);
                if lower == "strict"@ || lower == "antiscript"@ {
                    (st.0, st.1, MermaidSanitizeMode::Strict, st.3, st.4, st.5, st.6, st.7, st.8)
                } else if lower == "loose"@ {
                    (st.0, st.1, MermaidSanitizeMode::Lenient, st.3, st.4, st.5, st.6, st.7, st.8)
                } else {
                    with_warning(st, "Unsupported securityLevel '"@ + l@ + "' ignored"@)
                }
            },
            _ => with_error(st, "securityLevel"@, v.json@, "must be a string"@),
        }
    } else if key == "startOnLoad"@ {
        match v.kind {
            ConfigKind::Bool(_) => with_warning(st, "Config key 'startOnLoad' is accepted but currently ignored"@),
            _ => with_error(st, "startOnLoad"@, v.json@, "must be a boolean"@),
        }
    } else {
        with_warning(st, "Unsupported Mermaid config key '"@ + key + "' ignored"@)
    }
}

pub open spec fn members_fold(st: ConfigState, es: Seq<(String, ConfigValue)>) -> ConfigState
    decreases es.len(),
{
    if es.len() == 0 {
        st
    } else {
        member_step(members_fold(st, es.drop_last()), es.last().0@, es.last().1)
    }
}

/// The state of a configuration that sets nothing.
pub open spec fn initial_state() -> ConfigState {
    (None, DiagramPalettePreset::Default, MermaidSanitizeMode::Strict, None, None, None, None, Seq::empty(), Seq::empty())
}

/// The theme variables that the members of a `themeVariables` object set on top of
/// `m`: each string, number or boolean as text, a later member for a name replacing an
/// earlier one.
pub open spec fn theme_variables_set(m: Map<Seq<char>, Seq<char>>, es: Seq<(String, ConfigValue)>) -> Map<Seq<char>, Seq<char>>
    decreases es.len(),
{
    if es.len() == 0 {
        m
    } else {
        let before = theme_variables_set(m, es.drop_last());
        match scalar_text(es.last().1) {
            Some(t) => before.insert(es.last().0@, t),
            None => before,
        }
    }
}

/// The theme variables that the members of a configuration object set, in order, on
/// top of `m`: those of each `themeVariables` member that is an object.
pub open spec fn theme_variables_of_members(m: Map<Seq<char>, Seq<char>>, es: Seq<(String, ConfigValue)>) -> Map<Seq<char>, Seq<char>>
    decreases es.len(),
{
    if es.len() == 0 {
        m
    } else {
        let before = theme_variables_of_members(m, es.drop_last());
        if es.last().0@ == "themeVariables"@ {
            match es.last().1.kind {
                ConfigKind::Object(vs) => theme_variables_set(before, vs@),
                _ => before,
            }
        } else {
            before
        }
    }
}

/// The theme variables that reading `value` sets.
pub open spec fn theme_variables_reading(value: ConfigValue) -> Map<Seq<char>, Seq<char>> {
    match value.kind {
        ConfigKind::Object(es) => theme_variables_of_members(Map::empty(), es@),
        _ => Map::empty(),
    }
}

/// What reading `value` decides.
pub open spec fn config_reading(value: ConfigValue) -> ConfigState {
    match value.kind {
        ConfigKind::Object(es) => members_fold(initial_state(), es@),
        _ => with_error(initial_state(), "$"@, value.json@, "Mermaid config root must be a JSON object"@),
    }
}

} // verus!

verus! {

pub fn ascii_upper_char(c: char) -> (r: char)
    ensures
        r == ascii_upper(c),
{
    if 'a' <= c && c <= 'z' {
        let b: u8 = c as u8;
        proof {
            assert(b as u32 == c as u32);
        }
        (b - 32u8) as char
    } else {
        c
    }
}

fn upper_chars(v: &Vec<char>) -> (r: Vec<char>)
    ensures
        r@ == upper_text(v@),
{
    let mut out: Vec<char> = Vec::new();
    let mut i: usize = 0;
    while i < v.len()
        invariant
            i <= v.len(),
            out@ == upper_text(v@.take(i as int)),
        decreases v.len() - i,
    {
        out.push(ascii_upper_char(v[i]));
        proof {
            assert(upper_text(v@.take(i + 1)) =~= upper_text(v@.take(i as int)).push(ascii_upper(v@[i as int])));
        }
        i = i + 1;
    }
    proof {
        assert(v@.take(i as int) =~= v@);
    }
    out
}

/// The characters of `s` without surrounding white space.
fn trimmed_chars(s: &str) -> (r: Vec<char>)
    ensures
        r@ == trim(s@),
{
    let v = chars_of(s);
    proof {
        assert(v@.subrange(0, v@.len() as int) =~= v@);
    }
    trim_range(&v, 0, v.len())
}

fn chars_are(v: &Vec<char>, lit: &str) -> (b: bool)
    ensures
        b == (v@ == lit@),
{
    let w = chars_of(lit);
    crate::text::chars_eq(v, &w)
}

/// The flowchart direction a token names.
pub fn parse_graph_direction_token(token: &str) -> (r: Option<GraphDirection>)
    ensures
        r == direction_token(token@),
{
    let t = trimmed_chars(token);
    let u = upper_chars(&t);
    if chars_are(&u, "LR") {
        Some(GraphDirection::LR)
    } else if chars_are(&u, "RL") {
        Some(GraphDirection::RL)
    } else if chars_are(&u, "TB") {
        Some(GraphDirection::TB)
    } else if chars_are(&u, "TD") {
        Some(GraphDirection::TD)
    } else if chars_are(&u, "BT") {
        Some(GraphDirection::BT)
    } else {
        None
    }
}

/// The palette a theme name selects.
pub fn palette_from_theme_name(theme: &str) -> (r: DiagramPalettePreset)
    ensures
        r == palette_for_theme(theme@),
{
    let t = trimmed_chars(theme);
    let l = crate::style::lower_chars(&t);
    if chars_are(&l, "corporate") {
        DiagramPalettePreset::Corporate
    } else if chars_are(&l, "neon") {
        DiagramPalettePreset::Neon
    } else if chars_are(&l, "monochrome") {
        DiagramPalettePreset::Monochrome
    } else if chars_are(&l, "pastel") {
        DiagramPalettePreset::Pastel
    } else if chars_are(&l, "highcontrast") || chars_are(&l, "high-contrast") {
        DiagramPalettePreset::HighContrast
    } else {
        DiagramPalettePreset::Default
    }
}

/// A string, number or boolean as text.
fn json_scalar_to_string(value: &ConfigValue) -> (r: Option<String>)
    ensures
        opt_text(r) == scalar_text(*value),
{
    match &value.kind {
        ConfigKind::Text(text) => Some(text.clone()),
        ConfigKind::Bool(flag) => {
            if *flag {
                Some(String::from_str("true"))
            } else {
                Some(String::from_str("false"))
            }
        },
        ConfigKind::Number(number) => Some(number.clone()),
        _ => None,
    }
}

fn push_type_error(parsed: &mut MermaidConfigParse, field: String, value: &ConfigValue, message: &str)
    ensures
        state_of(*final(parsed)) == with_error(state_of(*old(parsed)), field@, value.json@, message@),
        final(parsed).config == old(parsed).config,
        final(parsed).warnings == old(parsed).warnings,
{
    let ghost before = parsed.errors@;
    parsed.errors.push(MermaidConfigError { field, value: value.json.clone(), message: String::from_str(message) });
    proof {
        assert(parsed.errors@.map_values(|e: MermaidConfigError| (e.field@, e.value@, e.message@))
            =~= before.map_values(|e: MermaidConfigError| (e.field@, e.value@, e.message@)).push((field@, value.json@, message@)));
    }
}

fn push_warning(parsed: &mut MermaidConfigParse, message: String)
    requires
        plain_warnings(*old(parsed)),
    ensures
        state_of(*final(parsed)) == with_warning(state_of(*old(parsed)), message@),
        plain_warnings(*final(parsed)),
        final(parsed).config == old(parsed).config,
        final(parsed).errors == old(parsed).errors,
{
    let ghost before = parsed.warnings@;
    parsed.warnings.push(MermaidWarning { code: MermaidWarningCode::UnsupportedFeature, message, span: Span::zero() });
    proof {
        assert(parsed.warnings@.map_values(|w: MermaidWarning| w.message@)
            =~= before.map_values(|w: MermaidWarning| w.message@).push(message@));
        assert forall|i: int| 0 <= i < parsed.warnings@.len() implies (#[trigger] parsed.warnings@[i]).code == MermaidWarningCode::UnsupportedFeature
            && parsed.warnings@[i].span == Span::default_spec() by {
            if i < before.len() {
                assert(parsed.warnings@[i] == before[i]);
            }
        }
    }
}

/// `a`, then `b`, then `c`.
fn joined(a: &str, b: &str, c: &str) -> (r: String)
    ensures
        r@ == a@ + b@ + c@,
{
    let mut s = String::from_str(a);
    s.append(b);
    s.append(c);
    s
}

} // verus!

verus! {

/// Read the members of `themeVariables`.
fn parse_theme_variables(es: &Vec<(String, ConfigValue)>, parsed: &mut MermaidConfigParse)
    requires
        plain_warnings(*old(parsed)),
        text_keys_distinct(old(parsed).config.theme_variables@),
    ensures
        state_of(*final(parsed)) == theme_variables_fold(state_of(*old(parsed)), es@),
        plain_warnings(*final(parsed)),
        same_base(final(parsed).config, old(parsed).config),
        text_keys_distinct(final(parsed).config.theme_variables@),
        text_view(final(parsed).config.theme_variables@) == theme_variables_set(text_view(old(parsed).config.theme_variables@), es@),
{
    let ghost start = *parsed;
    let mut i: usize = 0;
    while i < es.len()
        invariant
            i <= es@.len(),
            state_of(*parsed) == theme_variables_fold(state_of(start), es@.take(i as int)),
            plain_warnings(*parsed),
            same_base(parsed.config, start.config),
            text_keys_distinct(parsed.config.theme_variables@),
            text_view(parsed.config.theme_variables@) == theme_variables_set(text_view(start.config.theme_variables@), es@.take(i as int)),
        decreases es@.len() - i,
    {
        let var_key = &es[i].0;
        let var_value = &es[i].1;
        let ghost before = state_of(*parsed);
        match json_scalar_to_string(var_value) {
            Some(value_text) => {
                insert_text_entry(&mut parsed.config.theme_variables, var_key.clone(), value_text);
            },
            None => {
                let mut field = String::from_str("themeVariables.");
                field.append(var_key.as_str());
                push_type_error(parsed, field, var_value, "must be a string, number, or boolean");
            },
        }
        proof {
            assert(es@.take(i + 1).drop_last() =~= es@.take(i as int));
            assert(es@.take(i + 1).last() == es@[i as int]);
        }
        i = i + 1;
    }
    proof {
        assert(es@.take(es@.len() as int) =~= es@);
    }
}

/// Read the `flowchart` member.
fn parse_flowchart_config(value: &ConfigValue, parsed: &mut MermaidConfigParse)
    requires
        plain_warnings(*old(parsed)),
    ensures
        state_of(*final(parsed)) == (match value.kind {
            ConfigKind::Object(es) => flowchart_fold(state_of(*old(parsed)), es@),
            _ => with_error(state_of(*old(parsed)), "flowchart"@, value.json@, "must be an object"@),
        }),
        plain_warnings(*final(parsed)),
        same_base(final(parsed).config, old(parsed).config),
        final(parsed).config.theme_variables == old(parsed).config.theme_variables,
{
    let es = match &value.kind {
        ConfigKind::Object(es) => es,
        _ => {
            push_type_error(parsed, String::from_str("flowchart"), value, "must be an object");
            return;
        },
    };
    let ghost start = *parsed;
    let mut i: usize = 0;
    while i < es.len()
        invariant
            i <= es@.len(),
            state_of(*parsed) == flowchart_fold(state_of(start), es@.take(i as int)),
            plain_warnings(*parsed),
            same_base(parsed.config, start.config),
            parsed.config.theme_variables == start.config.theme_variables,
        decreases es@.len() - i,
    {
        let key = &es[i].0;
        let raw_value = &es[i].1;
        if text_eq(key.as_str(), "direction") || text_eq(key.as_str(), "rankDir") {
            match &raw_value.kind {
                ConfigKind::Text(direction_text) => {
                    match parse_graph_direction_token(direction_text.as_str()) {
                        Some(direction) => {
                            parsed.config.flowchart_direction = Some(direction);
                        },
                        None => {
                            let message = joined("Unsupported flowchart direction '", direction_text.as_str(), "' ignored");
                            push_warning(parsed, message);
                        },
                    }
                },
                _ => {
                    let mut field = String::from_str("flowchart.");
                    field.append(key.as_str());
                    push_type_error(parsed, field, raw_value, "must be a direction string (LR, RL, TB, TD, BT)");
                },
            }
        } else if text_eq(key.as_str(), "curve") {
            match &raw_value.kind {
                ConfigKind::Text(curve) => {
                    parsed.config.flowchart_curve = Some(curve.clone());
                },
                _ => {
                    push_type_error(parsed, String::from_str("flowchart.curve"), raw_value, "must be a string");
                },
            }
        } else {
            let message = joined("Unsupported flowchart config key '", key.as_str(), "' ignored");
            push_warning(parsed, message);
        }
        proof {
            assert(es@.take(i + 1).drop_last() =~= es@.take(i as int));
            assert(es@.take(i + 1).last() == es@[i as int]);
        }
        i = i + 1;
    }
    proof {
        assert(es@.take(es@.len() as int) =~= es@);
    }
}

/// Read the `sequence` member.
fn parse_sequence_config(value: &ConfigValue, parsed: &mut MermaidConfigParse)
    requires
        plain_warnings(*old(parsed)),
    ensures
        state_of(*final(parsed)) == (match value.kind {
            ConfigKind::Object(es) => sequence_fold(state_of(*old(parsed)), es@),
            _ => with_error(state_of(*old(parsed)), "sequence"@, value.json@, "must be an object"@),
        }),
        plain_warnings(*final(parsed)),
        same_base(final(parsed).config, old(parsed).config),
        final(parsed).config.theme_variables == old(parsed).config.theme_variables,
{
    let es = match &value.kind {
        ConfigKind::Object(es) => es,
        _ => {
            push_type_error(parsed, String::from_str("sequence"), value, "must be an object");
            return;
        },
    };
    let ghost start = *parsed;
    let mut i: usize = 0;
    while i < es.len()
        invariant
            i <= es@.len(),
            state_of(*parsed) == sequence_fold(state_of(start), es@.take(i as int)),
            plain_warnings(*parsed),
            same_base(parsed.config, start.config),
            parsed.config.theme_variables == start.config.theme_variables,
        decreases es@.len() - i,
    {
        let key = &es[i].0;
        let raw_value = &es[i].1;
        if text_eq(key.as_str(), "mirrorActors") {
            match &raw_value.kind {
                ConfigKind::Bool(mirror) => {
                    parsed.config.sequence_mirror_actors = Some(*mirror);
                },
                _ => {
                    push_type_error(parsed, String::from_str("sequence.mirrorActors"), raw_value, "must be a boolean");
                },
            }
        } else if text_eq(key.as_str(), "showSequenceNumbers") {
            match &raw_value.kind {
                ConfigKind::Bool(show_numbers) => {
                    parsed.config.sequence_show_sequence_numbers = Some(*show_numbers);
                },
                _ => {
                    push_type_error(parsed, String::from_str("sequence.showSequenceNumbers"), raw_value, "must be a boolean");
                },
            }
        } else {
            let message = joined("Unsupported sequence config key '", key.as_str(), "' ignored");
            push_warning(parsed, message);
        }
        proof {
            assert(es@.take(i + 1).drop_last() =~= es@.take(i as int));
            assert(es@.take(i + 1).last() == es@[i as int]);
        }
        i = i + 1;
    }
    proof {
        assert(es@.take(es@.len() as int) =~= es@);
    }
}

} // verus!

verus! {

/// The fields that reading a configuration object leaves at their defaults.
pub open spec fn has_default_base(c: MermaidConfig) -> bool {
    &&& c.enabled && c.glyph_mode == crate::taxonomy::MermaidGlyphMode::Unicode
    &&& c.render_mode == crate::taxonomy::MermaidRenderMode::Braille
    &&& c.tier_override == crate::taxonomy::MermaidTier::Auto
    &&& c.max_nodes == 200 && c.max_edges == 400 && c.route_budget == 4000 && c.layout_iteration_budget == 200
    &&& !c.edge_bundling && c.edge_bundle_min_count == 3
    &&& c.max_label_chars == 48 && c.max_label_lines == 3
    &&& c.wrap_mode == crate::taxonomy::MermaidWrapMode::WordChar
    &&& c.enable_styles && !c.enable_init_directives && !c.enable_links
    &&& c.link_mode == crate::taxonomy::MermaidLinkMode::Off
    &&& c.error_mode == crate::taxonomy::MermaidErrorMode::Panel
    &&& c.log_path is None
    &&& c.cache_enabled
    &&& c.capability_profile is None
    &&& !c.debug_overlay
}

/// Read a Mermaid configuration object: `theme` (which also picks the palette),
/// `themeVariables` (strings, numbers and booleans), `flowchart` (`direction` or
/// `rankDir`, `curve`), `sequence` (`mirrorActors`, `showSequenceNumbers`) and
/// `securityLevel` set the configuration; `startOnLoad` and unknown members are ignored
/// with a warning; a member of the wrong type is reported as an error, as is a root that
/// is not an object.
pub fn parse_mermaid_js_config_value(value: &ConfigValue) -> (parsed: MermaidConfigParse)
    ensures
        state_of(parsed) == config_reading(*value),
        plain_warnings(parsed),
        has_default_base(parsed.config),
        text_keys_distinct(parsed.config.theme_variables@),
        text_view(parsed.config.theme_variables@) == theme_variables_reading(*value),
{
    let mut parsed = MermaidConfigParse::default();
    let ghost start = parsed;
    proof {
        assert(state_of(parsed) =~= initial_state());
        assert(text_view(parsed.config.theme_variables@) =~= Map::<Seq<char>, Seq<char>>::empty());
    }
    let config_obj = match &value.kind {
        ConfigKind::Object(es) => es,
        _ => {
            push_type_error(&mut parsed, String::from_str("$"), value, "Mermaid config root must be a JSON object");
            return parsed;
        },
    };
    let mut i: usize = 0;
    while i < config_obj.len()
        invariant
            i <= config_obj@.len(),
            state_of(parsed) == members_fold(initial_state(), config_obj@.take(i as int)),
            plain_warnings(parsed),
            same_base(parsed.config, start.config),
            has_default_base(start.config),
            text_keys_distinct(parsed.config.theme_variables@),
            text_view(parsed.config.theme_variables@) == theme_variables_of_members(Map::empty(), config_obj@.take(i as int)),
        decreases config_obj@.len() - i,
    {
        let key = &config_obj[i].0;
        let raw_value = &config_obj[i].1;
        let ghost vars_before = parsed.config.theme_variables@;
        if text_eq(key.as_str(), "theme") {
            match &raw_value.kind {
                ConfigKind::Text(theme) => {
                    parsed.config.theme = Some(theme.clone());
                    parsed.config.palette = palette_from_theme_name(theme.as_str());
                },
                _ => {
                    push_type_error(&mut parsed, String::from_str("theme"), raw_value,
                        "must be a string (for example, \"default\" or \"dark\")");
                },
            }
        } else if text_eq(key.as_str(), "themeVariables") {
            match &raw_value.kind {
                ConfigKind::Object(theme_vars) => {
                    parse_theme_variables(theme_vars, &mut parsed);
                },
                _ => {
                    push_type_error(&mut parsed, String::from_str("themeVariables"), raw_value, "must be an object");
                },
            }
        } else if text_eq(key.as_str(), "flowchart") {
            parse_flowchart_config(raw_value, &mut parsed);
        } else if text_eq(key.as_str(), "sequence") {
            parse_sequence_config(raw_value, &mut parsed);
        } else if text_eq(key.as_str(), "securityLevel") {
            match &raw_value.kind {
                ConfigKind::Text(level) => {
                    let l = crate::style::lower_chars(&chars_of(level.as_str()));
                    if chars_are(&l, "strict") || chars_are(&l, "antiscript") {
                        parsed.config.sanitize_mode = MermaidSanitizeMode::Strict;
                    } else if chars_are(&l, "loose") {
                        parsed.config.sanitize_mode = MermaidSanitizeMode::Lenient;
                    } else {
                        let message = joined("Unsupported securityLevel '", level.as_str(), "' ignored");
                        push_warning(&mut parsed, message);
                    }
                },
                _ => {
                    push_type_error(&mut parsed, String::from_str("securityLevel"), raw_value, "must be a string");
                },
            }
        } else if text_eq(key.as_str(), "startOnLoad") {
            match &raw_value.kind {
                ConfigKind::Bool(_) => {
                    push_warning(&mut parsed, String::from_str("Config key 'startOnLoad' is accepted but currently ignored"));
                },
                _ => {
                    push_type_error(&mut parsed, String::from_str("startOnLoad"), raw_value, "must be a boolean");
                },
            }
        } else {
            let message = joined("Unsupported Mermaid config key '", key.as_str(), "' ignored");
            push_warning(&mut parsed, message);
        }
        proof {
            reveal_strlit("theme");
            reveal_strlit("themeVariables");
            assert(config_obj@.take(i + 1).drop_last() =~= config_obj@.take(i as int));
            assert(config_obj@.take(i + 1).last() == config_obj@[i as int]);
            if key@ == "themeVariables"@ {
                assert("theme"@.len() == 5);
                assert("themeVariables"@.len() == 14);
                assert(key@ != "theme"@);
            } else {
                assert(parsed.config.theme_variables@ == vars_before);
            }
        }
        i = i + 1;
    }
    proof {
        assert(config_obj@.take(config_obj@.len() as int) =~= config_obj@);
    }
    parsed
}

} // verus!

verus! {

/// Each palette is selected by exactly its own theme names (case and surrounding space
/// ignored): `corporate`, `neon`, `monochrome`, `pastel`, and `highcontrast` or
/// `high-contrast`; every other name selects the default palette. So distinct
/// recognized names select distinct palettes.
pub proof fn law_palette_names(t: Seq<char>)
    ensures
        (palette_for_theme(t) == DiagramPalettePreset::Corporate) <==> lower_text(trim(t)) == "corporate"@,
        (palette_for_theme(t) == DiagramPalettePreset::Neon) <==> lower_text(trim(t)) == "neon"@,
        (palette_for_theme(t) == DiagramPalettePreset::Monochrome) <==> lower_text(trim(t)) == "monochrome"@,
        (palette_for_theme(t) == DiagramPalettePreset::Pastel) <==> lower_text(trim(t)) == "pastel"@,
        (palette_for_theme(t) == DiagramPalettePreset::HighContrast) <==> (lower_text(trim(t)) == "highcontrast"@
            || lower_text(trim(t)) == "high-contrast"@),
        (palette_for_theme(t) == DiagramPalettePreset::Default) <==> !(lower_text(trim(t)) == "corporate"@
            || lower_text(trim(t)) == "neon"@ || lower_text(trim(t)) == "monochrome"@ || lower_text(trim(t)) == "pastel"@
            || lower_text(trim(t)) == "highcontrast"@ || lower_text(trim(t)) == "high-contrast"@),
{
    reveal_strlit("corporate");
    reveal_strlit("neon");
    reveal_strlit("monochrome");
    reveal_strlit("pastel");
    reveal_strlit("highcontrast");
    reveal_strlit("high-contrast");
    assert("corporate"@.len() == 9);
    assert("neon"@.len() == 4);
    assert("monochrome"@.len() == 10);
    assert("pastel"@.len() == 6);
    assert("highcontrast"@.len() == 12);
    assert("high-contrast"@.len() == 13);
}

} // verus!
