//! The diagram model's record types: nodes, edges, clusters, styles, configuration,
//! sequence and other diagram metadata, source maps, and capability claims.
use vstd::prelude::*;
use vstd::string::StringExecFns;
use std::collections::BTreeMap;
use crate::diagnostics::{MermaidError, MermaidTextRange, MermaidWarning, Span};
use crate::graph_ir::{IrClusterId, IrLabelId, IrNodeId};
use crate::taxonomy::{
    ArrowType, CapabilityStatus, ClassMemberKind, ClassVisibility, DiagramPalettePreset, FragmentKind,
    GraphDirection, IrAttributeKey, LifecycleEventKind, MermaidErrorMode, MermaidFallbackAction,
    MermaidGlyphMode, MermaidLinkMode, MermaidRenderMode, MermaidSanitizeMode, MermaidSourceMapKind,
    MermaidSupportLevel, MermaidTier, MermaidWrapMode, NodeShape, NotePosition,
};

verus! {

/// A label and where it came from.
#[derive(Debug, Clone, PartialEq, Eq, Default)]
pub struct IrLabel {
    pub text: String,
    pub span: Span,
}

/// A piece of rich label text.
#[derive(Debug, Clone, PartialEq, Eq, Hash, PartialOrd, Ord)]
pub enum IrLabelSegment {
    Text { text: String, bold: bool, italic: bool, code: bool, strike: bool },
    LineBreak,
}

/// An attribute of an ER entity.
#[derive(Debug, Clone, PartialEq, Eq, Default)]
pub struct IrEntityAttribute {
    pub data_type: String,
    pub name: String,
    pub key: IrAttributeKey,
    pub comment: Option<String>,
}

/// A class member (attribute or method).
#[derive(Debug, Clone, PartialEq, Eq, Default)]
pub struct IrClassMember {
    pub visibility: ClassVisibility,
    pub kind: ClassMemberKind,
    pub name: String,
    pub return_type: Option<String>,
    pub is_static: bool,
    pub is_abstract: bool,
}

/// Stereotype annotation of a class.
#[derive(Debug, Clone, PartialEq, Eq, Hash)]
pub enum ClassStereotype {
    Interface,
    Abstract,
    Enum,
    Service,
    Custom(String),
}

/// Class-diagram metadata of a node.
#[derive(Debug, Clone, PartialEq, Eq, Default)]
pub struct IrClassNodeMeta {
    pub attributes: Vec<IrClassMember>,
    pub methods: Vec<IrClassMember>,
    pub stereotype: Option<ClassStereotype>,
    /// Generic type parameters.
    pub generics: Vec<String>,
}

/// C4-diagram metadata of a node.
#[derive(Debug, Clone, PartialEq, Eq, Default)]
pub struct IrC4NodeMeta {
    pub element_type: String,
    pub technology: Option<String>,
    pub description: Option<String>,
}

/// A menu link of a node.
#[derive(Debug, Clone, PartialEq, Eq, Default)]
pub struct IrMenuLink {
    pub label: String,
    pub url: String,
}

/// Requirement-diagram metadata of a node.
#[derive(Debug, Clone, PartialEq, Eq, Default)]
pub struct IrRequirementNodeMeta {
    pub requirement_type: Option<String>,
    pub req_id: Option<String>,
    pub text: Option<String>,
    pub risk: Option<String>,
    pub verify_method: Option<String>,
}

/// Parsed inline style: CSS-like properties by name.
#[derive(Debug, Clone, PartialEq, Eq, Default)]
pub struct IrInlineStyle {
    pub properties: BTreeMap<String, String>,
}

impl IrInlineStyle {
    /// Whether the style has no properties.
    pub fn is_empty(&self) -> (b: bool)
        ensures
            b == self.properties@.is_empty(),
    {
        self.properties.is_empty()
    }
}

/// A node of the diagram.
#[derive(Debug, Clone, PartialEq, Eq, Default)]
pub struct IrNode {
    pub id: String,
    pub label: Option<IrLabelId>,
    pub shape: NodeShape,
    pub icon: Option<String>,
    pub classes: Vec<String>,
    pub href: Option<String>,
    pub callback: Option<String>,
    pub tooltip: Option<String>,
    pub menu_links: Vec<IrMenuLink>,
    pub span_primary: Span,
    pub span_all: Vec<Span>,
    pub implicit: bool,
    pub members: Vec<IrEntityAttribute>,
    pub class_meta: Option<IrClassNodeMeta>,
    pub requirement_meta: Option<IrRequirementNodeMeta>,
    pub c4_meta: Option<IrC4NodeMeta>,
    pub inline_style: Option<IrInlineStyle>,
}

/// An edge of the diagram.
#[derive(Debug, Clone, PartialEq, Eq, Default)]
pub struct IrEdge {
    pub from: crate::graph_ir::IrEndpoint,
    pub to: crate::graph_ir::IrEndpoint,
    pub arrow: ArrowType,
    pub label: Option<IrLabelId>,
    pub span: Span,
    pub er_notation: Option<String>,
    pub source_cardinality: Option<String>,
    pub target_cardinality: Option<String>,
    pub guard: Option<String>,
    pub action: Option<String>,
    pub inline_style: Option<IrInlineStyle>,
}

/// A cluster of nodes.
#[derive(Debug, Clone, PartialEq, Eq, Default)]
pub struct IrCluster {
    pub id: IrClusterId,
    pub title: Option<IrLabelId>,
    pub members: Vec<IrNodeId>,
    pub grid_span: usize,
    pub span: Span,
}

/// What a style directive targets.
#[derive(Debug, Clone, PartialEq, Eq)]
pub enum IrStyleTarget {
    /// A reusable class.
    Class(String),
    /// A node.
    Node(IrNodeId),
    /// An edge by index.
    Link(usize),
    /// The default style of all edges.
    LinkDefault,
}

/// A style directive.
#[derive(Debug, Clone, PartialEq, Eq)]
pub struct IrStyleRef {
    pub target: IrStyleTarget,
    /// Raw CSS property string.
    pub style: String,
    pub span: Span,
}

/// A named, reusable set of style properties.
#[derive(Debug, Clone, PartialEq, Eq, Default)]
pub struct IrStyleDef {
    pub name: String,
    pub properties: BTreeMap<String, String>,
    pub span: Span,
}

/// A note attached to a state.
#[derive(Debug, Clone, PartialEq, Eq, Default)]
pub struct IrStateNote {
    pub target: String,
    pub position: String,
    pub text: String,
    pub span: Span,
}

/// Rendering configuration.
#[derive(Debug, Clone, PartialEq, Eq)]
pub struct MermaidConfig {
    pub enabled: bool,
    pub glyph_mode: MermaidGlyphMode,
    pub render_mode: MermaidRenderMode,
    pub tier_override: MermaidTier,
    pub max_nodes: usize,
    pub max_edges: usize,
    pub route_budget: usize,
    pub layout_iteration_budget: usize,
    pub edge_bundling: bool,
    pub edge_bundle_min_count: usize,
    pub max_label_chars: usize,
    pub max_label_lines: usize,
    pub wrap_mode: MermaidWrapMode,
    pub enable_styles: bool,
    pub enable_init_directives: bool,
    pub enable_links: bool,
    pub link_mode: MermaidLinkMode,
    pub sanitize_mode: MermaidSanitizeMode,
    pub error_mode: MermaidErrorMode,
    pub log_path: Option<String>,
    pub cache_enabled: bool,
    pub capability_profile: Option<String>,
    pub debug_overlay: bool,
    pub palette: DiagramPalettePreset,
    pub theme: Option<String>,
    pub theme_variables: BTreeMap<String, String>,
    pub flowchart_direction: Option<GraphDirection>,
    pub flowchart_curve: Option<String>,
    pub sequence_mirror_actors: Option<bool>,
    pub sequence_show_sequence_numbers: Option<bool>,
}

impl Default for MermaidConfig {
    fn default() -> (c: Self)
        ensures
            c.enabled && c.glyph_mode == MermaidGlyphMode::Unicode && c.render_mode == MermaidRenderMode::Braille,
            c.tier_override == MermaidTier::Auto,
            c.max_nodes == 200 && c.max_edges == 400 && c.route_budget == 4000 && c.layout_iteration_budget == 200,
            !c.edge_bundling && c.edge_bundle_min_count == 3,
            c.max_label_chars == 48 && c.max_label_lines == 3,
            c.wrap_mode == MermaidWrapMode::WordChar,
            c.enable_styles && !c.enable_init_directives && !c.enable_links,
            c.link_mode == MermaidLinkMode::Off,
            c.sanitize_mode == MermaidSanitizeMode::Strict,
            c.error_mode == MermaidErrorMode::Panel,
            c.log_path is None,
            c.cache_enabled,
            c.capability_profile is None,
            !c.debug_overlay,
            c.palette == DiagramPalettePreset::Default,
            c.theme is None,
            c.theme_variables@.is_empty(),
            c.flowchart_direction is None,
            c.flowchart_curve is None,
            c.sequence_mirror_actors is None,
            c.sequence_show_sequence_numbers is None,
    {
        MermaidConfig {
            enabled: true,
            glyph_mode: MermaidGlyphMode::Unicode,
            render_mode: MermaidRenderMode::Braille,
            tier_override: MermaidTier::Auto,
            max_nodes: 200,
            max_edges: 400,
            route_budget: 4_000,
            layout_iteration_budget: 200,
            edge_bundling: false,
            edge_bundle_min_count: 3,
            max_label_chars: 48,
            max_label_lines: 3,
            wrap_mode: MermaidWrapMode::WordChar,
            enable_styles: true,
            enable_init_directives: false,
            enable_links: false,
            link_mode: MermaidLinkMode::Off,
            sanitize_mode: MermaidSanitizeMode::Strict,
            error_mode: MermaidErrorMode::Panel,
            log_path: None,
            cache_enabled: true,
            capability_profile: None,
            debug_overlay: false,
            palette: DiagramPalettePreset::Default,
            theme: None,
            theme_variables: BTreeMap::new(),
            flowchart_direction: None,
            flowchart_curve: None,
            sequence_mirror_actors: None,
            sequence_show_sequence_numbers: None,
        }
    }
}

/// An invalid configuration value.
#[derive(Debug, Clone, PartialEq, Eq, Default)]
pub struct MermaidConfigError {
    pub field: String,
    pub value: String,
    pub message: String,
}

/// A parsed configuration with what went wrong reading it.
#[derive(Debug, Clone, PartialEq, Eq)]
pub struct MermaidConfigParse {
    pub config: MermaidConfig,
    pub warnings: Vec<MermaidWarning>,
    pub errors: Vec<MermaidConfigError>,
}

impl Default for MermaidConfigParse {
    fn default() -> (p: Self)
        ensures
            p.config.enabled && p.config.glyph_mode == MermaidGlyphMode::Unicode && p.config.render_mode == MermaidRenderMode::Braille,
            p.config.tier_override == MermaidTier::Auto,
            p.config.max_nodes == 200 && p.config.max_edges == 400 && p.config.route_budget == 4000 && p.config.layout_iteration_budget == 200,
            !p.config.edge_bundling && p.config.edge_bundle_min_count == 3,
            p.config.max_label_chars == 48 && p.config.max_label_lines == 3,
            p.config.wrap_mode == MermaidWrapMode::WordChar,
            p.config.enable_styles && !p.config.enable_init_directives && !p.config.enable_links,
            p.config.link_mode == MermaidLinkMode::Off,
            p.config.sanitize_mode == MermaidSanitizeMode::Strict,
            p.config.error_mode == MermaidErrorMode::Panel,
            p.config.log_path is None,
            p.config.cache_enabled,
            p.config.capability_profile is None,
            !p.config.debug_overlay,
            p.config.palette == DiagramPalettePreset::Default,
            p.config.theme is None,
            p.config.theme_variables@.is_empty(),
            p.config.flowchart_direction is None,
            p.config.flowchart_curve is None,
            p.config.sequence_mirror_actors is None,
            p.config.sequence_show_sequence_numbers is None,
            p.warnings@.len() == 0,
            p.errors@.len() == 0,
    {
        MermaidConfigParse { config: MermaidConfig::default(), warnings: Vec::new(), errors: Vec::new() }
    }
}

/// Theme overrides.
#[derive(Debug, Clone, PartialEq, Eq, Default)]
pub struct MermaidThemeOverrides {
    pub theme: Option<String>,
    pub theme_variables: BTreeMap<String, String>,
}

/// The part of a configuration that init directives can set.
#[derive(Debug, Clone, PartialEq, Eq, Default)]
pub struct MermaidInitConfig {
    pub theme: Option<String>,
    pub theme_variables: BTreeMap<String, String>,
    pub flowchart_direction: Option<GraphDirection>,
    pub flowchart_curve: Option<String>,
    pub sequence_mirror_actors: Option<bool>,
    pub sequence_show_sequence_numbers: Option<bool>,
}

/// A parsed init directive with what went wrong reading it.
#[derive(Debug, Clone, PartialEq, Eq, Default)]
pub struct MermaidInitParse {
    pub config: MermaidInitConfig,
    pub warnings: Vec<MermaidWarning>,
    pub errors: Vec<MermaidError>,
}

/// The message of a configuration error as a parse error.
pub open spec fn config_error_message(e: MermaidConfigError) -> Seq<char> {
    "Config field '"@ + e.field@ + "': "@ + e.message@
}

/// The contents of an optional string.
pub open spec fn opt_chars(s: Option<String>) -> Option<Seq<char>> {
    match s {
        Some(t) => Some(t@),
        None => None,
    }
}

fn clone_opt_string(s: &Option<String>) -> (r: Option<String>)
    ensures
        opt_chars(r) == opt_chars(*s),
{
    match s {
        Some(t) => Some(t.clone()),
        None => None,
    }
}

/// The init directive part of a parsed configuration; each configuration error becomes
/// a parse error "Config field '<field>': <message>" expecting a valid value.
pub fn to_init_parse(parsed_config: MermaidConfigParse) -> (r: MermaidInitParse)
    ensures
        opt_chars(r.config.theme) == opt_chars(parsed_config.config.theme),
        r.config.theme_variables@ == parsed_config.config.theme_variables@,
        r.config.flowchart_direction == parsed_config.config.flowchart_direction,
        opt_chars(r.config.flowchart_curve) == opt_chars(parsed_config.config.flowchart_curve),
        r.config.sequence_mirror_actors == parsed_config.config.sequence_mirror_actors,
        r.config.sequence_show_sequence_numbers == parsed_config.config.sequence_show_sequence_numbers,
        r.warnings == parsed_config.warnings,
        r.errors@.len() == parsed_config.errors@.len(),
        forall|i: int| 0 <= i < r.errors@.len() ==> match #[trigger] r.errors@[i] {
            MermaidError::Parse { message, span, expected } => {
                &&& message@ == config_error_message(parsed_config.errors@[i])
                &&& span == Span::default_spec()
                &&& expected@.len() == 1
                &&& expected@[0]@ == "a valid Mermaid config value"@
            },
            _ => false,
        },
{
    let init_config = MermaidInitConfig {
        theme: clone_opt_string(&parsed_config.config.theme),
        theme_variables: parsed_config.config.theme_variables.clone(),
        flowchart_direction: parsed_config.config.flowchart_direction,
        flowchart_curve: clone_opt_string(&parsed_config.config.flowchart_curve),
        sequence_mirror_actors: parsed_config.config.sequence_mirror_actors,
        sequence_show_sequence_numbers: parsed_config.config.sequence_show_sequence_numbers,
    };
    let mut errors: Vec<MermaidError> = Vec::new();
    let mut i: usize = 0;
    while i < parsed_config.errors.len()
        invariant
            i <= parsed_config.errors@.len(),
            errors@.len() == i,
            forall|j: int| 0 <= j < i ==> match #[trigger] errors@[j] {
                MermaidError::Parse { message, span, expected } => {
                    &&& message@ == config_error_message(parsed_config.errors@[j])
                    &&& span == Span::default_spec()
                    &&& expected@.len() == 1
                    &&& expected@[0]@ == "a valid Mermaid config value"@
                },
                _ => false,
            },
        decreases parsed_config.errors@.len() - i,
    {
        let e = &parsed_config.errors[i];
        let mut message = String::from_str("Config field '");
        message.append(e.field.as_str());
        message.append("': ");
        message.append(e.message.as_str());
        let mut expected: Vec<String> = Vec::new();
        expected.push(String::from_str("a valid Mermaid config value"));
        errors.push(MermaidError::Parse { message, span: Span::zero(), expected });
        i = i + 1;
    }
    MermaidInitParse { config: init_config, warnings: parsed_config.warnings, errors }
}

/// Size measures of a diagram.
#[derive(Debug, Clone, Copy, PartialEq, Eq, Default, Structural)]
pub struct MermaidComplexity {
    pub nodes: usize,
    pub edges: usize,
    pub labels: usize,
    pub clusters: usize,
    pub ports: usize,
    pub style_refs: usize,
    pub score: usize,
}

/// Evidence backing a capability claim.
#[derive(Debug, Clone, PartialEq, Eq)]
pub struct CapabilityEvidence {
    pub kind: String,
    pub reference: String,
    pub note: Option<String>,
}

/// An advertised capability and its status.
#[derive(Debug, Clone, PartialEq, Eq)]
pub struct CapabilityClaim {
    pub id: String,
    pub category: String,
    pub title: String,
    pub status: CapabilityStatus,
    pub advertised_in: Vec<String>,
    pub code_paths: Vec<String>,
    pub evidence: Vec<CapabilityEvidence>,
    pub notes: Vec<String>,
}

/// One layout algorithm considered by a layout decision.
#[derive(Debug, Clone, PartialEq, Eq)]
pub struct MermaidLayoutDecisionAlternative {
    pub algorithm: String,
    pub selected: bool,
    pub available_for_diagram: bool,
    pub note: Option<String>,
}

/// A weight used by a layout decision, in permille.
#[derive(Debug, Clone, PartialEq, Eq)]
pub struct MermaidDecisionWeight {
    pub key: String,
    pub value_permille: u32,
}

/// Reaction to each kind of unsupported construct.
#[derive(Debug, Clone, Copy, PartialEq, Eq, Structural)]
pub struct MermaidFallbackPolicy {
    pub unsupported_diagram: MermaidFallbackAction,
    pub unsupported_directive: MermaidFallbackAction,
    pub unsupported_style: MermaidFallbackAction,
    pub unsupported_link: MermaidFallbackAction,
    pub unsupported_feature: MermaidFallbackAction,
}

impl Default for MermaidFallbackPolicy {
    fn default() -> (p: Self)
        ensures
            p == (MermaidFallbackPolicy {
                unsupported_diagram: MermaidFallbackAction::Error,
                unsupported_directive: MermaidFallbackAction::Warn,
                unsupported_style: MermaidFallbackAction::Warn,
                unsupported_link: MermaidFallbackAction::Warn,
                unsupported_feature: MermaidFallbackAction::Warn,
            }),
    {
        MermaidFallbackPolicy {
            unsupported_diagram: MermaidFallbackAction::Error,
            unsupported_directive: MermaidFallbackAction::Warn,
            unsupported_style: MermaidFallbackAction::Warn,
            unsupported_link: MermaidFallbackAction::Warn,
            unsupported_feature: MermaidFallbackAction::Warn,
        }
    }
}

/// Warnings and errors of a validation.
#[derive(Debug, Clone, PartialEq, Eq, Default)]
pub struct MermaidValidation {
    pub warnings: Vec<MermaidWarning>,
    pub errors: Vec<MermaidError>,
}

/// Compatibility of a diagram with the supported feature set.
#[derive(Debug, Clone, PartialEq, Eq, Default)]
pub struct MermaidCompatibilityReport {
    pub diagram_support: MermaidSupportLevel,
    pub warnings: Vec<MermaidWarning>,
    pub fatal: bool,
}

/// An activation bar on a participant lifeline.
#[derive(Debug, Clone, PartialEq, Eq)]
pub struct IrActivation {
    pub participant: IrNodeId,
    pub start_edge: usize,
    pub end_edge: usize,
    pub depth: usize,
}

/// A note attached to participant lifelines.
#[derive(Debug, Clone, PartialEq, Eq)]
pub struct IrSequenceNote {
    pub position: NotePosition,
    pub participants: Vec<IrNodeId>,
    pub text: String,
    /// The message this note appears after.
    pub after_edge: usize,
}

/// One alternative of an `Alt` fragment.
#[derive(Debug, Clone, PartialEq, Eq)]
pub struct FragmentAlternative {
    pub label: String,
    pub start_edge: usize,
    pub end_edge: usize,
}

/// A combined fragment spanning a range of messages.
#[derive(Debug, Clone, PartialEq, Eq)]
pub struct IrSequenceFragment {
    pub kind: FragmentKind,
    pub label: String,
    pub color: Option<String>,
    pub start_edge: usize,
    pub end_edge: usize,
    pub alternatives: Vec<FragmentAlternative>,
    pub children: Vec<usize>,
}

/// A named group of participants.
#[derive(Debug, Clone, PartialEq, Eq)]
pub struct IrParticipantGroup {
    pub label: String,
    pub color: Option<String>,
    pub participants: Vec<IrNodeId>,
}

/// A participant creation or destruction at a message.
#[derive(Debug, Clone, PartialEq, Eq)]
pub struct IrLifecycleEvent {
    pub kind: LifecycleEventKind,
    pub participant: IrNodeId,
    pub at_edge: usize,
}

/// Sequence-diagram metadata.
#[derive(Debug, Clone, PartialEq, Eq)]
pub struct IrSequenceMeta {
    pub autonumber: bool,
    pub autonumber_start: u32,
    pub autonumber_increment: u32,
    pub hide_footbox: bool,
    pub activations: Vec<IrActivation>,
    pub notes: Vec<IrSequenceNote>,
    pub fragments: Vec<IrSequenceFragment>,
    pub participant_groups: Vec<IrParticipantGroup>,
    pub lifecycle_events: Vec<IrLifecycleEvent>,
}

impl Default for IrSequenceMeta {
    fn default() -> (m: Self)
        ensures
            !m.autonumber && m.autonumber_start == 1 && m.autonumber_increment == 1 && !m.hide_footbox,
            m.activations@.len() == 0 && m.notes@.len() == 0 && m.fragments@.len() == 0,
            m.participant_groups@.len() == 0 && m.lifecycle_events@.len() == 0,
    {
        IrSequenceMeta {
            autonumber: false,
            autonumber_start: 1,
            autonumber_increment: 1,
            hide_footbox: false,
            activations: Vec::new(),
            notes: Vec::new(),
            fragments: Vec::new(),
            participant_groups: Vec::new(),
            lifecycle_events: Vec::new(),
        }
    }
}

impl IrSequenceMeta {
    /// The number of message `edge_index` when autonumbering: start plus index times
    /// increment.
    pub fn autonumber_value(&self, edge_index: usize) -> (r: Option<u64>)
        requires
            self.autonumber ==> self.autonumber_start + edge_index * self.autonumber_increment <= u64::MAX,
        ensures
            r == (if self.autonumber {
                Some((self.autonumber_start + edge_index * self.autonumber_increment) as u64)
            } else {
                None
            }),
    {
        if !self.autonumber {
            return None;
        }
        proof {
            assert(edge_index * self.autonumber_increment <= u64::MAX) by (nonlinear_arith)
                requires
                    self.autonumber_start + edge_index * self.autonumber_increment <= u64::MAX,
                    self.autonumber_start >= 0,
            ;
        }
        Some((self.autonumber_start as u64) + (edge_index as u64) * (self.autonumber_increment as u64))
    }
}

/// A named section of a Gantt chart.
#[derive(Debug, Clone, PartialEq, Eq)]
pub struct IrGanttSection {
    pub name: String,
}

/// A Gantt date.
#[derive(Debug, Clone, PartialEq, Eq)]
pub enum GanttDate {
    Absolute(String),
    AfterTask(String),
    DurationDays(u32),
}

/// Days excluded from a Gantt chart.
#[derive(Debug, Clone, PartialEq, Eq)]
pub enum GanttExclude {
    Weekends,
    Dates(Vec<String>),
}

/// One entry of a source map.
#[derive(Debug, Clone, PartialEq, Eq)]
pub struct MermaidSourceMapEntry {
    pub kind: MermaidSourceMapKind,
    pub index: usize,
    pub element_id: String,
    pub source_id: Option<String>,
    pub span: Span,
}

/// Where each rendered element came from in the source.
#[derive(Debug, Clone, PartialEq, Eq)]
pub struct MermaidSourceMap {
    pub diagram_type: crate::taxonomy::DiagramType,
    pub entries: Vec<MermaidSourceMapEntry>,
}

/// A rendered element bound to its source text.
#[derive(Debug, Clone, PartialEq, Eq)]
pub struct MermaidLensBinding {
    pub kind: MermaidSourceMapKind,
    pub index: usize,
    pub element_id: String,
    pub source_id: Option<String>,
    pub span: Span,
    pub text_range: Option<MermaidTextRange>,
    pub snippet: Option<String>,
}

/// A replacement of one element's source text.
#[derive(Debug, Clone, PartialEq, Eq)]
pub struct MermaidLensEdit {
    pub element_id: String,
    pub replacement: String,
}

/// The outcome of a source edit.
#[derive(Debug, Clone, PartialEq, Eq)]
pub struct MermaidLensEditResult {
    pub element_id: String,
    pub replaced_range: MermaidTextRange,
    pub previous_snippet: String,
    pub replacement: String,
    pub updated_source: String,
}

/// Why a source edit failed.
#[derive(Debug, Clone, PartialEq, Eq)]
pub enum MermaidLensError {
    /// The element is not in the source map.
    ElementNotFound(String),
    /// The element's span does not resolve against the source text.
    UnresolvedSpan(String),
}

} // verus!
