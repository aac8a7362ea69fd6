//! Names, support levels and other fixed vocabularies of the diagram model.
use vstd::prelude::*;

verus! {

/// Kinds of failure a diagram can be rejected for.
#[derive(Debug, Clone, Copy, PartialEq, Eq, Default, Structural)]
pub enum MermaidErrorCode {
    #[default]
    Parse,
    Validation,
    Unsupported,
}

impl MermaidErrorCode {
    /// The stable code string.
    pub open spec fn code_text(self) -> Seq<char> {
        match self {
            MermaidErrorCode::Parse => "mermaid/error/parse"@,
            MermaidErrorCode::Validation => "mermaid/error/validation"@,
            MermaidErrorCode::Unsupported => "mermaid/error/unsupported"@,
        }
    }

    /// The stable code string.
    pub fn as_str(self) -> (s: &'static str)
        ensures
            s@ == self.code_text(),
    {
        match self {
            MermaidErrorCode::Parse => "mermaid/error/parse",
            MermaidErrorCode::Validation => "mermaid/error/validation",
            MermaidErrorCode::Unsupported => "mermaid/error/unsupported",
        }
    }
}

/// Kinds of warning raised while reading a diagram.
#[derive(Debug, Clone, Copy, PartialEq, Eq, Default, Structural)]
pub enum MermaidWarningCode {
    #[default]
    ParseRecovery,
    UnsupportedStyle,
    UnsupportedLink,
    UnsupportedFeature,
}

impl MermaidWarningCode {
    /// The stable code string.
    pub open spec fn code_text(self) -> Seq<char> {
        match self {
            MermaidWarningCode::ParseRecovery => "mermaid/warn/parse-recovery"@,
            MermaidWarningCode::UnsupportedStyle => "mermaid/warn/unsupported-style"@,
            MermaidWarningCode::UnsupportedLink => "mermaid/warn/unsupported-link"@,
            MermaidWarningCode::UnsupportedFeature => "mermaid/warn/unsupported-feature"@,
        }
    }

    /// The stable code string.
    pub fn as_str(self) -> (s: &'static str)
        ensures
            s@ == self.code_text(),
    {
        match self {
            MermaidWarningCode::ParseRecovery => "mermaid/warn/parse-recovery",
            MermaidWarningCode::UnsupportedStyle => "mermaid/warn/unsupported-style",
            MermaidWarningCode::UnsupportedLink => "mermaid/warn/unsupported-link",
            MermaidWarningCode::UnsupportedFeature => "mermaid/warn/unsupported-feature",
        }
    }
}

/// The diagram families.
#[derive(Debug, Clone, Copy, PartialEq, Eq, Default, Hash, Structural)]
pub enum DiagramType {
    Flowchart,
    Sequence,
    State,
    Gantt,
    Class,
    Er,
    Mindmap,
    Pie,
    GitGraph,
    Journey,
    Requirement,
    Timeline,
    QuadrantChart,
    Sankey,
    XyChart,
    BlockBeta,
    PacketBeta,
    ArchitectureBeta,
    C4Context,
    C4Container,
    C4Component,
    C4Dynamic,
    C4Deployment,
    Kanban,
    #[default]
    Unknown,
}

/// How far a diagram family is supported.
#[derive(Debug, Clone, Copy, PartialEq, Eq, Default, Structural)]
pub enum MermaidSupportLevel {
    #[default]
    Supported,
    Partial,
    Unsupported,
}

impl DiagramType {
    /// The family's name as written in diagram headers.
    pub open spec fn name_text(self) -> Seq<char> {
        match self {
            DiagramType::Flowchart => "flowchart"@,
            DiagramType::Sequence => "sequence"@,
            DiagramType::State => "state"@,
            DiagramType::Gantt => "gantt"@,
            DiagramType::Class => "class"@,
            DiagramType::Er => "er"@,
            DiagramType::Mindmap => "mindmap"@,
            DiagramType::Pie => "pie"@,
            DiagramType::GitGraph => "gitGraph"@,
            DiagramType::Journey => "journey"@,
            DiagramType::Requirement => "requirementDiagram"@,
            DiagramType::Timeline => "timeline"@,
            DiagramType::QuadrantChart => "quadrantChart"@,
            DiagramType::Sankey => "sankey"@,
            DiagramType::XyChart => "xyChart"@,
            DiagramType::BlockBeta => "block-beta"@,
            DiagramType::PacketBeta => "packet-beta"@,
            DiagramType::ArchitectureBeta => "architecture-beta"@,
            DiagramType::C4Context => "C4Context"@,
            DiagramType::C4Container => "C4Container"@,
            DiagramType::C4Component => "C4Component"@,
            DiagramType::C4Dynamic => "C4Dynamic"@,
            DiagramType::C4Deployment => "C4Deployment"@,
            DiagramType::Kanban => "kanban"@,
            DiagramType::Unknown => "unknown"@,
        }
    }

    /// The family's name as written in diagram headers.
    pub fn as_str(self) -> (s: &'static str)
        ensures
            s@ == self.name_text(),
    {
        match self {
            DiagramType::Flowchart => "flowchart",
            DiagramType::Sequence => "sequence",
            DiagramType::State => "state",
            DiagramType::Gantt => "gantt",
            DiagramType::Class => "class",
            DiagramType::Er => "er",
            DiagramType::Mindmap => "mindmap",
            DiagramType::Pie => "pie",
            DiagramType::GitGraph => "gitGraph",
            DiagramType::Journey => "journey",
            DiagramType::Requirement => "requirementDiagram",
            DiagramType::Timeline => "timeline",
            DiagramType::QuadrantChart => "quadrantChart",
            DiagramType::Sankey => "sankey",
            DiagramType::XyChart => "xyChart",
            DiagramType::BlockBeta => "block-beta",
            DiagramType::PacketBeta => "packet-beta",
            DiagramType::ArchitectureBeta => "architecture-beta",
            DiagramType::C4Context => "C4Context",
            DiagramType::C4Container => "C4Container",
            DiagramType::C4Component => "C4Component",
            DiagramType::C4Dynamic => "C4Dynamic",
            DiagramType::C4Deployment => "C4Deployment",
            DiagramType::Kanban => "kanban",
            DiagramType::Unknown => "unknown",
        }
    }

    /// Support level of each family: sequence, pie and xy charts are partial, unknown
    /// diagrams unsupported, all others supported.
    pub open spec fn level(self) -> MermaidSupportLevel {
        match self {
            DiagramType::Sequence | DiagramType::Pie | DiagramType::XyChart => MermaidSupportLevel::Partial,
            DiagramType::Unknown => MermaidSupportLevel::Unsupported,
            _ => MermaidSupportLevel::Supported,
        }
    }

    /// The support level of this family.
    pub fn support_level(self) -> (l: MermaidSupportLevel)
        ensures
            l == self.level(),
    {
        match self {
            DiagramType::Sequence | DiagramType::Pie | DiagramType::XyChart => MermaidSupportLevel::Partial,
            DiagramType::Unknown => MermaidSupportLevel::Unsupported,
            _ => MermaidSupportLevel::Supported,
        }
    }

    /// A short word for the support level: full, partial, basic or unknown.
    pub open spec fn label_text(self) -> Seq<char> {
        match self {
            DiagramType::Flowchart => "full"@,
            DiagramType::Sequence => "partial"@,
            DiagramType::State => "full"@,
            DiagramType::Gantt => "full"@,
            DiagramType::Class => "full"@,
            DiagramType::Er => "full"@,
            DiagramType::Mindmap => "full"@,
            DiagramType::Pie => "partial"@,
            DiagramType::GitGraph => "full"@,
            DiagramType::Journey => "full"@,
            DiagramType::Requirement => "full"@,
            DiagramType::Timeline => "full"@,
            DiagramType::QuadrantChart => "full"@,
            DiagramType::Sankey => "full"@,
            DiagramType::XyChart => "basic"@,
            DiagramType::BlockBeta => "full"@,
            DiagramType::PacketBeta => "full"@,
            DiagramType::ArchitectureBeta => "full"@,
            DiagramType::C4Context => "full"@,
            DiagramType::C4Container => "full"@,
            DiagramType::C4Component => "full"@,
            DiagramType::C4Dynamic => "full"@,
            DiagramType::C4Deployment => "full"@,
            DiagramType::Kanban => "full"@,
            DiagramType::Unknown => "unknown"@,
        }
    }

    /// A short word for the support level: full, partial, basic or unknown.
    pub fn support_label(self) -> (s: &'static str)
        ensures
            s@ == self.label_text(),
    {
        match self {
            DiagramType::Flowchart => "full",
            DiagramType::Sequence => "partial",
            DiagramType::State => "full",
            DiagramType::Gantt => "full",
            DiagramType::Class => "full",
            DiagramType::Er => "full",
            DiagramType::Mindmap => "full",
            DiagramType::Pie => "partial",
            DiagramType::GitGraph => "full",
            DiagramType::Journey => "full",
            DiagramType::Requirement => "full",
            DiagramType::Timeline => "full",
            DiagramType::QuadrantChart => "full",
            DiagramType::Sankey => "full",
            DiagramType::XyChart => "basic",
            DiagramType::BlockBeta => "full",
            DiagramType::PacketBeta => "full",
            DiagramType::ArchitectureBeta => "full",
            DiagramType::C4Context => "full",
            DiagramType::C4Container => "full",
            DiagramType::C4Component => "full",
            DiagramType::C4Dynamic => "full",
            DiagramType::C4Deployment => "full",
            DiagramType::Kanban => "full",
            DiagramType::Unknown => "unknown",
        }
    }
}

/// How strictly input is parsed.
#[derive(Debug, Clone, Copy, PartialEq, Eq, Default, Structural)]
pub enum MermaidParseMode {
    Strict,
    #[default]
    Compat,
    Recover,
}

impl MermaidParseMode {
    /// The mode's name.
    pub open spec fn mode_text(self) -> Seq<char> {
        match self {
            MermaidParseMode::Strict => "strict"@,
            MermaidParseMode::Compat => "compat"@,
            MermaidParseMode::Recover => "recover"@,
        }
    }

    /// The mode's name.
    pub fn as_str(self) -> (s: &'static str)
        ensures
            s@ == self.mode_text(),
    {
        match self {
            MermaidParseMode::Strict => "strict",
            MermaidParseMode::Compat => "compat",
            MermaidParseMode::Recover => "recover",
        }
    }
}

/// Status of an advertised capability.
#[derive(Debug, Clone, Copy, PartialEq, Eq, PartialOrd, Ord, Structural)]
pub enum CapabilityStatus {
    Implemented,
    Partial,
    Experimental,
    Planned,
    Unsupported,
}

impl CapabilityStatus {
    /// The status's name.
    pub open spec fn status_text(self) -> Seq<char> {
        match self {
            CapabilityStatus::Implemented => "implemented"@,
            CapabilityStatus::Partial => "partial"@,
            CapabilityStatus::Experimental => "experimental"@,
            CapabilityStatus::Planned => "planned"@,
            CapabilityStatus::Unsupported => "unsupported"@,
        }
    }

    /// The status's name.
    pub fn as_str(self) -> (s: &'static str)
        ensures
            s@ == self.status_text(),
    {
        match self {
            CapabilityStatus::Implemented => "implemented",
            CapabilityStatus::Partial => "partial",
            CapabilityStatus::Experimental => "experimental",
            CapabilityStatus::Planned => "planned",
            CapabilityStatus::Unsupported => "unsupported",
        }
    }
}

/// Main direction of a graph.
#[derive(Debug, Clone, Copy, PartialEq, Eq, Default, Structural)]
pub enum GraphDirection {
    #[default]
    TB,
    TD,
    LR,
    RL,
    BT,
}

impl GraphDirection {
    /// The direction token.
    pub open spec fn direction_text(self) -> Seq<char> {
        match self {
            GraphDirection::TB => "TB"@,
            GraphDirection::TD => "TD"@,
            GraphDirection::LR => "LR"@,
            GraphDirection::RL => "RL"@,
            GraphDirection::BT => "BT"@,
        }
    }

    /// The direction token.
    pub fn as_str(self) -> (s: &'static str)
        ensures
            s@ == self.direction_text(),
    {
        match self {
            GraphDirection::TB => "TB",
            GraphDirection::TD => "TD",
            GraphDirection::LR => "LR",
            GraphDirection::RL => "RL",
            GraphDirection::BT => "BT",
        }
    }
}

/// On which sides ports attach.
#[derive(Debug, Clone, Copy, PartialEq, Eq, Default, Structural)]
pub enum IrPortSideHint {
    #[default]
    Auto,
    Horizontal,
    Vertical,
}

impl IrPortSideHint {
    /// Horizontal for left-right graphs, vertical for top-down ones.
    pub fn from_direction(direction: GraphDirection) -> (h: Self)
        ensures
            h == (match direction {
                GraphDirection::LR | GraphDirection::RL => IrPortSideHint::Horizontal,
                _ => IrPortSideHint::Vertical,
            }),
    {
        match direction {
            GraphDirection::LR | GraphDirection::RL => IrPortSideHint::Horizontal,
            GraphDirection::TB | GraphDirection::TD | GraphDirection::BT => IrPortSideHint::Vertical,
        }
    }
}

/// Outline of a node.
#[derive(Debug, Clone, Copy, PartialEq, Eq, Default, Hash, Structural)]
pub enum NodeShape {
    #[default]
    Rect,
    Rounded,
    Stadium,
    Subroutine,
    Diamond,
    Hexagon,
    Circle,
    FilledCircle,
    Asymmetric,
    Cylinder,
    Trapezoid,
    DoubleCircle,
    HorizontalBar,
    Note,
    InvTrapezoid,
    Parallelogram,
    InvParallelogram,
    Triangle,
    Pentagon,
    Star,
    Cloud,
    Tag,
    CrossedCircle,
}

/// Arrow heads and line styles of an edge.
#[derive(Debug, Clone, Copy, PartialEq, Eq, Default, Hash, Structural)]
pub enum ArrowType {
    #[default]
    Line,
    Arrow,
    OpenArrow,
    HalfArrowTop,
    HalfArrowBottom,
    HalfArrowTopReverse,
    HalfArrowBottomReverse,
    StickArrowTop,
    StickArrowBottom,
    StickArrowTopReverse,
    StickArrowBottomReverse,
    ThickArrow,
    DottedArrow,
    DottedOpenArrow,
    DottedCross,
    HalfArrowTopDotted,
    HalfArrowBottomDotted,
    HalfArrowTopReverseDotted,
    HalfArrowBottomReverseDotted,
    StickArrowTopDotted,
    StickArrowBottomDotted,
    StickArrowTopReverseDotted,
    StickArrowBottomReverseDotted,
    Circle,
    Cross,
    ThickLine,
    DottedLine,
    DoubleArrow,
    DoubleThickArrow,
    DoubleDottedArrow,
}

impl ArrowType {
    /// The arrow's source token.
    pub open spec fn arrow_text(self) -> Seq<char> {
        match self {
            ArrowType::Line => "---"@,
            ArrowType::Arrow => "-->"@,
            ArrowType::OpenArrow => "-)"@,
            ArrowType::HalfArrowTop => "-|\\"@,
            ArrowType::HalfArrowBottom => "-|/"@,
            ArrowType::HalfArrowTopReverse => "/|-"@,
            ArrowType::HalfArrowBottomReverse => "\\|-"@,
            ArrowType::StickArrowTop => "-\\\\"@,
            ArrowType::StickArrowBottom => "-//"@,
            ArrowType::StickArrowTopReverse => "//-"@,
            ArrowType::StickArrowBottomReverse => "\\\\-"@,
            ArrowType::ThickArrow => "==>"@,
            ArrowType::DottedArrow => "-.->"@,
            ArrowType::DottedOpenArrow => "--)"@,
            ArrowType::DottedCross => "--x"@,
            ArrowType::HalfArrowTopDotted => "--|\\"@,
            ArrowType::HalfArrowBottomDotted => "--|/"@,
            ArrowType::HalfArrowTopReverseDotted => "/|--"@,
            ArrowType::HalfArrowBottomReverseDotted => "\\|--"@,
            ArrowType::StickArrowTopDotted => "--\\\\"@,
            ArrowType::StickArrowBottomDotted => "--//"@,
            ArrowType::StickArrowTopReverseDotted => "//--"@,
            ArrowType::StickArrowBottomReverseDotted => "\\\\--"@,
            ArrowType::Circle => "--o"@,
            ArrowType::Cross => "-x"@,
            ArrowType::ThickLine => "==="@,
            ArrowType::DottedLine => "-.-"@,
            ArrowType::DoubleArrow => "<-->"@,
            ArrowType::DoubleThickArrow => "<==>"@,
            ArrowType::DoubleDottedArrow => "<-.->"@,
        }
    }

    /// The arrow's source token.
    pub fn as_str(self) -> (s: &'static str)
        ensures
            s@ == self.arrow_text(),
    {
        match self {
            ArrowType::Line => "---",
            ArrowType::Arrow => "-->",
            ArrowType::OpenArrow => "-)",
            ArrowType::HalfArrowTop => "-|\\",
            ArrowType::HalfArrowBottom => "-|/",
            ArrowType::HalfArrowTopReverse => "/|-",
            ArrowType::HalfArrowBottomReverse => "\\|-",
            ArrowType::StickArrowTop => "-\\\\",
            ArrowType::StickArrowBottom => "-//",
            ArrowType::StickArrowTopReverse => "//-",
            ArrowType::StickArrowBottomReverse => "\\\\-",
            ArrowType::ThickArrow => "==>",
            ArrowType::DottedArrow => "-.->",
            ArrowType::DottedOpenArrow => "--)",
            ArrowType::DottedCross => "--x",
            ArrowType::HalfArrowTopDotted => "--|\\",
            ArrowType::HalfArrowBottomDotted => "--|/",
            ArrowType::HalfArrowTopReverseDotted => "/|--",
            ArrowType::HalfArrowBottomReverseDotted => "\\|--",
            ArrowType::StickArrowTopDotted => "--\\\\",
            ArrowType::StickArrowBottomDotted => "--//",
            ArrowType::StickArrowTopReverseDotted => "//--",
            ArrowType::StickArrowBottomReverseDotted => "\\\\--",
            ArrowType::Circle => "--o",
            ArrowType::Cross => "-x",
            ArrowType::ThickLine => "===",
            ArrowType::DottedLine => "-.-",
            ArrowType::DoubleArrow => "<-->",
            ArrowType::DoubleThickArrow => "<==>",
            ArrowType::DoubleDottedArrow => "<-.->",
        }
    }
}

/// Key modifier of an entity attribute.
#[derive(Debug, Clone, Copy, PartialEq, Eq, Default, Hash, Structural)]
pub enum IrAttributeKey {
    Pk,
    Fk,
    Uk,
    #[default]
    NoKey,
}

/// Visibility of a class member.
#[derive(Debug, Clone, Copy, PartialEq, Eq, Default, Hash, Structural)]
pub enum ClassVisibility {
    #[default]
    Public,
    Private,
    Protected,
    Package,
}

/// Field or operation.
#[derive(Debug, Clone, Copy, PartialEq, Eq, Default, Hash, Structural)]
pub enum ClassMemberKind {
    #[default]
    Attribute,
    Method,
}

/// Role of a node in its diagram.
#[derive(Debug, Clone, Copy, PartialEq, Eq, Default, Hash, Structural)]
pub enum IrNodeKind {
    #[default]
    Generic,
    Entity,
    Participant,
    State,
    Task,
    Event,
    Commit,
    Requirement,
    Slice,
    Point,
}

/// Role of an edge in its diagram.
#[derive(Debug, Clone, Copy, PartialEq, Eq, Default, Hash, Structural)]
pub enum IrEdgeKind {
    #[default]
    Generic,
    Relationship,
    Message,
    Timeline,
    Dependency,
    Commit,
}

/// Glyph set of terminal output.
#[derive(Debug, Clone, Copy, PartialEq, Eq, Default, Structural)]
pub enum MermaidGlyphMode {
    #[default]
    Unicode,
    Ascii,
}

/// Terminal rendering technique.
#[derive(Debug, Clone, Copy, PartialEq, Eq, Default, Structural)]
pub enum MermaidRenderMode {
    #[default]
    Auto,
    CellOnly,
    Braille,
    Block,
    HalfBlock,
}

/// Colour palette.
#[derive(Debug, Clone, Copy, PartialEq, Eq, Default, Structural)]
pub enum DiagramPalettePreset {
    #[default]
    Default,
    Corporate,
    Neon,
    Monochrome,
    Pastel,
    HighContrast,
}

/// Output detail tier.
#[derive(Debug, Clone, Copy, PartialEq, Eq, Default, Structural)]
pub enum MermaidTier {
    Compact,
    #[default]
    Normal,
    Rich,
    Auto,
}

/// Label wrapping.
#[derive(Debug, Clone, Copy, PartialEq, Eq, Default, Structural)]
pub enum MermaidWrapMode {
    NoWrap,
    Word,
    Char,
    #[default]
    WordChar,
}

/// How links are shown.
#[derive(Debug, Clone, Copy, PartialEq, Eq, Default, Structural)]
pub enum MermaidLinkMode {
    Inline,
    Footnote,
    #[default]
    Off,
}

/// How input is sanitised.
#[derive(Debug, Clone, Copy, PartialEq, Eq, Default, Structural)]
pub enum MermaidSanitizeMode {
    #[default]
    Strict,
    Lenient,
}

/// How errors are shown.
#[derive(Debug, Clone, Copy, PartialEq, Eq, Default, Structural)]
pub enum MermaidErrorMode {
    #[default]
    Panel,
    Raw,
    Both,
}

/// Reaction to an unsupported construct.
#[derive(Debug, Clone, Copy, PartialEq, Eq, Default, Structural)]
pub enum MermaidFallbackAction {
    #[default]
    Ignore,
    Warn,
    Error,
}

/// Where a note sits against lifelines.
#[derive(Debug, Clone, Copy, PartialEq, Eq, Hash, Structural)]
pub enum NotePosition {
    LeftOf,
    RightOf,
    Over,
}

/// Kind of combined fragment.
#[derive(Debug, Clone, Copy, PartialEq, Eq, Hash, Structural)]
pub enum FragmentKind {
    Loop,
    Alt,
    Opt,
    Par,
    Critical,
    Break,
    Rect,
}

/// Participant creation or destruction.
#[derive(Debug, Clone, Copy, PartialEq, Eq, Hash, Structural)]
pub enum LifecycleEventKind {
    Create,
    Destroy,
}

/// Kind of Gantt task.
#[derive(Debug, Clone, Copy, PartialEq, Eq, Default, Structural)]
pub enum GanttTaskType {
    #[default]
    Normal,
    Critical,
    Done,
    Active,
    Milestone,
}

/// Tick spacing of a Gantt axis.
#[derive(Debug, Clone, Copy, PartialEq, Eq, Structural)]
pub enum GanttTickInterval {
    Day,
    Week,
    Month,
    Quarter,
    Year,
}

/// Kind of xy-chart series.
#[derive(Debug, Clone, Copy, PartialEq, Eq, Default, Structural)]
pub enum IrXySeriesKind {
    #[default]
    Bar,
    Line,
    Area,
}

/// What a source-map entry points at.
#[derive(Debug, Clone, Copy, PartialEq, Eq, Structural)]
pub enum MermaidSourceMapKind {
    Node,
    Edge,
    Cluster,
}

/// Severity of a diagnostic, from hint up to error.
#[derive(Debug, Clone, Copy, PartialEq, Eq, Default, PartialOrd, Ord, Structural)]
pub enum DiagnosticSeverity {
    Hint,
    #[default]
    Info,
    Warning,
    Error,
}

impl DiagnosticSeverity {
    /// The severity's name.
    pub open spec fn severity_text(self) -> Seq<char> {
        match self {
            DiagnosticSeverity::Hint => "hint"@,
            DiagnosticSeverity::Info => "info"@,
            DiagnosticSeverity::Warning => "warning"@,
            DiagnosticSeverity::Error => "error"@,
        }
    }

    /// The severity's name.
    pub fn as_str(self) -> (s: &'static str)
        ensures
            s@ == self.severity_text(),
    {
        match self {
            DiagnosticSeverity::Hint => "hint",
            DiagnosticSeverity::Info => "info",
            DiagnosticSeverity::Warning => "warning",
            DiagnosticSeverity::Error => "error",
        }
    }

    /// An emoji marking the severity.
    pub open spec fn emoji_text(self) -> Seq<char> {
        match self {
            DiagnosticSeverity::Hint => "💡"@,
            DiagnosticSeverity::Info => "ℹ️"@,
            DiagnosticSeverity::Warning => "⚠️"@,
            DiagnosticSeverity::Error => "❌"@,
        }
    }

    /// An emoji marking the severity.
    pub fn emoji(self) -> (s: &'static str)
        ensures
            s@ == self.emoji_text(),
    {
        match self {
            DiagnosticSeverity::Hint => "💡",
            DiagnosticSeverity::Info => "ℹ️",
            DiagnosticSeverity::Warning => "⚠️",
            DiagnosticSeverity::Error => "❌",
        }
    }
}

/// Area a diagnostic belongs to.
#[derive(Debug, Clone, Copy, PartialEq, Eq, Default, Structural)]
pub enum DiagnosticCategory {
    Lexer,
    #[default]
    Parser,
    Semantic,
    Recovery,
    Inference,
    Compatibility,
}

impl DiagnosticCategory {
    /// The category's name.
    pub open spec fn category_text(self) -> Seq<char> {
        match self {
            DiagnosticCategory::Lexer => "lexer"@,
            DiagnosticCategory::Parser => "parser"@,
            DiagnosticCategory::Semantic => "semantic"@,
            DiagnosticCategory::Recovery => "recovery"@,
            DiagnosticCategory::Inference => "inference"@,
            DiagnosticCategory::Compatibility => "compatibility"@,
        }
    }

    /// The category's name.
    pub fn as_str(self) -> (s: &'static str)
        ensures
            s@ == self.category_text(),
    {
        match self {
            DiagnosticCategory::Lexer => "lexer",
            DiagnosticCategory::Parser => "parser",
            DiagnosticCategory::Semantic => "semantic",
            DiagnosticCategory::Recovery => "recovery",
            DiagnosticCategory::Inference => "inference",
            DiagnosticCategory::Compatibility => "compatibility",
        }
    }
}

} // verus!

verus! {

/// A family is labelled "full" exactly when it is supported.
pub proof fn law_full_label_iff_supported(t: DiagramType)
    ensures
        (t.label_text() == "full"@) <==> (t.level() == MermaidSupportLevel::Supported),
{
    reveal_strlit("full");
    reveal_strlit("partial");
    reveal_strlit("basic");
    reveal_strlit("unknown");
    assert("partial"@.len() != "full"@.len());
    assert("unknown"@.len() != "full"@.len());
    assert("basic"@[0] != "full"@[0]);
}

} // verus!
