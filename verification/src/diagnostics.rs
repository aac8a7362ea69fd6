//! Source positions, errors, warnings and diagnostics, and the element ids that
//! rendered output uses to point back at the source.
use vstd::prelude::*;
use vstd::string::StringExecFns;
use crate::taxonomy::{DiagnosticCategory, DiagnosticSeverity, MermaidErrorCode, MermaidWarningCode};
use crate::text::{decimal, decimal_string, push_char, push_decimal};

verus! {

/// A position in the source: line and column (1-based), byte offset.
#[derive(Debug, Clone, Copy, PartialEq, Eq, Default, Structural)]
pub struct Position {
    pub line: usize,
    pub col: usize,
    pub byte: usize,
}

/// A source range.
#[derive(Debug, Clone, Copy, PartialEq, Eq, Default, Structural)]
pub struct Span {
    pub start: Position,
    pub end: Position,
}

impl Span {
    /// The all-zero span.
    pub open spec fn default_spec() -> Span {
        Span { start: Position { line: 0, col: 0, byte: 0 }, end: Position { line: 0, col: 0, byte: 0 } }
    }

    /// The all-zero span.
    pub fn zero() -> (s: Span)
        ensures
            s == Span::default_spec(),
    {
        Span { start: Position { line: 0, col: 0, byte: 0 }, end: Position { line: 0, col: 0, byte: 0 } }
    }

    /// The span from `start` to `end`.
    pub fn new(start: Position, end: Position) -> (s: Self)
        ensures
            s.start == start,
            s.end == end,
    {
        Span { start, end }
    }

    /// The span of a whole line: columns 1 to `line_len` (at least 1), byte offsets 0.
    pub fn at_line(line: usize, line_len: usize) -> (s: Self)
        ensures
            s.start == (Position { line, col: 1, byte: 0 }),
            s.end == (Position { line, col: if line_len > 1 { line_len } else { 1 }, byte: 0 }),
    {
        let start = Position { line, col: 1, byte: 0 };
        let end = Position { line, col: if line_len > 1 { line_len } else { 1 }, byte: 0 };
        Span::new(start, end)
    }

    /// The unknown span: everything zero.
    pub open spec fn unknown(self) -> bool {
        self.start.line == 0 && self.start.col == 0 && self.start.byte == 0 && self.end.line == 0
            && self.end.col == 0 && self.end.byte == 0
    }

    /// Whether this is the unknown span.
    pub fn is_unknown(self) -> (b: bool)
        ensures
            b == self.unknown(),
    {
        self.start.line == 0 && self.start.col == 0 && self.start.byte == 0 && self.end.line == 0
            && self.end.col == 0 && self.end.byte == 0
    }

    /// `line:col-line:col@byte-byte`.
    pub open spec fn compact_text(self) -> Seq<char> {
        decimal(self.start.line as nat) + seq![':'] + decimal(self.start.col as nat) + seq!['-']
            + decimal(self.end.line as nat) + seq![':'] + decimal(self.end.col as nat) + seq!['@']
            + decimal(self.start.byte as nat) + seq!['-'] + decimal(self.end.byte as nat)
    }

    /// The span as `line:col-line:col@byte-byte`.
    pub fn compact_display(self) -> (s: String)
        ensures
            s@ == self.compact_text(),
    {
        let mut s = decimal_string(self.start.line as u64);
        push_char(&mut s, ':');
        push_decimal(&mut s, self.start.col as u64);
        push_char(&mut s, '-');
        push_decimal(&mut s, self.end.line as u64);
        push_char(&mut s, ':');
        push_decimal(&mut s, self.end.col as u64);
        push_char(&mut s, '@');
        push_decimal(&mut s, self.start.byte as u64);
        push_char(&mut s, '-');
        push_decimal(&mut s, self.end.byte as u64);
        proof {
            assert(s@ =~= self.compact_text());
        }
        s
    }
}

/// A byte range of the source.
#[derive(Debug, Clone, Copy, PartialEq, Eq, Structural)]
pub struct MermaidTextRange {
    pub start_byte: usize,
    pub end_byte: usize,
}

/// Why a diagram was rejected.
#[derive(Debug, Clone, PartialEq, Eq)]
pub enum MermaidError {
    Parse { message: String, span: Span, expected: Vec<String> },
    Validation { message: String, span: Span },
    Unsupported { message: String, span: Span },
}

impl MermaidError {
    /// The code of this error's kind.
    pub fn code(&self) -> (c: MermaidErrorCode)
        ensures
            c == (match self {
                MermaidError::Parse { .. } => MermaidErrorCode::Parse,
                MermaidError::Validation { .. } => MermaidErrorCode::Validation,
                MermaidError::Unsupported { .. } => MermaidErrorCode::Unsupported,
            }),
    {
        match self {
            MermaidError::Parse { .. } => MermaidErrorCode::Parse,
            MermaidError::Validation { .. } => MermaidErrorCode::Validation,
            MermaidError::Unsupported { .. } => MermaidErrorCode::Unsupported,
        }
    }

    /// Where the error occurred.
    pub fn span(&self) -> (s: Span)
        ensures
            s == (match self {
                MermaidError::Parse { span, .. } => *span,
                MermaidError::Validation { span, .. } => *span,
                MermaidError::Unsupported { span, .. } => *span,
            }),
    {
        match self {
            MermaidError::Parse { span, .. } => *span,
            MermaidError::Validation { span, .. } => *span,
            MermaidError::Unsupported { span, .. } => *span,
        }
    }
}

/// A warning raised while reading a diagram.
#[derive(Debug, Clone, PartialEq, Eq, Default)]
pub struct MermaidWarning {
    pub code: MermaidWarningCode,
    pub message: String,
    pub span: Span,
}

/// Another location a diagnostic refers to.
#[derive(Debug, Clone, PartialEq, Eq, Default)]
pub struct RelatedDiagnostic {
    pub message: String,
    pub span: Span,
}

/// A diagnostic message with its context.
#[derive(Debug, Clone, PartialEq, Eq, Default)]
pub struct Diagnostic {
    /// Severity of the diagnostic.
    pub severity: DiagnosticSeverity,
    /// Category for filtering and grouping.
    pub category: DiagnosticCategory,
    /// Human-readable message.
    pub message: String,
    /// Source location where the issue occurred.
    pub span: Option<Span>,
    /// Suggested fix or action.
    pub suggestion: Option<String>,
    /// What was expected.
    pub expected: Vec<String>,
    /// What was found.
    pub found: Option<String>,
    /// Related locations.
    pub related: Vec<RelatedDiagnostic>,
}

impl Diagnostic {
    /// A diagnostic with only severity and message set (category parser, nothing else).
    pub open spec fn fresh(self, severity: DiagnosticSeverity, message: Seq<char>) -> bool {
        &&& self.severity == severity
        &&& self.category == DiagnosticCategory::Parser
        &&& self.message@ == message
        &&& self.span is None
        &&& self.suggestion is None
        &&& self.expected@.len() == 0
        &&& self.found is None
        &&& self.related@.len() == 0
    }

    /// A new diagnostic with the given severity and message.
    pub fn new(severity: DiagnosticSeverity, message: &str) -> (d: Self)
        ensures
            d.fresh(severity, message@),
    {
        Diagnostic {
            severity,
            category: DiagnosticCategory::Parser,
            message: String::from_str(message),
            span: None,
            suggestion: None,
            expected: Vec::new(),
            found: None,
            related: Vec::new(),
        }
    }

    /// An error diagnostic.
    pub fn error(message: &str) -> (d: Self)
        ensures
            d.fresh(DiagnosticSeverity::Error, message@),
    {
        Self::new(DiagnosticSeverity::Error, message)
    }

    /// A warning diagnostic.
    pub fn warning(message: &str) -> (d: Self)
        ensures
            d.fresh(DiagnosticSeverity::Warning, message@),
    {
        Self::new(DiagnosticSeverity::Warning, message)
    }

    /// An info diagnostic.
    pub fn info(message: &str) -> (d: Self)
        ensures
            d.fresh(DiagnosticSeverity::Info, message@),
    {
        Self::new(DiagnosticSeverity::Info, message)
    }

    /// A hint diagnostic.
    pub fn hint(message: &str) -> (d: Self)
        ensures
            d.fresh(DiagnosticSeverity::Hint, message@),
    {
        Self::new(DiagnosticSeverity::Hint, message)
    }

    /// With the category set.
    pub fn with_category(self, category: DiagnosticCategory) -> (d: Self)
        ensures
            d == (Diagnostic { category, ..self }),
    {
        let mut d = self;
        d.category = category;
        d
    }

    /// With the span set.
    pub fn with_span(self, span: Span) -> (d: Self)
        ensures
            d == (Diagnostic { span: Some(span), ..self }),
    {
        let mut d = self;
        d.span = Some(span);
        d
    }

    /// With the suggestion set.
    pub fn with_suggestion(self, suggestion: &str) -> (d: Self)
        ensures
            d.suggestion is Some && d.suggestion->0@ == suggestion@,
            d == (Diagnostic { suggestion: d.suggestion, ..self }),
    {
        let mut d = self;
        d.suggestion = Some(String::from_str(suggestion));
        d
    }

    /// With the expected alternatives set.
    pub fn with_expected(self, expected: Vec<String>) -> (d: Self)
        ensures
            d == (Diagnostic { expected, ..self }),
    {
        let mut d = self;
        d.expected = expected;
        d
    }

    /// With what was found set.
    pub fn with_found(self, found: &str) -> (d: Self)
        ensures
            d.found is Some && d.found->0@ == found@,
            d == (Diagnostic { found: d.found, ..self }),
    {
        let mut d = self;
        d.found = Some(String::from_str(found));
        d
    }

    /// With one more related location.
    pub fn with_related(self, message: &str, span: Span) -> (d: Self)
        ensures
            d.related@.len() == self.related@.len() + 1,
            d.related@.drop_last() == self.related@,
            d.related@.last().message@ == message@,
            d.related@.last().span == span,
            d == (Diagnostic { related: d.related, ..self }),
    {
        let mut d = self;
        d.related.push(RelatedDiagnostic { message: String::from_str(message), span });
        proof {
            assert(d.related@.drop_last() =~= self.related@);
        }
        d
    }

    /// Whether this is an error.
    pub fn is_error(&self) -> (b: bool)
        ensures
            b == (self.severity == DiagnosticSeverity::Error),
    {
        match self.severity {
            DiagnosticSeverity::Error => true,
            _ => false,
        }
    }

    /// Whether this is a warning.
    pub fn is_warning(&self) -> (b: bool)
        ensures
            b == (self.severity == DiagnosticSeverity::Warning),
    {
        match self.severity {
            DiagnosticSeverity::Warning => true,
            _ => false,
        }
    }
}

/// Counts of diagnostics by severity.
#[derive(Debug, Clone, Copy, Default, PartialEq, Eq, Structural)]
pub struct DiagnosticCounts {
    pub hints: usize,
    pub infos: usize,
    pub warnings: usize,
    pub errors: usize,
}

impl DiagnosticCounts {
    /// All diagnostics counted.
    pub fn total(&self) -> (n: usize)
        requires
            self.hints + self.infos + self.warnings + self.errors <= usize::MAX,
        ensures
            n == self.hints + self.infos + self.warnings + self.errors,
    {
        self.hints + self.infos + self.warnings + self.errors
    }
}

/// `prefix` followed by the decimal notation of `index`.
pub open spec fn indexed_id(prefix: Seq<char>, index: nat) -> Seq<char> {
    prefix + decimal(index)
}

/// The element id of an edge: `fm-edge-<index>`.
pub fn mermaid_edge_element_id(index: usize) -> (s: String)
    ensures
        s@ == indexed_id("fm-edge-"@, index as nat),
{
    let mut s = String::from_str("fm-edge-");
    push_decimal(&mut s, index as u64);
    s
}

/// The element id of a cluster: `fm-cluster-<index>`.
pub fn mermaid_cluster_element_id(index: usize) -> (s: String)
    ensures
        s@ == indexed_id("fm-cluster-"@, index as nat),
{
    let mut s = String::from_str("fm-cluster-");
    push_decimal(&mut s, index as u64);
    s
}

/// Whether `c` is an ASCII letter or digit.
pub open spec fn is_ascii_alnum(c: char) -> bool {
    ('a' <= c && c <= 'z') || ('A' <= c && c <= 'Z') || ('0' <= c && c <= '9')
}

/// `c` with an ASCII capital turned into its small letter.
pub open spec fn ascii_lower(c: char) -> char {
    if 'A' <= c && c <= 'Z' { ((c as u32) + 32) as char } else { c }
}

pub fn ascii_lower_char(c: char) -> (r: char)
    ensures
        r == ascii_lower(c),
{
    if 'A' <= c && c <= 'Z' {
        let b: u8 = c as u8;
        proof {
            assert(b as u32 == c as u32);
        }
        (b + 32u8) as char
    } else {
        c
    }
}

/// The maximal runs of ASCII letters and digits of `s`, in order, each lowercased.
pub open spec fn alnum_runs(s: Seq<char>) -> Seq<Seq<char>>
    decreases s.len(),
{
    if s.len() == 0 {
        Seq::empty()
    } else {
        let runs = alnum_runs(s.drop_last());
        let c = s.last();
        if !is_ascii_alnum(c) {
            runs
        } else if s.len() >= 2 && is_ascii_alnum(s[s.len() - 2]) {
            runs.update(runs.len() - 1, runs.last().push(ascii_lower(c)))
        } else {
            runs.push(seq![ascii_lower(c)])
        }
    }
}

/// The parts joined with `-` between each two.
pub open spec fn join_with_dash(parts: Seq<Seq<char>>) -> Seq<char>
    decreases parts.len(),
{
    if parts.len() == 0 {
        Seq::empty()
    } else if parts.len() == 1 {
        parts[0]
    } else {
        join_with_dash(parts.drop_last()) + seq!['-'] + parts.last()
    }
}

/// The sanitized element-id fragment of `s`: its runs of ASCII letters and
/// digits, lowercased, joined with `-`.
pub open spec fn element_fragment(s: Seq<char>) -> Seq<char> {
    join_with_dash(alnum_runs(s))
}

/// What the scan of the first `n` characters of `s` has built: the kept letters and
/// digits (lowercased) with one dash for each run of other characters after the
/// first kept one; with whether it ends in such a dash.
spec fn fragment_state(s: Seq<char>, n: nat) -> (Seq<char>, bool)
    decreases n,
{
    if n == 0 {
        (Seq::empty(), false)
    } else {
        let (out, last_dash) = fragment_state(s, (n - 1) as nat);
        let c = s[n - 1];
        if is_ascii_alnum(c) {
            (out.push(ascii_lower(c)), false)
        } else if !last_dash && out.len() > 0 {
            (out.push('-'), true)
        } else {
            (out, last_dash)
        }
    }
}

/// The scan's state in terms of the runs of the prefix it has read.
proof fn lemma_fragment_runs(s: Seq<char>, n: nat)
    requires
        n <= s.len(),
    ensures
        ({
            let (out, last_dash) = fragment_state(s, n);
            let runs = alnum_runs(s.take(n as int));
            &&& last_dash == (runs.len() > 0 && n > 0 && !is_ascii_alnum(s[n - 1]))
            &&& (out.len() > 0) == (runs.len() > 0)
            &&& out == (if last_dash { join_with_dash(runs) + seq!['-'] } else { join_with_dash(runs) })
            &&& (n > 0 && is_ascii_alnum(s[n - 1])) ==> runs.len() > 0
        }),
    decreases n,
{
    if n > 0 {
        let m = (n - 1) as nat;
        lemma_fragment_runs(s, m);
        let t = s.take(n as int);
        assert(t.drop_last() =~= s.take(m as int));
        assert(t.last() == s[m as int]);
        if n >= 2 {
            assert(t[t.len() - 2] == s[n - 2]);
        }
        let r = alnum_runs(s.take(m as int));
        let c = s[m as int];
        if is_ascii_alnum(c) && n >= 2 && is_ascii_alnum(s[n - 2]) {
            let x = ascii_lower(c);
            let r2 = r.update(r.len() - 1, r.last().push(x));
            if r.len() == 1 {
                assert(join_with_dash(r2) == r2[0]);
            } else {
                assert(r2.drop_last() =~= r.drop_last());
            }
            assert(join_with_dash(r2) =~= join_with_dash(r).push(x));
        } else if is_ascii_alnum(c) {
            let x = ascii_lower(c);
            let r2 = r.push(seq![x]);
            assert(r2.drop_last() =~= r);
            if r.len() == 0 {
                assert(join_with_dash(r2) == r2[0]);
                assert(join_with_dash(r2) =~= Seq::<char>::empty().push(x));
            } else {
                assert(join_with_dash(r2) =~= join_with_dash(r) + seq!['-'] + seq![x]);
                assert(join_with_dash(r2) =~= (join_with_dash(r) + seq!['-']).push(x));
            }
        }
    }
}

fn element_fragment_exec(raw: &str) -> (r: Vec<char>)
    ensures
        r@ == element_fragment(raw@),
{
    let chars = crate::text::chars_of(raw);
    let mut out: Vec<char> = Vec::new();
    let mut last_was_dash = false;
    let mut i: usize = 0;
    while i < chars.len()
        invariant
            chars@ == raw@,
            i <= chars.len(),
            (out@, last_was_dash) == fragment_state(raw@, i as nat),
        decreases chars.len() - i,
    {
        let ch = chars[i];
        if ('a' <= ch && ch <= 'z') || ('A' <= ch && ch <= 'Z') || ('0' <= ch && ch <= '9') {
            out.push(ascii_lower_char(ch));
            last_was_dash = false;
        } else if !last_was_dash && out.len() > 0 {
            out.push('-');
            last_was_dash = true;
        }
        i = i + 1;
    }
    assert(i == raw@.len());
    assert((out@, last_was_dash) == fragment_state(raw@, raw@.len()));
    proof {
        lemma_fragment_runs(raw@, raw@.len());
        assert(raw@.take(raw@.len() as int) =~= raw@);
    }
    if last_was_dash {
        let ghost before = out@;
        let _ = out.pop();
        assert(out@ == before.drop_last());
    }
    out
}

/// The element id of a node: `fm-node-<fragment>-<index>`, or `fm-node-<index>` when
/// the id leaves an empty fragment.
pub open spec fn node_id_text(node_id: Seq<char>, index: nat) -> Seq<char> {
    let f = element_fragment(node_id);
    if f.len() == 0 {
        "fm-node-"@ + decimal(index)
    } else {
        "fm-node-"@ + f + seq!['-'] + decimal(index)
    }
}

/// The element id of a node, with `-<variant fragment>` appended when the variant
/// leaves a non-empty fragment.
pub open spec fn node_variant_id_text(node_id: Seq<char>, index: nat, variant: Option<Seq<char>>) -> Seq<char> {
    match variant {
        Some(v) => if element_fragment(v).len() > 0 {
            node_id_text(node_id, index) + seq!['-'] + element_fragment(v)
        } else {
            node_id_text(node_id, index)
        },
        None => node_id_text(node_id, index),
    }
}

fn append_chars(s: &mut String, v: &Vec<char>)
    ensures
        final(s)@ == old(s)@ + v@,
{
    let mut i: usize = 0;
    while i < v.len()
        invariant
            i <= v.len(),
            s@ == old(s)@ + v@.take(i as int),
        decreases v.len() - i,
    {
        push_char(s, v[i]);
        proof {
            assert(v@.take(i + 1) =~= v@.take(i as int).push(v@[i as int]));
        }
        i = i + 1;
    }
    proof {
        assert(v@.take(i as int) =~= v@);
    }
}

/// The element id of a node.
pub fn mermaid_node_element_id(node_id: &str, index: usize) -> (s: String)
    ensures
        s@ == node_id_text(node_id@, index as nat),
{
    mermaid_node_element_id_with_variant(node_id, index, None)
}

/// The element id of a node, optionally qualified by a variant.
pub fn mermaid_node_element_id_with_variant(node_id: &str, index: usize, variant: Option<&str>) -> (s: String)
    ensures
        s@ == node_variant_id_text(node_id@, index as nat, match variant { Some(v) => Some(v@), None => None }),
{
    let fragment = element_fragment_exec(node_id);
    let mut id = String::from_str("fm-node-");
    if fragment.len() == 0 {
        push_decimal(&mut id, index as u64);
    } else {
        append_chars(&mut id, &fragment);
        push_char(&mut id, '-');
        push_decimal(&mut id, index as u64);
    }
    let ghost base = id@;
    proof {
        assert(base =~= node_id_text(node_id@, index as nat));
    }
    match variant {
        Some(v) => {
            let vf = element_fragment_exec(v);
            if vf.len() > 0 {
                push_char(&mut id, '-');
                append_chars(&mut id, &vf);
                proof {
                    assert(id@ =~= base + seq!['-'] + vf@);
                }
            }
        },
        None => {},
    }
    id
}

} // verus!
