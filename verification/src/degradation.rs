//! Graceful degradation: which quality-reducing operators apply under budget and
//! pressure violations, in a fixed cheapest-first order.
use vstd::prelude::*;
use vstd::string::StringExecFns;
use crate::pressure::{MermaidPressureTier, texts};
use crate::taxonomy::MermaidGlyphMode;

verus! {

/// Target level of detail.
#[derive(Debug, Clone, Copy, PartialEq, Eq, Default, Structural)]
pub enum MermaidFidelity {
    Rich,
    #[default]
    Normal,
    Compact,
    Outline,
}

/// User-selectable bias of the degradation thresholds.
#[derive(Debug, Clone, Copy, PartialEq, Eq, Default, Structural)]
pub enum MermaidQualityMode {
    /// Full quality, no degradation even under pressure.
    QualityFirst,
    /// Degrade when budgets are exceeded.
    #[default]
    Auto,
    /// Trade quality for speed when pressure is elevated or higher.
    Balanced,
    /// Aggressively degrade to minimize latency.
    LatencyFirst,
}

impl MermaidQualityMode {
    /// The mode's name.
    pub open spec fn mode_text(self) -> Seq<char> {
        match self {
            MermaidQualityMode::QualityFirst => "quality-first"@,
            MermaidQualityMode::Auto => "auto"@,
            MermaidQualityMode::Balanced => "balanced"@,
            MermaidQualityMode::LatencyFirst => "latency-first"@,
        }
    }

    /// The mode's name.
    pub fn as_str(self) -> (s: &'static str)
        ensures
            s@ == self.mode_text(),
    {
        match self {
            MermaidQualityMode::QualityFirst => "quality-first",
            MermaidQualityMode::Auto => "auto",
            MermaidQualityMode::Balanced => "balanced",
            MermaidQualityMode::LatencyFirst => "latency-first",
        }
    }
}

/// The degradation applied to one rendering.
#[derive(Debug, Clone, Copy, PartialEq, Eq, Default, Structural)]
pub struct MermaidDegradationPlan {
    pub target_fidelity: MermaidFidelity,
    pub hide_labels: bool,
    pub collapse_clusters: bool,
    pub simplify_routing: bool,
    pub reduce_decoration: bool,
    pub force_glyph_mode: Option<MermaidGlyphMode>,
}

/// The plan that degrades nothing.
pub open spec fn no_degradation() -> MermaidDegradationPlan {
    MermaidDegradationPlan {
        target_fidelity: MermaidFidelity::Normal,
        hide_labels: false,
        collapse_clusters: false,
        simplify_routing: false,
        reduce_decoration: false,
        force_glyph_mode: None,
    }
}

fn plain_plan() -> (p: MermaidDegradationPlan)
    ensures
        p == no_degradation(),
{
    MermaidDegradationPlan {
        target_fidelity: MermaidFidelity::Normal,
        hide_labels: false,
        collapse_clusters: false,
        simplify_routing: false,
        reduce_decoration: false,
        force_glyph_mode: None,
    }
}

impl MermaidDegradationPlan {
    /// Some operator is active: fidelity below normal, or any flag or forced glyphs.
    pub open spec fn degraded(self) -> bool {
        !(self.target_fidelity == MermaidFidelity::Normal || self.target_fidelity == MermaidFidelity::Rich)
            || self.hide_labels || self.collapse_clusters || self.simplify_routing || self.reduce_decoration
            || self.force_glyph_mode is Some
    }

    /// Whether any degradation operator is active.
    pub fn is_degraded(&self) -> (b: bool)
        ensures
            b == self.degraded(),
    {
        let low_fidelity = match self.target_fidelity {
            MermaidFidelity::Normal | MermaidFidelity::Rich => false,
            _ => true,
        };
        low_fidelity || self.hide_labels || self.collapse_clusters || self.simplify_routing || self.reduce_decoration
            || self.force_glyph_mode.is_some()
    }

    /// The explanation lines of a plan.
    pub open spec fn explanation(self) -> Seq<Seq<char>> {
        if !self.degraded() {
            seq!["No degradation applied; rendering at full quality."@]
        } else {
            let s0: Seq<Seq<char>> = seq!["Degraded rendering active:"@];
            let s1 = if self.reduce_decoration { s0.push("  - Decoration reduced: shadows, gradients, and glow effects disabled."@) } else { s0 };
            let s2 = if self.simplify_routing { s1.push("  - Edge routing simplified to reduce layout computation."@) } else { s1 };
            let s3 = if self.force_glyph_mode is Some { s2.push("  - Terminal output forced to ASCII glyphs for faster rendering."@) } else { s2 };
            let s4 = match self.target_fidelity {
                MermaidFidelity::Compact => s3.push("  - Fidelity downgraded to Compact (reduced detail)."@),
                MermaidFidelity::Outline => s3.push("  - Fidelity downgraded to Outline (skeleton only)."@),
                _ => s3,
            };
            let s5 = if self.collapse_clusters { s4.push("  - Cluster/subgraph boundaries collapsed."@) } else { s4 };
            let s6 = if self.hide_labels { s5.push("  - Non-essential labels hidden."@) } else { s5 };
            s6.push("Remediation: reduce diagram complexity, lower pressure (close competing processes), or use --quality-mode=quality-first to force full quality."@)
        }
    }

    /// A human-readable explanation of what degradation was applied.
    pub fn explain(&self) -> (lines: Vec<String>)
        ensures
            texts(lines@) == self.explanation(),
    {
        let mut lines: Vec<String> = Vec::new();
        if !self.is_degraded() {
            lines.push(String::from_str("No degradation applied; rendering at full quality."));
            proof {
                assert(texts(lines@) =~= self.explanation());
            }
            return lines;
        }
        lines.push(String::from_str("Degraded rendering active:"));
        if self.reduce_decoration {
            lines.push(String::from_str("  - Decoration reduced: shadows, gradients, and glow effects disabled."));
        }
        if self.simplify_routing {
            lines.push(String::from_str("  - Edge routing simplified to reduce layout computation."));
        }
        if self.force_glyph_mode.is_some() {
            lines.push(String::from_str("  - Terminal output forced to ASCII glyphs for faster rendering."));
        }
        match self.target_fidelity {
            MermaidFidelity::Compact => {
                lines.push(String::from_str("  - Fidelity downgraded to Compact (reduced detail)."));
            },
            MermaidFidelity::Outline => {
                lines.push(String::from_str("  - Fidelity downgraded to Outline (skeleton only)."));
            },
            _ => {},
        }
        if self.collapse_clusters {
            lines.push(String::from_str("  - Cluster/subgraph boundaries collapsed."));
        }
        if self.hide_labels {
            lines.push(String::from_str("  - Non-essential labels hidden."));
        }
        lines.push(String::from_str(
            "Remediation: reduce diagram complexity, lower pressure (close competing processes), or use --quality-mode=quality-first to force full quality.",
        ));
        proof {
            assert(texts(lines@) =~= self.explanation());
        }
        lines
    }
}

/// A quality-reducing operator; operators apply cheapest first.
#[derive(Debug, Clone, Copy, PartialEq, Eq, Hash, Structural)]
pub enum DegradationOperator {
    /// Disable gradient fills and drop shadows.
    ReduceDecoration,
    /// Switch edge routing to simplified straight lines.
    SimplifyRouting,
    /// Force ASCII glyph mode in terminal rendering.
    ForceAsciiGlyphs,
    /// Drop fidelity from Rich/Normal to Compact.
    DowngradeToCompact,
    /// Collapse cluster/subgraph boundaries.
    CollapseClusters,
    /// Elide non-essential labels.
    HideLabels,
    /// Drop fidelity to Outline.
    DowngradeToOutline,
}

/// The operators in canonical order.
pub open spec fn operator_order() -> Seq<DegradationOperator> {
    seq![
        DegradationOperator::ReduceDecoration,
        DegradationOperator::SimplifyRouting,
        DegradationOperator::ForceAsciiGlyphs,
        DegradationOperator::DowngradeToCompact,
        DegradationOperator::CollapseClusters,
        DegradationOperator::HideLabels,
        DegradationOperator::DowngradeToOutline,
    ]
}

impl DegradationOperator {
    /// Position in the canonical order.
    pub open spec fn rank(self) -> u8 {
        match self {
            DegradationOperator::ReduceDecoration => 0,
            DegradationOperator::SimplifyRouting => 1,
            DegradationOperator::ForceAsciiGlyphs => 2,
            DegradationOperator::DowngradeToCompact => 3,
            DegradationOperator::CollapseClusters => 4,
            DegradationOperator::HideLabels => 5,
            DegradationOperator::DowngradeToOutline => 6,
        }
    }

    /// Position in the canonical order (lower applies first).
    pub fn ordinal(self) -> (r: u8)
        ensures
            r == self.rank(),
    {
        match self {
            DegradationOperator::ReduceDecoration => 0,
            DegradationOperator::SimplifyRouting => 1,
            DegradationOperator::ForceAsciiGlyphs => 2,
            DegradationOperator::DowngradeToCompact => 3,
            DegradationOperator::CollapseClusters => 4,
            DegradationOperator::HideLabels => 5,
            DegradationOperator::DowngradeToOutline => 6,
        }
    }

    /// All operators in canonical order (cheapest first).
    pub fn all_in_order() -> (ops: [Self; 7])
        ensures
            ops@ == operator_order(),
    {
        let ops = [
            DegradationOperator::ReduceDecoration,
            DegradationOperator::SimplifyRouting,
            DegradationOperator::ForceAsciiGlyphs,
            DegradationOperator::DowngradeToCompact,
            DegradationOperator::CollapseClusters,
            DegradationOperator::HideLabels,
            DegradationOperator::DowngradeToOutline,
        ];
        proof {
            assert(ops@ =~= operator_order());
        }
        ops
    }

    /// The plan after applying this operator.
    pub open spec fn applied_to(self, plan: MermaidDegradationPlan) -> MermaidDegradationPlan {
        match self {
            DegradationOperator::ReduceDecoration => MermaidDegradationPlan { reduce_decoration: true, ..plan },
            DegradationOperator::SimplifyRouting => MermaidDegradationPlan { simplify_routing: true, ..plan },
            DegradationOperator::ForceAsciiGlyphs => MermaidDegradationPlan { force_glyph_mode: Some(MermaidGlyphMode::Ascii), ..plan },
            DegradationOperator::DowngradeToCompact => if plan.target_fidelity == MermaidFidelity::Rich
                || plan.target_fidelity == MermaidFidelity::Normal {
                MermaidDegradationPlan { target_fidelity: MermaidFidelity::Compact, ..plan }
            } else {
                plan
            },
            DegradationOperator::CollapseClusters => MermaidDegradationPlan { collapse_clusters: true, ..plan },
            DegradationOperator::HideLabels => MermaidDegradationPlan { hide_labels: true, ..plan },
            DegradationOperator::DowngradeToOutline => MermaidDegradationPlan { target_fidelity: MermaidFidelity::Outline, ..plan },
        }
    }

    /// Apply this operator to a plan.
    pub fn apply(self, plan: &mut MermaidDegradationPlan)
        ensures
            *final(plan) == self.applied_to(*old(plan)),
    {
        match self {
            DegradationOperator::ReduceDecoration => plan.reduce_decoration = true,
            DegradationOperator::SimplifyRouting => plan.simplify_routing = true,
            DegradationOperator::ForceAsciiGlyphs => {
                plan.force_glyph_mode = Some(MermaidGlyphMode::Ascii);
            },
            DegradationOperator::DowngradeToCompact => {
                match plan.target_fidelity {
                    MermaidFidelity::Rich | MermaidFidelity::Normal => {
                        plan.target_fidelity = MermaidFidelity::Compact;
                    },
                    _ => {},
                }
            },
            DegradationOperator::CollapseClusters => plan.collapse_clusters = true,
            DegradationOperator::HideLabels => plan.hide_labels = true,
            DegradationOperator::DowngradeToOutline => {
                plan.target_fidelity = MermaidFidelity::Outline;
            },
        }
    }
}

/// The signals that select degradation operators.
#[derive(Debug, Clone, Copy, PartialEq, Eq, Default, Structural)]
pub struct DegradationContext {
    pub pressure_tier: MermaidPressureTier,
    pub route_budget_exceeded: bool,
    pub layout_budget_exceeded: bool,
    pub time_budget_exceeded: bool,
    pub node_limit_exceeded: bool,
    pub edge_limit_exceeded: bool,
}

impl DegradationContext {
    /// Some budget (route, layout or time) is exceeded.
    pub open spec fn any_budget_exceeded(self) -> bool {
        self.route_budget_exceeded || self.layout_budget_exceeded || self.time_budget_exceeded
    }

    /// Whether an operator is triggered by these signals.
    pub open spec fn triggers(self, op: DegradationOperator) -> bool {
        match op {
            DegradationOperator::ReduceDecoration => self.any_budget_exceeded()
                || self.pressure_tier == MermaidPressureTier::High || self.pressure_tier == MermaidPressureTier::Critical,
            DegradationOperator::SimplifyRouting => self.route_budget_exceeded,
            DegradationOperator::ForceAsciiGlyphs => self.any_budget_exceeded(),
            DegradationOperator::DowngradeToCompact => self.any_budget_exceeded(),
            DegradationOperator::CollapseClusters => self.node_limit_exceeded && self.any_budget_exceeded(),
            DegradationOperator::HideLabels => self.node_limit_exceeded && self.time_budget_exceeded,
            DegradationOperator::DowngradeToOutline => self.pressure_tier == MermaidPressureTier::Critical
                && self.time_budget_exceeded,
        }
    }

    fn should_apply(&self, op: DegradationOperator) -> (b: bool)
        ensures
            b == self.triggers(op),
    {
        let any_budget_exceeded = self.route_budget_exceeded || self.layout_budget_exceeded || self.time_budget_exceeded;
        match op {
            DegradationOperator::ReduceDecoration => any_budget_exceeded || match self.pressure_tier {
                MermaidPressureTier::High | MermaidPressureTier::Critical => true,
                _ => false,
            },
            DegradationOperator::SimplifyRouting => self.route_budget_exceeded,
            DegradationOperator::ForceAsciiGlyphs | DegradationOperator::DowngradeToCompact => any_budget_exceeded,
            DegradationOperator::CollapseClusters => self.node_limit_exceeded && any_budget_exceeded,
            DegradationOperator::HideLabels => self.node_limit_exceeded && self.time_budget_exceeded,
            DegradationOperator::DowngradeToOutline => match self.pressure_tier {
                MermaidPressureTier::Critical => self.time_budget_exceeded,
                _ => false,
            },
        }
    }

    /// The triggered operators among the first `k` in canonical order, in that order.
    pub open spec fn triggered_prefix(self, k: nat) -> Seq<DegradationOperator>
        decreases k,
    {
        if k == 0 {
            Seq::empty()
        } else {
            let before = self.triggered_prefix((k - 1) as nat);
            let op = operator_order()[k - 1];
            if self.triggers(op) { before.push(op) } else { before }
        }
    }

    /// The triggered operators in canonical order.
    pub open spec fn triggered(self) -> Seq<DegradationOperator> {
        self.triggered_prefix(7)
    }
}

/// The plan after applying `ops` in order to `plan`.
pub open spec fn apply_all(ops: Seq<DegradationOperator>, plan: MermaidDegradationPlan) -> MermaidDegradationPlan
    decreases ops.len(),
{
    if ops.len() == 0 {
        plan
    } else {
        ops.last().applied_to(apply_all(ops.drop_last(), plan))
    }
}

/// The plan of a context: its triggered operators applied in canonical order to the
/// plan that degrades nothing.
pub open spec fn plan_of(ctx: DegradationContext) -> MermaidDegradationPlan {
    apply_all(ctx.triggered(), no_degradation())
}

/// Select the triggered operators in canonical order and apply them; also return the
/// operators applied, in that order.
pub fn compute_degradation_plan_with_trace(ctx: &DegradationContext) -> (r: (MermaidDegradationPlan, Vec<DegradationOperator>))
    ensures
        r.1@ == ctx.triggered(),
        r.0 == plan_of(*ctx),
{
    let mut plan = plain_plan();
    let mut applied: Vec<DegradationOperator> = Vec::new();
    let ops = DegradationOperator::all_in_order();
    let mut i: usize = 0;
    while i < 7
        invariant
            i <= 7,
            ops@ == operator_order(),
            applied@ == ctx.triggered_prefix(i as nat),
            plan == apply_all(applied@, no_degradation()),
        decreases 7 - i,
    {
        let op = ops[i];
        if ctx.should_apply(op) {
            op.apply(&mut plan);
            applied.push(op);
            proof {
                assert(applied@.drop_last() =~= ctx.triggered_prefix(i as nat));
            }
        }
        i = i + 1;
    }
    (plan, applied)
}

/// Select the triggered operators in canonical order and apply them.
pub fn compute_degradation_plan(ctx: &DegradationContext) -> (plan: MermaidDegradationPlan)
    ensures
        plan == plan_of(*ctx),
{
    let (plan, _applied) = compute_degradation_plan_with_trace(ctx);
    plan
}

} // verus!

verus! {

/// Nothing exceeded and pressure below high: no operator applies and the plan degrades
/// nothing.
pub proof fn law_nominal_context_no_degradation(ctx: DegradationContext)
    requires
        !ctx.route_budget_exceeded,
        !ctx.layout_budget_exceeded,
        !ctx.time_budget_exceeded,
        ctx.pressure_tier != MermaidPressureTier::High,
        ctx.pressure_tier != MermaidPressureTier::Critical,
    ensures
        ctx.triggered().len() == 0,
        plan_of(ctx) == no_degradation(),
        !plan_of(ctx).degraded(),
{
    reveal_with_fuel(DegradationContext::triggered_prefix, 8);
}

/// Applying any operator leaves a degraded plan.
pub proof fn lemma_applied_is_degraded(op: DegradationOperator, plan: MermaidDegradationPlan)
    ensures
        op.applied_to(plan).degraded(),
{
}

/// Applying a non-empty list of operators to any plan leaves it degraded; applying none
/// leaves it unchanged.
pub proof fn lemma_apply_all_degraded(ops: Seq<DegradationOperator>, plan: MermaidDegradationPlan)
    ensures
        ops.len() > 0 ==> apply_all(ops, plan).degraded(),
        ops.len() == 0 ==> apply_all(ops, plan) == plan,
{
    if ops.len() > 0 {
        lemma_applied_is_degraded(ops.last(), apply_all(ops.drop_last(), plan));
    }
}

/// A plan is degraded exactly when some operator was triggered.
pub proof fn law_degraded_iff_triggered(ctx: DegradationContext)
    ensures
        plan_of(ctx).degraded() <==> ctx.triggered().len() > 0,
{
    lemma_apply_all_degraded(ctx.triggered(), no_degradation());
}

/// The canonical order lists each operator once, by strictly increasing ordinal.
pub proof fn law_operator_order_ascending()
    ensures
        operator_order().len() == 7,
        forall|i: int, j: int| 0 <= i < j < 7 ==> (#[trigger] operator_order()[i]).rank() < (#[trigger] operator_order()[j]).rank(),
        forall|i: int| 0 <= i < 7 ==> (#[trigger] operator_order()[i]).rank() == i,
{
}

} // verus!

verus! {

/// One more operator of the canonical order, applied when triggered.
proof fn lemma_plan_step(ctx: DegradationContext, k: nat)
    requires
        1 <= k <= 7,
    ensures
        apply_all(ctx.triggered_prefix(k), no_degradation()) == (if ctx.triggers(operator_order()[k - 1]) {
            operator_order()[k - 1].applied_to(apply_all(ctx.triggered_prefix((k - 1) as nat), no_degradation()))
        } else {
            apply_all(ctx.triggered_prefix((k - 1) as nat), no_degradation())
        }),
{
    let before = ctx.triggered_prefix((k - 1) as nat);
    let op = operator_order()[k - 1];
    if ctx.triggers(op) {
        assert(ctx.triggered_prefix(k) == before.push(op));
        assert(before.push(op).drop_last() =~= before);
    }
}

/// An operator is among the triggered ones of the first `k` exactly when it is one of
/// the first `k` of the canonical order and the context triggers it.
proof fn lemma_prefix_contains(ctx: DegradationContext, k: nat, op: DegradationOperator)
    requires
        k <= 7,
    ensures
        ctx.triggered_prefix(k).contains(op) <==> (exists|j: int| 0 <= j < k && operator_order()[j] == op) && ctx.triggers(op),
    decreases k,
{
    if k > 0 {
        lemma_prefix_contains(ctx, (k - 1) as nat, op);
        let before = ctx.triggered_prefix((k - 1) as nat);
        let o = operator_order()[k - 1];
        if ctx.triggers(o) {
            assert(ctx.triggered_prefix(k) == before.push(o));
            if before.push(o).contains(op) && op != o {
                let i = choose|i: int| 0 <= i < before.push(o).len() && before.push(o)[i] == op;
                assert(before[i] == op);
            }
            if before.contains(op) {
                let i = choose|i: int| 0 <= i < before.len() && before[i] == op;
                assert(before.push(o)[i] == op);
            }
            if op == o {
                assert(before.push(o)[before.len() as int] == o);
            }
        }
        if exists|j: int| 0 <= j < k && operator_order()[j] == op {
            let j = choose|j: int| 0 <= j < k && operator_order()[j] == op;
            if j < k - 1 {
                assert(exists|j2: int| 0 <= j2 < k - 1 && operator_order()[j2] == op);
            }
        }
    }
}

/// What the plan of a context holds, field by field, in terms of its signals: labels
/// are hidden only when the node limit and the time budget are both exceeded; clusters
/// collapse when the node limit and some budget are exceeded; routing is simplified
/// when the route budget is; decoration is reduced when some budget is exceeded or
/// pressure is high or critical; glyphs are forced to ASCII when some budget is
/// exceeded; fidelity drops to outline under critical pressure with the time budget
/// exceeded, else to compact when some budget is exceeded. The applied operators are
/// exactly those whose signals hold, stated the same way for each operator.
pub proof fn law_plan_by_signals(ctx: DegradationContext)
    ensures
        plan_of(ctx).hide_labels == (ctx.node_limit_exceeded && ctx.time_budget_exceeded),
        ctx.triggered().contains(DegradationOperator::HideLabels) == (ctx.node_limit_exceeded && ctx.time_budget_exceeded),
        ctx.triggered().contains(DegradationOperator::ReduceDecoration) == (ctx.route_budget_exceeded || ctx.layout_budget_exceeded
            || ctx.time_budget_exceeded || ctx.pressure_tier == MermaidPressureTier::High
            || ctx.pressure_tier == MermaidPressureTier::Critical),
        ctx.triggered().contains(DegradationOperator::SimplifyRouting) == ctx.route_budget_exceeded,
        ctx.triggered().contains(DegradationOperator::ForceAsciiGlyphs) == (ctx.route_budget_exceeded || ctx.layout_budget_exceeded
            || ctx.time_budget_exceeded),
        ctx.triggered().contains(DegradationOperator::DowngradeToCompact) == (ctx.route_budget_exceeded || ctx.layout_budget_exceeded
            || ctx.time_budget_exceeded),
        ctx.triggered().contains(DegradationOperator::CollapseClusters) == (ctx.node_limit_exceeded
            && (ctx.route_budget_exceeded || ctx.layout_budget_exceeded || ctx.time_budget_exceeded)),
        ctx.triggered().contains(DegradationOperator::DowngradeToOutline) == (ctx.pressure_tier == MermaidPressureTier::Critical
            && ctx.time_budget_exceeded),
        plan_of(ctx).collapse_clusters == (ctx.node_limit_exceeded
            && (ctx.route_budget_exceeded || ctx.layout_budget_exceeded || ctx.time_budget_exceeded)),
        plan_of(ctx).simplify_routing == ctx.route_budget_exceeded,
        plan_of(ctx).reduce_decoration == (ctx.route_budget_exceeded || ctx.layout_budget_exceeded || ctx.time_budget_exceeded
            || ctx.pressure_tier == MermaidPressureTier::High || ctx.pressure_tier == MermaidPressureTier::Critical),
        plan_of(ctx).force_glyph_mode == (if ctx.route_budget_exceeded || ctx.layout_budget_exceeded || ctx.time_budget_exceeded {
            Some(MermaidGlyphMode::Ascii)
        } else {
            None
        }),
        plan_of(ctx).target_fidelity == (if ctx.pressure_tier == MermaidPressureTier::Critical && ctx.time_budget_exceeded {
            MermaidFidelity::Outline
        } else if ctx.route_budget_exceeded || ctx.layout_budget_exceeded || ctx.time_budget_exceeded {
            MermaidFidelity::Compact
        } else {
            MermaidFidelity::Normal
        }),
{
    let nd = no_degradation();
    lemma_plan_step(ctx, 1);
    lemma_plan_step(ctx, 2);
    lemma_plan_step(ctx, 3);
    lemma_plan_step(ctx, 4);
    lemma_plan_step(ctx, 5);
    lemma_plan_step(ctx, 6);
    lemma_plan_step(ctx, 7);
    assert(ctx.triggered_prefix(0) == Seq::<DegradationOperator>::empty());
    assert(apply_all(ctx.triggered_prefix(0), nd) == nd);
    lemma_prefix_contains(ctx, 7, DegradationOperator::ReduceDecoration);
    lemma_prefix_contains(ctx, 7, DegradationOperator::SimplifyRouting);
    lemma_prefix_contains(ctx, 7, DegradationOperator::ForceAsciiGlyphs);
    lemma_prefix_contains(ctx, 7, DegradationOperator::DowngradeToCompact);
    lemma_prefix_contains(ctx, 7, DegradationOperator::CollapseClusters);
    lemma_prefix_contains(ctx, 7, DegradationOperator::HideLabels);
    lemma_prefix_contains(ctx, 7, DegradationOperator::DowngradeToOutline);
    assert(operator_order()[0] == DegradationOperator::ReduceDecoration);
    assert(operator_order()[1] == DegradationOperator::SimplifyRouting);
    assert(operator_order()[2] == DegradationOperator::ForceAsciiGlyphs);
    assert(operator_order()[3] == DegradationOperator::DowngradeToCompact);
    assert(operator_order()[4] == DegradationOperator::CollapseClusters);
    assert(operator_order()[5] == DegradationOperator::HideLabels);
    assert(operator_order()[6] == DegradationOperator::DowngradeToOutline);
}

} // verus!
