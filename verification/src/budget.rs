//! The time budget broker: splits a global budget over parse, layout and render,
//! rebalances after parsing, and keeps an audit trail of its decisions.
use vstd::prelude::*;
use vstd::string::StringExecFns;
use crate::pressure::{MermaidPressureReport, MermaidPressureTier, texts};

verus! {

/// `a - b`, or 0 when `b > a`.
pub open spec fn sat_sub(a: u64, b: u64) -> u64 {
    if a >= b { (a - b) as u64 } else { 0 }
}

/// `a + b`, or `u64::MAX` when the sum does not fit.
pub open spec fn sat_add(a: u64, b: u64) -> u64 {
    if a + b <= u64::MAX { (a + b) as u64 } else { u64::MAX }
}

/// `x / d` rounded up.
pub open spec fn ceil_div(x: u64, d: u64) -> u64
    recommends
        d > 0,
{
    (x / d + if x % d == 0 { 0u64 } else { 1u64 }) as u64
}

fn ceil_div_exec(x: u64, d: u64) -> (r: u64)
    requires
        d > 1,
    ensures
        r == ceil_div(x, d),
{
    let q = x / d;
    proof {
        assert(q <= x / 1) by (nonlinear_arith)
            requires
                d > 1,
                q == x / d,
        ;
        assert(x / 1 == x);
        assert(q < u64::MAX) by (nonlinear_arith)
            requires
                d > 1,
                q == x / d,
                x <= u64::MAX,
        ;
    }
    if x % d == 0 { q } else { q + 1 }
}

fn sat_sub_exec(a: u64, b: u64) -> (r: u64)
    ensures
        r == sat_sub(a, b),
{
    if a >= b { a - b } else { 0 }
}

fn sat_add_exec(a: u64, b: u64) -> (r: u64)
    ensures
        r == sat_add(a, b),
{
    match a.checked_add(b) {
        Some(s) => s,
        None => u64::MAX,
    }
}

/// Budget of one stage.
#[derive(Debug, Clone, PartialEq, Eq)]
pub struct MermaidStageBudgetLedger {
    pub stage: String,
    pub allocated_ms: u64,
    pub used_ms: u64,
    pub remaining_ms: u64,
    pub exceeded: bool,
}

impl MermaidStageBudgetLedger {
    /// A fresh stage budget: nothing used, everything remaining.
    pub fn new(stage: &str, allocated_ms: u64) -> (s: Self)
        ensures
            s.stage@ == stage@,
            s.allocated_ms == allocated_ms,
            s.used_ms == 0,
            s.remaining_ms == allocated_ms,
            !s.exceeded,
    {
        MermaidStageBudgetLedger {
            stage: String::from_str(stage),
            allocated_ms,
            used_ms: 0,
            remaining_ms: allocated_ms,
            exceeded: false,
        }
    }

    /// Record the time the stage used.
    pub fn consume(&mut self, used_ms: u64)
        ensures
            final(self).stage == old(self).stage,
            final(self).allocated_ms == old(self).allocated_ms,
            final(self).used_ms == used_ms,
            final(self).remaining_ms == sat_sub(old(self).allocated_ms, used_ms),
            final(self).exceeded == (used_ms > old(self).allocated_ms),
    {
        self.used_ms = used_ms;
        self.remaining_ms = sat_sub_exec(self.allocated_ms, used_ms);
        self.exceeded = used_ms > self.allocated_ms;
    }
}

/// The contents of a budget event: kind, stage, allocated, used, remaining, remaining
/// total, exceeded, note.
pub type BudgetEventView = (Seq<char>, Option<Seq<char>>, Option<u64>, Option<u64>, Option<u64>, u64, bool, Option<Seq<char>>);

/// The contents of an optional string.
pub open spec fn opt_text(s: Option<String>) -> Option<Seq<char>> {
    match s {
        Some(t) => Some(t@),
        None => None,
    }
}

/// One entry of the broker's audit trail.
#[derive(Debug, Clone, PartialEq, Eq)]
pub struct MermaidBudgetEvent {
    pub kind: String,
    pub stage: Option<String>,
    pub allocated_ms: Option<u64>,
    pub used_ms: Option<u64>,
    pub remaining_ms: Option<u64>,
    pub remaining_total_ms: u64,
    pub exceeded: bool,
    pub note: Option<String>,
}

impl View for MermaidBudgetEvent {
    type V = BudgetEventView;

    open spec fn view(&self) -> BudgetEventView {
        (self.kind@, opt_text(self.stage), self.allocated_ms, self.used_ms, self.remaining_ms,
            self.remaining_total_ms, self.exceeded, opt_text(self.note))
    }
}

/// The contents of a trail of events.
pub open spec fn event_views(events: Seq<MermaidBudgetEvent>) -> Seq<BudgetEventView> {
    events.map_values(|e: MermaidBudgetEvent| e@)
}

/// An event about one stage.
pub open spec fn stage_event(kind: Seq<char>, s: MermaidStageBudgetLedger, remaining_total: u64, note: Option<Seq<char>>) -> BudgetEventView {
    (kind, Some(s.stage@), Some(s.allocated_ms), Some(s.used_ms), Some(s.remaining_ms), remaining_total, s.exceeded, note)
}

/// A stage budget with the given name and allocation, nothing used.
pub open spec fn fresh_stage(s: MermaidStageBudgetLedger, name: Seq<char>, allocated: u64) -> bool {
    s.stage@ == name && s.allocated_ms == allocated && s.used_ms == 0 && s.remaining_ms == allocated && !s.exceeded
}

/// The note recorded when telemetry is unavailable.
pub open spec fn conservative_note() -> Seq<char> {
    "telemetry unavailable; broker used conservative global budget defaults"@
}

/// Global budget of each pressure tier.
pub open spec fn tier_budget(tier: MermaidPressureTier) -> u64 {
    match tier {
        MermaidPressureTier::Unknown | MermaidPressureTier::High => 120,
        MermaidPressureTier::Nominal => 250,
        MermaidPressureTier::Elevated => 180,
        MermaidPressureTier::Critical => 80,
    }
}

/// `default_budget` scaled by `allocated / baseline` (each at least 1), rounded up, and
/// kept between 1 and `usize::MAX`.
pub open spec fn scaled_budget(default_budget: usize, allocated_ms: u64, baseline_ms: u64) -> usize {
    let a: int = if allocated_ms > 0 { allocated_ms as int } else { 1 };
    let b: int = if baseline_ms > 0 { baseline_ms as int } else { 1 };
    let n = default_budget * a;
    let q = n / b + if n % b == 0 { 0int } else { 1int };
    (if q < 1 { 1 } else if q > usize::MAX { usize::MAX as int } else { q }) as usize
}

/// Scale a default budget by the allocated share of a baseline.
pub fn scale_budget(default_budget: usize, allocated_ms: u64, baseline_ms: u64) -> (r: usize)
    ensures
        r == scaled_budget(default_budget, allocated_ms, baseline_ms),
{
    let a: u128 = if allocated_ms > 0 { allocated_ms as u128 } else { 1 };
    let b: u128 = if baseline_ms > 0 { baseline_ms as u128 } else { 1 };
    let d: u128 = default_budget as u128;
    proof {
        assert(d * a <= u128::MAX) by (nonlinear_arith)
            requires
                d <= u64::MAX,
                a <= u64::MAX,
        ;
    }
    let n: u128 = d * a;
    let q: u128 = n / b;
    proof {
        assert(q <= n) by (nonlinear_arith)
            requires
                b >= 1,
                q == n / b,
        ;
        assert(n <= u64::MAX * u64::MAX) by (nonlinear_arith)
            requires
                d <= u64::MAX,
                a <= u64::MAX,
                n == d * a,
        ;
    }
    let c: u128 = if n % b == 0 { q } else { q + 1 };
    if c < 1 {
        1
    } else if c > usize::MAX as u128 {
        usize::MAX
    } else {
        c as usize
    }
}

/// The global budget broker.
#[derive(Debug, Clone, PartialEq, Eq)]
pub struct MermaidBudgetLedger {
    pub arbitration_policy: String,
    pub total_budget_ms: u64,
    pub remaining_total_ms: u64,
    pub exhausted: bool,
    pub pressure_tier: MermaidPressureTier,
    pub parse: MermaidStageBudgetLedger,
    pub layout: MermaidStageBudgetLedger,
    pub render: MermaidStageBudgetLedger,
    pub notes: Vec<String>,
    pub events: Vec<MermaidBudgetEvent>,
}

impl MermaidBudgetLedger {
    /// Time used by the three stages together (saturating).
    pub open spec fn used_total(self) -> u64 {
        sat_add(sat_add(self.parse.used_ms, self.layout.used_ms), self.render.used_ms)
    }

    /// Time left of the global budget (saturating).
    pub open spec fn remaining_total(self) -> u64 {
        sat_sub(self.total_budget_ms, self.used_total())
    }

    fn current_used_total_ms(&self) -> (r: u64)
        ensures
            r == self.used_total(),
    {
        sat_add_exec(sat_add_exec(self.parse.used_ms, self.layout.used_ms), self.render.used_ms)
    }

    fn snapshot_remaining_total_ms(&self) -> (r: u64)
        ensures
            r == self.remaining_total(),
    {
        sat_sub_exec(self.total_budget_ms, self.current_used_total_ms())
    }

    fn push_stage_event(&mut self, kind: &str, which: u8, note: Option<String>)
        requires
            which < 3,
        ensures
            final(self).events@.len() == old(self).events@.len() + 1,
            event_views(final(self).events@) == event_views(old(self).events@).push(stage_event(
                kind@,
                if which == 0 { old(self).parse } else if which == 1 { old(self).layout } else { old(self).render },
                old(self).remaining_total(),
                opt_text(note),
            )),
            final(self).events@.take(old(self).events@.len() as int) == old(self).events@,
            final(self).arbitration_policy == old(self).arbitration_policy,
            final(self).total_budget_ms == old(self).total_budget_ms,
            final(self).remaining_total_ms == old(self).remaining_total_ms,
            final(self).exhausted == old(self).exhausted,
            final(self).pressure_tier == old(self).pressure_tier,
            final(self).parse == old(self).parse,
            final(self).layout == old(self).layout,
            final(self).render == old(self).render,
            final(self).notes == old(self).notes,
    {
        let remaining_total_ms = self.snapshot_remaining_total_ms();
        let stage = if which == 0 { &self.parse } else if which == 1 { &self.layout } else { &self.render };
        let event = MermaidBudgetEvent {
            kind: String::from_str(kind),
            stage: Some(stage.stage.clone()),
            allocated_ms: Some(stage.allocated_ms),
            used_ms: Some(stage.used_ms),
            remaining_ms: Some(stage.remaining_ms),
            remaining_total_ms,
            exceeded: stage.exceeded,
            note,
        };
        self.events.push(event);
        proof {
            assert(event_views(self.events@) =~= event_views(old(self).events@).push(event@));
        }
    }

    /// Split the budget of the pressure tier: a fifth (rounded up) each to parse and
    /// render, the rest to layout; record the three allocations, and a policy note when
    /// the pressure report fell back to conservative defaults.
    pub fn new(pressure: &MermaidPressureReport) -> (l: Self)
        ensures
            l.total_budget_ms == tier_budget(pressure.tier),
            l.remaining_total_ms == l.total_budget_ms,
            !l.exhausted,
            l.pressure_tier == pressure.tier,
            l.arbitration_policy@ == "parse_first_then_layout_heavy_then_render_tail"@,
            fresh_stage(l.parse, "parse"@, ceil_div(l.total_budget_ms, 5)),
            fresh_stage(l.render, "render"@, ceil_div(l.total_budget_ms, 5)),
            fresh_stage(l.layout, "layout"@, (l.total_budget_ms - 2 * ceil_div(l.total_budget_ms, 5)) as u64),
            texts(l.notes@) == (if pressure.conservative_fallback { seq![conservative_note()] } else { Seq::empty() }),
            event_views(l.events@) == seq![
                stage_event("allocate"@, l.parse, l.total_budget_ms, None),
                stage_event("allocate"@, l.layout, l.total_budget_ms, None),
                stage_event("allocate"@, l.render, l.total_budget_ms, None),
            ] + (if pressure.conservative_fallback {
                seq![("policy_note"@, None, None, None, None, l.total_budget_ms, false, Some(conservative_note()))]
            } else {
                Seq::empty()
            }),
    {
        let total_budget_ms: u64 = match pressure.tier {
            MermaidPressureTier::Unknown | MermaidPressureTier::High => 120,
            MermaidPressureTier::Nominal => 250,
            MermaidPressureTier::Elevated => 180,
            MermaidPressureTier::Critical => 80,
        };
        let parse_budget_ms = ceil_div_exec(total_budget_ms, 5);
        let render_budget_ms = ceil_div_exec(total_budget_ms, 5);
        let layout_budget_ms = sat_sub_exec(sat_sub_exec(total_budget_ms, parse_budget_ms), render_budget_ms);
        let mut notes: Vec<String> = Vec::new();
        if pressure.conservative_fallback {
            notes.push(String::from_str("telemetry unavailable; broker used conservative global budget defaults"));
        }
        proof {
            assert(texts(notes@) =~= (if pressure.conservative_fallback { seq![conservative_note()] } else { Seq::<Seq<char>>::empty() }));
        }
        let mut ledger = MermaidBudgetLedger {
            arbitration_policy: String::from_str("parse_first_then_layout_heavy_then_render_tail"),
            total_budget_ms,
            remaining_total_ms: total_budget_ms,
            exhausted: false,
            pressure_tier: pressure.tier,
            parse: MermaidStageBudgetLedger::new("parse", parse_budget_ms),
            layout: MermaidStageBudgetLedger::new("layout", layout_budget_ms),
            render: MermaidStageBudgetLedger::new("render", render_budget_ms),
            notes,
            events: Vec::new(),
        };
        ledger.push_stage_event("allocate", 0, None);
        ledger.push_stage_event("allocate", 1, None);
        ledger.push_stage_event("allocate", 2, None);
        let ghost allocated = event_views(ledger.events@);
        if pressure.conservative_fallback {
            let remaining_total_ms = ledger.snapshot_remaining_total_ms();
            let event = MermaidBudgetEvent {
                kind: String::from_str("policy_note"),
                stage: None,
                allocated_ms: None,
                used_ms: None,
                remaining_ms: None,
                remaining_total_ms,
                exceeded: false,
                note: Some(String::from_str("telemetry unavailable; broker used conservative global budget defaults")),
            };
            ledger.events.push(event);
            proof {
                assert(event_views(ledger.events@) =~= allocated.push(event@));
            }
        }
        proof {
            assert(event_views(ledger.events@) =~= seq![
                stage_event("allocate"@, ledger.parse, ledger.total_budget_ms, None),
                stage_event("allocate"@, ledger.layout, ledger.total_budget_ms, None),
                stage_event("allocate"@, ledger.render, ledger.total_budget_ms, None),
            ] + (if pressure.conservative_fallback {
                seq![("policy_note"@, None, None, None, None, ledger.total_budget_ms, false, Some(conservative_note()))]
            } else {
                Seq::<BudgetEventView>::empty()
            }));
        }
        ledger
    }

    fn rebalance_after_parse(&mut self)
        ensures
            ({
                let rt = sat_sub(old(self).total_budget_ms, old(self).parse.used_ms);
                let render = ceil_div(rt, 4);
                let layout = (rt - render) as u64;
                &&& final(self).layout == (MermaidStageBudgetLedger { allocated_ms: layout, remaining_ms: layout, ..old(self).layout })
                &&& final(self).render == (MermaidStageBudgetLedger { allocated_ms: render, remaining_ms: render, ..old(self).render })
                &&& event_views(final(self).events@) == event_views(old(self).events@)
                    + seq![
                        stage_event("rebalance"@, final(self).layout, old(self).remaining_total(), Some("layout share increased after parse arbitration"@)),
                        stage_event("rebalance"@, final(self).render, old(self).remaining_total(), Some("render tail budget recalculated after parse arbitration"@)),
                    ]
            }),
            final(self).arbitration_policy == old(self).arbitration_policy,
            final(self).total_budget_ms == old(self).total_budget_ms,
            final(self).remaining_total_ms == old(self).remaining_total_ms,
            final(self).exhausted == old(self).exhausted,
            final(self).pressure_tier == old(self).pressure_tier,
            final(self).parse == old(self).parse,
            final(self).notes == old(self).notes,
    {
        let remaining_total = sat_sub_exec(self.total_budget_ms, self.parse.used_ms);
        let render_budget_ms = ceil_div_exec(remaining_total, 4);
        proof {
            assert(render_budget_ms <= remaining_total) by (nonlinear_arith)
                requires
                    render_budget_ms == ceil_div(remaining_total, 4),
            ;
        }
        let layout_budget_ms = remaining_total - render_budget_ms;
        self.layout.allocated_ms = layout_budget_ms;
        self.layout.remaining_ms = layout_budget_ms;
        self.render.allocated_ms = render_budget_ms;
        self.render.remaining_ms = render_budget_ms;
        let ghost before = event_views(self.events@);
        self.push_stage_event("rebalance", 1, Some(String::from_str("layout share increased after parse arbitration")));
        self.push_stage_event("rebalance", 2, Some(String::from_str("render tail budget recalculated after parse arbitration")));
        proof {
            assert(event_views(self.events@) =~= before + seq![
                stage_event("rebalance"@, self.layout, old(self).remaining_total(), Some("layout share increased after parse arbitration"@)),
                stage_event("rebalance"@, self.render, old(self).remaining_total(), Some("render tail budget recalculated after parse arbitration"@)),
            ]);
        }
    }

    /// The accounting event for a ledger.
    pub open spec fn accounting_event(self) -> BudgetEventView {
        ("accounting"@, None, None, Some(self.used_total()), None, self.remaining_total(),
            self.used_total() > self.total_budget_ms,
            Some(if self.used_total() > self.total_budget_ms { "global budget exhausted"@ } else { "global budget accounting updated"@ }))
    }

    fn finish_stage_accounting(&mut self)
        ensures
            final(self).remaining_total_ms == old(self).remaining_total(),
            final(self).exhausted == (old(self).used_total() > old(self).total_budget_ms),
            event_views(final(self).events@) == event_views(old(self).events@).push(old(self).accounting_event()),
            final(self).arbitration_policy == old(self).arbitration_policy,
            final(self).total_budget_ms == old(self).total_budget_ms,
            final(self).pressure_tier == old(self).pressure_tier,
            final(self).parse == old(self).parse,
            final(self).layout == old(self).layout,
            final(self).render == old(self).render,
            final(self).notes == old(self).notes,
    {
        let used_total = self.current_used_total_ms();
        self.remaining_total_ms = sat_sub_exec(self.total_budget_ms, used_total);
        self.exhausted = used_total > self.total_budget_ms;
        let remaining_total_ms = self.snapshot_remaining_total_ms();
        let event = MermaidBudgetEvent {
            kind: String::from_str("accounting"),
            stage: None,
            allocated_ms: None,
            used_ms: Some(used_total),
            remaining_ms: None,
            remaining_total_ms,
            exceeded: self.exhausted,
            note: Some(if self.exhausted {
                String::from_str("global budget exhausted")
            } else {
                String::from_str("global budget accounting updated")
            }),
        };
        self.events.push(event);
        proof {
            assert(event_views(self.events@) =~= event_views(old(self).events@).push(event@));
        }
    }

    /// Record the time parsing used, hand what is left of the global budget to layout
    /// (three quarters) and render (a quarter, rounded up), and update the accounting.
    pub fn record_parse(&mut self, used_ms: u64)
        ensures
            ({
                let rt = sat_sub(old(self).total_budget_ms, used_ms);
                let render = ceil_div(rt, 4);
                let layout = (rt - render) as u64;
                let parsed = MermaidStageBudgetLedger {
                    used_ms: used_ms,
                    remaining_ms: sat_sub(old(self).parse.allocated_ms, used_ms),
                    exceeded: used_ms > old(self).parse.allocated_ms,
                    ..old(self).parse
                };
                let mid = MermaidBudgetLedger { parse: parsed, ..*old(self) };
                &&& final(self).parse == parsed
                &&& final(self).layout == (MermaidStageBudgetLedger { allocated_ms: layout, remaining_ms: layout, ..old(self).layout })
                &&& final(self).render == (MermaidStageBudgetLedger { allocated_ms: render, remaining_ms: render, ..old(self).render })
                &&& final(self).remaining_total_ms == final(self).remaining_total()
                &&& final(self).exhausted == (final(self).used_total() > final(self).total_budget_ms)
                &&& event_views(final(self).events@) == event_views(old(self).events@) + seq![
                    stage_event("consume"@, parsed, mid.remaining_total(), None),
                    stage_event("rebalance"@, final(self).layout, mid.remaining_total(), Some("layout share increased after parse arbitration"@)),
                    stage_event("rebalance"@, final(self).render, mid.remaining_total(), Some("render tail budget recalculated after parse arbitration"@)),
                    final(self).accounting_event(),
                ]
            }),
            final(self).arbitration_policy == old(self).arbitration_policy,
            final(self).total_budget_ms == old(self).total_budget_ms,
            final(self).pressure_tier == old(self).pressure_tier,
            final(self).notes == old(self).notes,
    {
        let ghost start = event_views(self.events@);
        self.parse.consume(used_ms);
        self.push_stage_event("consume", 0, None);
        let ghost after_consume = event_views(self.events@);
        self.rebalance_after_parse();
        let ghost after_rebalance = event_views(self.events@);
        self.finish_stage_accounting();
        proof {
            assert(event_views(self.events@) =~= after_rebalance.push(self.accounting_event()));
            assert(event_views(self.events@) =~= start + seq![
                after_consume.last(),
                after_rebalance[after_rebalance.len() - 2],
                after_rebalance.last(),
                self.accounting_event(),
            ]);
        }
    }

    /// Record the time layout used and update the accounting.
    pub fn record_layout(&mut self, used_ms: u64)
        ensures
            ({
                let laid = MermaidStageBudgetLedger {
                    used_ms: used_ms,
                    remaining_ms: sat_sub(old(self).layout.allocated_ms, used_ms),
                    exceeded: used_ms > old(self).layout.allocated_ms,
                    ..old(self).layout
                };
                &&& final(self).layout == laid
                &&& final(self).remaining_total_ms == final(self).remaining_total()
                &&& final(self).exhausted == (final(self).used_total() > final(self).total_budget_ms)
                &&& event_views(final(self).events@) == event_views(old(self).events@) + seq![
                    stage_event("consume"@, laid, final(self).remaining_total(), None),
                    final(self).accounting_event(),
                ]
            }),
            final(self).parse == old(self).parse,
            final(self).render == old(self).render,
            final(self).arbitration_policy == old(self).arbitration_policy,
            final(self).total_budget_ms == old(self).total_budget_ms,
            final(self).pressure_tier == old(self).pressure_tier,
            final(self).notes == old(self).notes,
    {
        let ghost start = event_views(self.events@);
        self.layout.consume(used_ms);
        self.push_stage_event("consume", 1, None);
        let ghost after_consume = event_views(self.events@);
        self.finish_stage_accounting();
        proof {
            assert(event_views(self.events@) =~= start + seq![after_consume.last(), self.accounting_event()]);
        }
    }

    /// Record the time render used and update the accounting.
    pub fn record_render(&mut self, used_ms: u64)
        ensures
            ({
                let rendered = MermaidStageBudgetLedger {
                    used_ms: used_ms,
                    remaining_ms: sat_sub(old(self).render.allocated_ms, used_ms),
                    exceeded: used_ms > old(self).render.allocated_ms,
                    ..old(self).render
                };
                &&& final(self).render == rendered
                &&& final(self).remaining_total_ms == final(self).remaining_total()
                &&& final(self).exhausted == (final(self).used_total() > final(self).total_budget_ms)
                &&& event_views(final(self).events@) == event_views(old(self).events@) + seq![
                    stage_event("consume"@, rendered, final(self).remaining_total(), None),
                    final(self).accounting_event(),
                ]
            }),
            final(self).parse == old(self).parse,
            final(self).layout == old(self).layout,
            final(self).arbitration_policy == old(self).arbitration_policy,
            final(self).total_budget_ms == old(self).total_budget_ms,
            final(self).pressure_tier == old(self).pressure_tier,
            final(self).notes == old(self).notes,
    {
        let ghost start = event_views(self.events@);
        self.render.consume(used_ms);
        self.push_stage_event("consume", 2, None);
        let ghost after_consume = event_views(self.events@);
        self.finish_stage_accounting();
        proof {
            assert(event_views(self.events@) =~= start + seq![after_consume.last(), self.accounting_event()]);
        }
    }

    /// The layout time budget: its allocation, at least 1, capped at `usize::MAX`.
    pub fn layout_time_budget_ms(&self) -> (r: usize)
        ensures
            r == (if self.layout.allocated_ms == 0 { 1 } else if self.layout.allocated_ms > usize::MAX {
                usize::MAX as int
            } else {
                self.layout.allocated_ms as int
            }),
    {
        let a = if self.layout.allocated_ms > 1 { self.layout.allocated_ms } else { 1 };
        if a as u128 > usize::MAX as u128 {
            usize::MAX
        } else {
            a as usize
        }
    }

    /// The layout iteration budget scaled by the layout allocation against 250 ms.
    pub fn layout_iteration_budget(&self, default_budget: usize) -> (r: usize)
        ensures
            r == scaled_budget(default_budget, self.layout.allocated_ms, 250),
    {
        scale_budget(default_budget, self.layout.allocated_ms, 250)
    }

    /// The routing budget scaled by the layout allocation against 250 ms.
    pub fn route_budget(&self, default_budget: usize) -> (r: usize)
        ensures
            r == scaled_budget(default_budget, self.layout.allocated_ms, 250),
    {
        scale_budget(default_budget, self.layout.allocated_ms, 250)
    }

    /// Whether rendering should be simplified: under high or critical pressure, or
    /// with at most 24 ms for render.
    pub fn should_simplify_render(&self) -> (b: bool)
        ensures
            b == (self.pressure_tier == MermaidPressureTier::High || self.pressure_tier == MermaidPressureTier::Critical
                || self.render.allocated_ms <= 24),
    {
        match self.pressure_tier {
            MermaidPressureTier::High | MermaidPressureTier::Critical => true,
            _ => self.render.allocated_ms <= 24,
        }
    }
}

} // verus!

verus! {

/// The initial split of a tier's budget: parse and render a fifth each (rounded up),
/// layout the rest; the three shares add up to the tier's budget and layout gets at
/// least as much as parse.
pub proof fn law_initial_split_sums_to_total(tier: MermaidPressureTier)
    ensures
        ({
            let t = tier_budget(tier);
            let fifth = ceil_div(t, 5);
            &&& 2 * fifth <= t
            &&& fifth + (t - 2 * fifth) + fifth == t
            &&& t - 2 * fifth >= fifth
        }),
{
}

/// After parsing, the rest of the global budget is split between layout and render
/// with nothing lost: render gets a quarter rounded up, layout the remainder.
pub proof fn law_rebalance_splits_remaining(total: u64, parse_used: u64)
    ensures
        ({
            let rt = sat_sub(total, parse_used);
            let render = ceil_div(rt, 4);
            &&& render <= rt
            &&& (rt - render) + render == rt
            &&& 4 * render >= rt
            &&& 4 * render < rt + 4
        }),
{
    let rt = sat_sub(total, parse_used);
    assert(rt == (rt / 4) * 4 + rt % 4) by (nonlinear_arith);
}

/// The remaining global budget never exceeds the total, and is zero exactly when the
/// stages together used the whole budget or more.
pub proof fn law_remaining_within_total(l: MermaidBudgetLedger)
    ensures
        l.remaining_total() <= l.total_budget_ms,
        l.remaining_total() == 0 <==> l.used_total() >= l.total_budget_ms,
{
}

impl Default for MermaidBudgetLedger {
    /// The ledger for a native platform that observed no pressure signal: the budget of
    /// the unknown tier, with the conservative-defaults note.
    fn default() -> (l: Self)
        ensures
            l.pressure_tier == MermaidPressureTier::Unknown,
            l.total_budget_ms == 120,
            l.remaining_total_ms == 120,
            !l.exhausted,
            texts(l.notes@) == seq![conservative_note()],
            l.events@.len() == 4,
    {
        let signals = crate::pressure::MermaidNativePressureSignals {
            cpu_pressure_permille: None,
            memory_pressure_permille: None,
            io_pressure_permille: None,
            available_parallelism: None,
            rss_mib: None,
        };
        let report = signals.into_report();
        proof {
            assert(!signals.any_observed());
        }
        let l = MermaidBudgetLedger::new(&report);
        proof {
            assert(event_views(l.events@).len() == l.events@.len());
        }
        l
    }
}

} // verus!
