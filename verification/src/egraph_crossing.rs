//! Budgets, search, selection and acceptance for the rewrite-saturation search over
//! layer orderings. The saturation itself runs in the application around this library,
//! which hands over the saturated e-graph as a plain table of e-classes; the search for
//! the orderings it represents and the decisions around it are here.
use vstd::prelude::*;
use crate::egraph_ordering::{
    LayerEdges, LayerOrdering, local_crossing_count, local_crossings, sides_fit,
};

verus! {

/// The adjacent layers that the crossing count of a layer is measured against.
#[derive(Debug, Clone)]
pub struct CrossingContext {
    /// Fixed upper layer ordering (if any).
    pub upper_ordering: Option<LayerOrdering>,
    /// Edges from upper layer to current layer.
    pub upper_edges: Option<LayerEdges>,
    /// Fixed lower layer ordering (if any).
    pub lower_ordering: Option<LayerOrdering>,
    /// Edges from current layer to lower layer.
    pub lower_edges: Option<LayerEdges>,
}

/// Both parts of an optional side, paired when both are present.
pub open spec fn pair_side<'a>(o: &'a Option<LayerOrdering>, e: &'a Option<LayerEdges>) -> Option<(&'a LayerOrdering, &'a LayerEdges)> {
    match (o, e) {
        (Some(o), Some(e)) => Some((o, e)),
        _ => None,
    }
}

fn pair_side_exec<'a>(o: &'a Option<LayerOrdering>, e: &'a Option<LayerEdges>) -> (r: Option<(&'a LayerOrdering, &'a LayerEdges)>)
    ensures
        r == pair_side(o, e),
{
    match (o, e) {
        (Some(o), Some(e)) => Some((o, e)),
        _ => None,
    }
}

impl CrossingContext {
    /// The upper side, present when both its ordering and its edges are.
    pub open spec fn upper_side(&self) -> Option<(&LayerOrdering, &LayerEdges)> {
        pair_side(&self.upper_ordering, &self.upper_edges)
    }

    /// The lower side, present when both its ordering and its edges are.
    pub open spec fn lower_side(&self) -> Option<(&LayerOrdering, &LayerEdges)> {
        pair_side(&self.lower_ordering, &self.lower_edges)
    }

    /// Crossings of `order` against the sides of this context.
    pub open spec fn crossings_of(&self, order: Seq<usize>) -> nat {
        local_crossings(order, self.upper_side(), self.lower_side())
    }

    /// The crossing counts of this context fit in a machine word.
    pub open spec fn fits(&self) -> bool {
        sides_fit(self.upper_side(), self.lower_side())
    }

    /// Crossings of `ordering` against this context.
    pub fn crossings(&self, ordering: &LayerOrdering) -> (r: usize)
        requires
            self.fits(),
        ensures
            r == self.crossings_of(ordering.order@),
    {
        let upper = pair_side_exec(&self.upper_ordering, &self.upper_edges);
        let lower = pair_side_exec(&self.lower_ordering, &self.lower_edges);
        local_crossing_count(ordering, upper, lower)
    }
}

impl Default for CrossingContext {
    fn default() -> (r: Self)
        ensures
            r.upper_ordering is None,
            r.upper_edges is None,
            r.lower_ordering is None,
            r.lower_edges is None,
    {
        CrossingContext { upper_ordering: None, upper_edges: None, lower_ordering: None, lower_edges: None }
    }
}

/// Which budget stopped the saturation.
#[derive(Debug, Clone, Copy, PartialEq, Eq, Structural)]
pub enum BudgetType {
    /// E-graph node count exceeded the node limit.
    NodeLimit,
    /// Wall-clock time exceeded the time limit.
    TimeLimit,
    /// Iteration count exceeded the iteration limit.
    IterationLimit,
    /// Saturation completed naturally (no budget exhausted).
    Saturated,
}

/// What a budget had reached when it stopped the saturation.
#[derive(Debug, Clone, Copy, PartialEq, Eq, Structural)]
pub struct BudgetExhausted {
    /// Which budget type was exhausted.
    pub budget_type: BudgetType,
    /// Current value when budget fired.
    pub value: u64,
    /// Configured limit.
    pub limit: u64,
    /// Iterations completed before exhaustion.
    pub iterations_completed: usize,
    /// Best crossing count found so far.
    pub best_cost: usize,
}

/// Limits of one saturation run.
#[derive(Debug, Clone, Copy, PartialEq, Eq, Structural)]
pub struct SaturationConfig {
    /// Maximum number of e-graph nodes before stopping.
    pub node_limit: usize,
    /// Maximum number of iterations before stopping.
    pub iter_limit: usize,
    /// Maximum wall-clock time in milliseconds.
    pub time_limit_ms: u64,
}

impl Default for SaturationConfig {
    fn default() -> (r: Self)
        ensures
            r == (SaturationConfig { node_limit: 10_000, iter_limit: 30, time_limit_ms: 100 }),
    {
        SaturationConfig { node_limit: 10_000, iter_limit: 30, time_limit_ms: 100 }
    }
}

impl SaturationConfig {
    /// Limits scaled to the graph: `min(100_000, 50·nodes²)` e-nodes,
    /// `min(500, 10·layers)` milliseconds and 1000 iterations.
    pub fn for_graph(node_count: usize, layer_count: usize) -> (r: Self)
        requires
            50 * node_count * node_count <= usize::MAX,
            10 * layer_count <= u64::MAX,
        ensures
            r.node_limit == (if 50 * node_count * node_count < 100_000 { 50 * node_count * node_count } else { 100_000 }),
            r.time_limit_ms == (if 10 * layer_count < 500 { 10 * layer_count } else { 500 }),
            r.iter_limit == 1000,
    {
        proof {
            assert(50 * node_count * node_count == 50 * (node_count * node_count)) by (nonlinear_arith);
            assert(node_count * node_count <= 50 * (node_count * node_count)) by (nonlinear_arith);
        }
        let nodes_sq = 50 * (node_count * node_count);
        let node_limit = if nodes_sq < 100_000 { nodes_sq } else { 100_000 };
        let layer_ms = 10 * (layer_count as u64);
        let time_limit_ms = if layer_ms < 500 { layer_ms } else { 500 };
        SaturationConfig { node_limit, iter_limit: 1000, time_limit_ms }
    }

    /// Conservative limits for interactive use.
    pub fn interactive() -> (r: Self)
        ensures
            r == (SaturationConfig { node_limit: 5_000, iter_limit: 20, time_limit_ms: 50 }),
    {
        SaturationConfig { node_limit: 5_000, iter_limit: 20, time_limit_ms: 50 }
    }

    /// Permissive limits for batch processing.
    pub fn batch() -> (r: Self)
        ensures
            r == (SaturationConfig { node_limit: 100_000, iter_limit: 100, time_limit_ms: 1000 }),
    {
        SaturationConfig { node_limit: 100_000, iter_limit: 100, time_limit_ms: 1000 }
    }
}

/// Why a saturation run stopped, as reported by the saturation engine (elapsed time
/// already in whole milliseconds).
#[derive(Debug, Clone, Copy, PartialEq, Eq, Structural)]
pub enum SaturationStop {
    /// The e-graph reached this many nodes.
    NodeLimit(usize),
    /// This many iterations ran.
    IterationLimit(usize),
    /// This many milliseconds elapsed.
    TimeLimit(u64),
    /// No rewrite applied any more.
    Saturated,
    /// Any other reason.
    Other,
}

/// The budget report of a run that stopped for `stop` after `iterations` iterations:
/// whether a limit was hit, and what it had reached (its best cost still 0).
pub open spec fn budget_report_spec(stop: Option<SaturationStop>, config: SaturationConfig, iterations: usize) -> (bool, Option<BudgetExhausted>) {
    match stop {
        Some(SaturationStop::NodeLimit(nodes)) => (true, Some(BudgetExhausted {
            budget_type: BudgetType::NodeLimit, value: nodes as u64, limit: config.node_limit as u64,
            iterations_completed: iterations, best_cost: 0 })),
        Some(SaturationStop::IterationLimit(n)) => (true, Some(BudgetExhausted {
            budget_type: BudgetType::IterationLimit, value: n as u64, limit: config.iter_limit as u64,
            iterations_completed: iterations, best_cost: 0 })),
        Some(SaturationStop::TimeLimit(ms)) => (true, Some(BudgetExhausted {
            budget_type: BudgetType::TimeLimit, value: ms, limit: config.time_limit_ms,
            iterations_completed: iterations, best_cost: 0 })),
        _ => (false, None),
    }
}

/// Classify how a saturation run stopped.
pub fn budget_report(stop: Option<SaturationStop>, config: &SaturationConfig, iterations: usize) -> (r: (bool, Option<BudgetExhausted>))
    ensures
        r == budget_report_spec(stop, *config, iterations),
{
    match stop {
        Some(SaturationStop::NodeLimit(nodes)) => (true, Some(BudgetExhausted {
            budget_type: BudgetType::NodeLimit, value: nodes as u64, limit: config.node_limit as u64,
            iterations_completed: iterations, best_cost: 0 })),
        Some(SaturationStop::IterationLimit(n)) => (true, Some(BudgetExhausted {
            budget_type: BudgetType::IterationLimit, value: n as u64, limit: config.iter_limit as u64,
            iterations_completed: iterations, best_cost: 0 })),
        Some(SaturationStop::TimeLimit(ms)) => (true, Some(BudgetExhausted {
            budget_type: BudgetType::TimeLimit, value: ms, limit: config.time_limit_ms,
            iterations_completed: iterations, best_cost: 0 })),
        _ => (false, None),
    }
}

/// Outcome of saturating one layer.
#[derive(Debug, Clone)]
pub struct SaturationResult {
    /// Best ordering found.
    pub ordering: LayerOrdering,
    /// Crossing count of best ordering.
    pub crossing_count: usize,
    /// Number of e-graph nodes at termination.
    pub egraph_nodes: usize,
    /// Number of iterations run.
    pub iterations: usize,
    /// Whether saturation hit a limit (vs. natural saturation).
    pub hit_limit: bool,
    /// Details about budget exhaustion (if any).
    pub budget_exhausted: Option<BudgetExhausted>,
}

/// Among the candidates, the first one with the fewest crossings against `ctx`, and its
/// crossing count; `None` when there are no candidates. (The scan stops early at a
/// candidate without crossings, which is then the answer.)
pub fn select_best_ordering(candidates: Vec<LayerOrdering>, ctx: &CrossingContext) -> (r: Option<(LayerOrdering, usize)>)
    requires
        ctx.fits(),
    ensures
        candidates@.len() == 0 <==> r is None,
        match r {
            Some((o, c)) => {
                &&& c == ctx.crossings_of(o.order@)
                &&& forall|j: int| 0 <= j < candidates@.len() ==> c <= ctx.crossings_of(#[trigger] candidates@[j].order@)
                &&& exists|i: int| 0 <= i < candidates@.len() && #[trigger] candidates@[i].order@ == o.order@
                    && forall|j: int| 0 <= j < i ==> c < ctx.crossings_of(#[trigger] candidates@[j].order@)
            },
            None => true,
        },
{
    let mut best: Option<(LayerOrdering, usize)> = None;
    let ghost mut best_idx: int = 0;
    let mut i: usize = 0;
    let n = candidates.len();
    let mut done = false;
    while i < n && !done
        invariant
            n == candidates@.len(),
            i <= n,
            ctx.fits(),
            i == 0 <==> best is None,
            match best {
                Some((o, c)) => {
                    &&& c == ctx.crossings_of(o.order@)
                    &&& 0 <= best_idx < i
                    &&& candidates@[best_idx].order@ == o.order@
                    &&& forall|j: int| 0 <= j < best_idx ==> c < ctx.crossings_of(#[trigger] candidates@[j].order@)
                    &&& forall|j: int| 0 <= j < i ==> c <= ctx.crossings_of(#[trigger] candidates@[j].order@)
                    &&& done ==> c == 0
                },
                None => !done,
            },
        decreases n - i,
    {
        let crossings = ctx.crossings(&candidates[i]);
        let replace = match &best {
            Some((_, best_crossings)) => crossings < *best_crossings,
            None => true,
        };
        if replace {
            best = Some((candidates[i].duplicate(), crossings));
            proof {
                best_idx = i as int;
            }
        }
        if crossings == 0 {
            done = true;
        }
        i = i + 1;
    }
    best
}

/// Finish a saturation run: take the extracted ordering and its crossings, or, when
/// nothing was extracted, the initial ordering and its crossings; report the budget that
/// stopped the run with the final best cost.
pub fn finish_saturation(
    extracted: Option<(LayerOrdering, usize)>,
    initial: &LayerOrdering,
    ctx: &CrossingContext,
    config: &SaturationConfig,
    stop: Option<SaturationStop>,
    egraph_nodes: usize,
    iterations: usize,
) -> (r: SaturationResult)
    requires
        ctx.fits(),
    ensures
        match extracted {
            Some((o, c)) => r.ordering.order@ == o.order@ && r.crossing_count == c,
            None => r.ordering.order@ == initial.order@ && r.crossing_count == ctx.crossings_of(initial.order@),
        },
        r.egraph_nodes == egraph_nodes,
        r.iterations == iterations,
        r.hit_limit == budget_report_spec(stop, *config, iterations).0,
        r.budget_exhausted == (match budget_report_spec(stop, *config, iterations).1 {
            Some(b) => Some(BudgetExhausted { best_cost: r.crossing_count, ..b }),
            None => None,
        }),
{
    let (hit_limit, budget) = budget_report(stop, config, iterations);
    let (ordering, crossing_count) = match extracted {
        Some((o, c)) => (o, c),
        None => {
            let c = ctx.crossings(initial);
            (initial.duplicate(), c)
        },
    };
    let budget_exhausted = match budget {
        Some(b) => Some(BudgetExhausted { best_cost: crossing_count, ..b }),
        None => None,
    };
    SaturationResult { ordering, crossing_count, egraph_nodes, iterations, hit_limit, budget_exhausted }
}

/// Keep a saturation result only when it has strictly fewer crossings than `initial`
/// against `ctx`.
pub fn saturate_layer_if_improves(initial: &LayerOrdering, ctx: &CrossingContext, result: SaturationResult) -> (r: Option<SaturationResult>)
    requires
        ctx.fits(),
    ensures
        r is Some <==> result.crossing_count < ctx.crossings_of(initial.order@),
        r is Some ==> r == Some(result),
{
    let initial_crossings = ctx.crossings(initial);
    if result.crossing_count < initial_crossings {
        Some(result)
    } else {
        None
    }
}

} // verus!

verus! {

/// A run reports hitting a limit exactly when it reports an exhausted budget, and the
/// reported budget is one of the three limits.
pub proof fn law_limit_iff_exhausted(stop: Option<SaturationStop>, config: SaturationConfig, iterations: usize)
    ensures
        budget_report_spec(stop, config, iterations).0 <==> budget_report_spec(stop, config, iterations).1 is Some,
        budget_report_spec(stop, config, iterations).1 matches Some(b) ==> b.budget_type != BudgetType::Saturated
            && b.iterations_completed == iterations,
{
}

} // verus!

verus! {

/// One e-node of an ordering e-graph, its children given by e-class index.
#[derive(Debug, Clone, Copy, PartialEq, Eq, Structural)]
pub enum OrderingNode {
    /// The end of an ordering.
    Nil,
    /// A node symbol: the layer node it names, where its text is `node_<index>`.
    Symbol(Option<usize>),
    /// A `seq` node: the class of a node symbol, followed by the class of the rest of
    /// the ordering.
    Cons(usize, usize),
}

/// E-class `c` of the table holds the e-node `n`.
pub open spec fn holds(table: Seq<Vec<OrderingNode>>, c: int, n: OrderingNode) -> bool {
    0 <= c < table.len() && table[c]@.contains(n)
}

/// `ord` is an ordering that e-class `c` represents: a chain of `seq` nodes, each
/// naming the next layer node, ending in `nil`.
pub open spec fn represents(table: Seq<Vec<OrderingNode>>, c: int, ord: Seq<usize>) -> bool
    decreases ord.len(),
{
    if ord.len() == 0 {
        holds(table, c, OrderingNode::Nil)
    } else {
        exists|s: usize, rest: usize|
            #[trigger] holds(table, c, OrderingNode::Cons(s, rest)) && holds(table, s as int, OrderingNode::Symbol(Some(ord[0])))
                && represents(table, rest as int, ord.drop_first())
    }
}

/// The orderings held in a list of vectors.
pub open spec fn order_views(v: Seq<Vec<usize>>) -> Seq<Seq<usize>> {
    v.map_values(|o: Vec<usize>| o@)
}

/// `b` begins with `a`.
pub open spec fn begins_with(b: Seq<Seq<usize>>, a: Seq<Seq<usize>>) -> bool {
    a.len() <= b.len() && forall|i: int| 0 <= i < a.len() ==> #[trigger] b[i] == a[i]
}

/// The orderings found so far: distinct, at most `limit` of them, each one that the
/// root class represents and shorter than the number of classes.
pub open spec fn found_ok(table: Seq<Vec<OrderingNode>>, root: int, limit: usize, found: Seq<Seq<usize>>) -> bool {
    &&& found.len() <= limit
    &&& forall|i: int, j: int| 0 <= i < j < found.len() ==> found[i] != found[j]
    &&& forall|i: int| 0 <= i < found.len() ==> represents(table, root, #[trigger] found[i]) && found[i].len() < table.len()
}

proof fn lemma_contains_kept(a: Seq<Seq<usize>>, b: Seq<Seq<usize>>, v: Seq<usize>)
    requires
        begins_with(b, a),
        a.contains(v),
    ensures
        b.contains(v),
{
    let i = choose|i: int| 0 <= i < a.len() && a[i] == v;
    assert(b[i] == v);
}

/// `kid` continues e-class `id`: a `seq` node of the class has a first child naming
/// layer node `kid.1` and the rest in class `kid.0`.
pub open spec fn continues(table: Seq<Vec<OrderingNode>>, id: int, kid: (usize, usize)) -> bool {
    exists|s: usize| #[trigger] holds(table, id, OrderingNode::Cons(s, kid.0)) && holds(table, s as int, OrderingNode::Symbol(Some(kid.1)))
}

/// A copy of an ordering.
fn copied(order: &Vec<usize>) -> (r: Vec<usize>)
    ensures
        r@ == order@,
{
    let mut r: Vec<usize> = Vec::new();
    let mut i: usize = 0;
    while i < order.len()
        invariant
            i <= order@.len(),
            r@ == order@.take(i as int),
        decreases order@.len() - i,
    {
        r.push(order[i]);
        proof {
            assert(order@.take(i + 1) =~= order@.take(i as int).push(order@[i as int]));
        }
        i = i + 1;
    }
    proof {
        assert(order@.take(i as int) =~= order@);
    }
    r
}

/// Whether two orderings are equal.
fn same_order(a: &Vec<usize>, b: &Vec<usize>) -> (r: bool)
    ensures
        r == (a@ == b@),
{
    if a.len() != b.len() {
        return false;
    }
    let mut i: usize = 0;
    while i < a.len()
        invariant
            a@.len() == b@.len(),
            i <= a@.len(),
            forall|j: int| 0 <= j < i ==> a@[j] == b@[j],
        decreases a@.len() - i,
    {
        if a[i] != b[i] {
            return false;
        }
        i = i + 1;
    }
    proof {
        assert(a@ =~= b@);
    }
    true
}

/// Whether `o` is among the orderings found.
fn already_found(out: &Vec<Vec<usize>>, o: &Vec<usize>) -> (r: bool)
    ensures
        r == order_views(out@).contains(o@),
{
    let mut i: usize = 0;
    while i < out.len()
        invariant
            i <= out@.len(),
            forall|j: int| 0 <= j < i ==> out@[j]@ != o@,
        decreases out@.len() - i,
    {
        if same_order(&out[i], o) {
            proof {
                assert(order_views(out@)[i as int] == o@);
            }
            return true;
        }
        i = i + 1;
    }
    proof {
        if order_views(out@).contains(o@) {
            let j = choose|j: int| 0 <= j < order_views(out@).len() && order_views(out@)[j] == o@;
            assert(out@[j]@ == o@);
        }
    }
    false
}

/// Whether an e-class holds `nil`.
fn holds_nil(nodes: &Vec<OrderingNode>) -> (r: bool)
    ensures
        r == nodes@.contains(OrderingNode::Nil),
{
    let mut i: usize = 0;
    while i < nodes.len()
        invariant
            i <= nodes@.len(),
            forall|j: int| 0 <= j < i ==> nodes@[j] != OrderingNode::Nil,
        decreases nodes@.len() - i,
    {
        if nodes[i] == OrderingNode::Nil {
            return true;
        }
        i = i + 1;
    }
    false
}

/// The continuations of an e-class, in the order its e-nodes list them: for each
/// `seq` node and each node symbol of its first child, the class of the rest and
/// the layer node named.
fn continuations(table: &Vec<Vec<OrderingNode>>, id: usize) -> (kids: Vec<(usize, usize)>)
    requires
        id < table@.len(),
    ensures
        forall|s: usize, rest: usize, k: usize| #[trigger] holds(table@, id as int, OrderingNode::Cons(s, rest))
            && #[trigger] holds(table@, s as int, OrderingNode::Symbol(Some(k))) ==> kids@.contains((rest, k)),
        forall|q: int| 0 <= q < kids@.len() ==> continues(table@, id as int, #[trigger] kids@[q]),
{
    let nodes = &table[id];
    let mut kids: Vec<(usize, usize)> = Vec::new();
    let mut i: usize = 0;
    while i < nodes.len()
        invariant
            id < table@.len(),
            nodes@ == table@[id as int]@,
            i <= nodes@.len(),
            forall|s2: usize, rest2: usize, k: usize| #[trigger] nodes@.take(i as int).contains(OrderingNode::Cons(s2, rest2))
                && #[trigger] holds(table@, s2 as int, OrderingNode::Symbol(Some(k))) ==> kids@.contains((rest2, k)),
            forall|q: int| 0 <= q < kids@.len() ==> continues(table@, id as int, #[trigger] kids@[q]),
        decreases nodes@.len() - i,
    {
        let ghost kids_before = kids@;
        match nodes[i] {
            OrderingNode::Cons(s, rest) => {
                if s < table.len() {
                    let syms = &table[s];
                    let mut b: usize = 0;
                    while b < syms.len()
                        invariant
                            id < table@.len(),
                            s < table@.len(),
                            nodes@ == table@[id as int]@,
                            i < nodes@.len(),
                            nodes@[i as int] == OrderingNode::Cons(s, rest),
                            syms@ == table@[s as int]@,
                            b <= syms@.len(),
                            forall|x: (usize, usize)| kids_before.contains(x) ==> #[trigger] kids@.contains(x),
                            forall|k: usize| #[trigger] syms@.take(b as int).contains(OrderingNode::Symbol(Some(k))) ==> kids@.contains((rest, k)),
                            forall|q: int| 0 <= q < kids@.len() ==> continues(table@, id as int, #[trigger] kids@[q]),
                        decreases syms@.len() - b,
                    {
                        let ghost before = kids@;
                        proof {
                            assert(syms@.take(b + 1) =~= syms@.take(b as int).push(syms@[b as int]));
                        }
                        let node = syms[b];
                        match node {
                            OrderingNode::Symbol(Some(k)) => {
                                kids.push((rest, k));
                                proof {
                                    assert(nodes@.contains(OrderingNode::Cons(s, rest)));
                                    assert(holds(table@, id as int, OrderingNode::Cons(s, rest)));
                                    assert(syms@.contains(OrderingNode::Symbol(Some(k))));
                                    assert(holds(table@, s as int, OrderingNode::Symbol(Some(k))));
                                    assert(kids@[kids@.len() - 1] == (rest, k));
                                    assert(holds(table@, id as int, OrderingNode::Cons(s, (rest, k).0)));
                                    assert(continues(table@, id as int, (rest, k)));
                                    assert forall|x: (usize, usize)| before.contains(x) implies #[trigger] kids@.contains(x) by {
                                        let j = choose|j: int| 0 <= j < before.len() && before[j] == x;
                                        assert(kids@[j] == x);
                                    }
                                    assert forall|k2: usize| #[trigger] syms@.take(b + 1).contains(OrderingNode::Symbol(Some(k2)))
                                        implies kids@.contains((rest, k2)) by {
                                        if syms@.take(b as int).contains(OrderingNode::Symbol(Some(k2))) {
                                            assert(before.contains((rest, k2)));
                                        } else {
                                            let c = choose|c: int| 0 <= c < b + 1 && #[trigger] syms@.take(b + 1)[c] == OrderingNode::Symbol(Some(k2));
                                            if c < b {
                                                assert(syms@.take(b as int)[c] == OrderingNode::Symbol(Some(k2)));
                                            }
                                        }
                                    }
                                }
                            },
                            OrderingNode::Symbol(None) | OrderingNode::Nil | OrderingNode::Cons(_, _) => {
                                proof {
                                    assert(node == syms@[b as int]);
                                    assert forall|k2: usize| #[trigger] syms@.take(b + 1).contains(OrderingNode::Symbol(Some(k2)))
                                        implies kids@.contains((rest, k2)) by {
                                        let c = choose|c: int| 0 <= c < b + 1 && #[trigger] syms@.take(b + 1)[c] == OrderingNode::Symbol(Some(k2));
                                        assert(syms@.take(b + 1)[b as int] == syms@[b as int]);
                                        if c < b {
                                            assert(syms@.take(b as int)[c] == OrderingNode::Symbol(Some(k2)));
                                            assert(syms@.take(b as int).contains(OrderingNode::Symbol(Some(k2))));
                                        }
                                    }
                                }
                            },
                        }
                        b = b + 1;
                    }
                    proof {
                        assert(syms@.take(b as int) =~= syms@);
                    }
                }
            },
            _ => {},
        }
        proof {
            assert(nodes@.take(i + 1) =~= nodes@.take(i as int).push(nodes@[i as int]));
            assert forall|s2: usize, rest2: usize, k: usize| #[trigger] nodes@.take(i + 1).contains(OrderingNode::Cons(s2, rest2))
                && #[trigger] holds(table@, s2 as int, OrderingNode::Symbol(Some(k))) implies kids@.contains((rest2, k)) by {
                if nodes@.take(i as int).contains(OrderingNode::Cons(s2, rest2)) {
                    assert(kids_before.contains((rest2, k)));
                } else {
                    assert(nodes@[i as int] == OrderingNode::Cons(s2, rest2));
                    assert(table@[s2 as int]@.take(table@[s2 as int]@.len() as int) =~= table@[s2 as int]@);
                }
            }
        }
        i = i + 1;
    }
    proof {
        assert(nodes@.take(i as int) =~= nodes@);
    }
    kids
}

/// Depth-first search from e-class `id`, the path so far reading `partial`: record
/// each ordering the class completes (`partial` itself where the class holds `nil`),
/// then search the continuations, the last listed first. The search stops once
/// `limit` orderings are recorded, and follows at most `fuel` more classes.
fn search(
    table: &Vec<Vec<OrderingNode>>,
    Ghost(root): Ghost<int>,
    id: usize,
    partial: &Vec<usize>,
    fuel: usize,
    limit: usize,
    out: &mut Vec<Vec<usize>>,
)
    requires
        found_ok(table@, root, limit, order_views(old(out)@)),
        partial@.len() + fuel <= table@.len(),
        forall|x: Seq<usize>| #[trigger] represents(table@, id as int, x) ==> represents(table@, root, partial@ + x),
    ensures
        found_ok(table@, root, limit, order_views(final(out)@)),
        begins_with(order_views(final(out)@), order_views(old(out)@)),
        final(out)@.len() < limit ==> forall|x: Seq<usize>| #[trigger] represents(table@, id as int, x) && x.len() < fuel
            ==> order_views(final(out)@).contains(partial@ + x),
    decreases fuel,
{
    if fuel == 0 || id >= table.len() || out.len() >= limit {
        return;
    }
    let ghost out0 = order_views(out@);
    if holds_nil(&table[id]) && !already_found(out, partial) {
        let found = copied(partial);
        out.push(found);
        proof {
            assert(represents(table@, id as int, Seq::<usize>::empty()));
            assert(partial@ + Seq::<usize>::empty() =~= partial@);
            let f = order_views(out@);
            assert(f.last() == partial@);
            assert(represents(table@, root, partial@));
            assert forall|a: int, b: int| 0 <= a < b < f.len() implies f[a] != f[b] by {
                if b == f.len() - 1 {
                    assert(f[a] == out0[a]);
                    assert(out0.contains(out0[a]));
                } else {
                    assert(f[a] == out0[a] && f[b] == out0[b]);
                }
            }
            assert forall|a: int| 0 <= a < f.len() implies represents(table@, root, #[trigger] f[a]) && f[a].len() < table@.len() by {
                if a < f.len() - 1 {
                    assert(f[a] == out0[a]);
                }
            }
        }
    }
    proof {
        assert(order_views(out@).take(out0.len() as int) =~= out0);
        if table@[id as int]@.contains(OrderingNode::Nil) {
            assert(order_views(out@).contains(partial@));
        }
    }
    let kids = continuations(table, id);
    let mut j = kids.len();
    while j > 0
        invariant
            j <= kids@.len(),
            id < table@.len(),
            0 < fuel,
            partial@.len() + fuel <= table@.len(),
            forall|x: Seq<usize>| #[trigger] represents(table@, id as int, x) ==> represents(table@, root, partial@ + x),
            forall|q: int| 0 <= q < kids@.len() ==> continues(table@, id as int, #[trigger] kids@[q]),
            found_ok(table@, root, limit, order_views(out@)),
            begins_with(order_views(out@), out0),
            table@[id as int]@.contains(OrderingNode::Nil) ==> order_views(out@).contains(partial@),
            out@.len() < limit ==> forall|q: int, y: Seq<usize>| j <= q < kids@.len() && #[trigger] represents(table@, kids@[q].0 as int, y)
                && y.len() < fuel - 1 ==> order_views(out@).contains(partial@.push(kids@[q].1) + y),
        decreases j,
    {
        j = j - 1;
        let (rest, k) = kids[j];
        let next = {
            let mut v = copied(partial);
            v.push(k);
            v
        };
        let ghost before = order_views(out@);
        proof {
            assert(continues(table@, id as int, kids@[j as int]));
            let s = choose|s: usize| #[trigger] holds(table@, id as int, OrderingNode::Cons(s, rest))
                && holds(table@, s as int, OrderingNode::Symbol(Some(k)));
            assert forall|x: Seq<usize>| #[trigger] represents(table@, rest as int, x) implies represents(table@, root, next@ + x) by {
                let kx = seq![k] + x;
                assert(kx[0] == k);
                assert(kx.drop_first() =~= x);
                assert(represents(table@, id as int, kx));
                assert(partial@ + kx =~= next@ + x);
            }
        }
        search(table, Ghost(root), rest, &next, fuel - 1, limit, out);
        proof {
            let after = order_views(out@);
            if table@[id as int]@.contains(OrderingNode::Nil) {
                lemma_contains_kept(before, after, partial@);
            }
            if out@.len() < limit {
                assert forall|q: int, y: Seq<usize>| j <= q < kids@.len() && #[trigger] represents(table@, kids@[q].0 as int, y)
                    && y.len() < fuel - 1 implies after.contains(partial@.push(kids@[q].1) + y) by {
                    if q > j {
                        assert(before.len() <= after.len());
                        lemma_contains_kept(before, after, partial@.push(kids@[q].1) + y);
                    } else {
                        assert(next@ == partial@.push(kids@[q].1));
                    }
                }
            }
        }
    }
    proof {
        if out@.len() < limit {
            assert forall|x: Seq<usize>| #[trigger] represents(table@, id as int, x) && x.len() < fuel
                implies order_views(out@).contains(partial@ + x) by {
                if x.len() == 0 {
                    assert(partial@ + x =~= partial@);
                } else {
                    let (s, rest) = choose|s: usize, rest: usize| #[trigger] holds(table@, id as int, OrderingNode::Cons(s, rest))
                        && holds(table@, s as int, OrderingNode::Symbol(Some(x[0]))) && represents(table@, rest as int, x.drop_first());
                    assert(kids@.contains((rest, x[0])));
                    let q = choose|q: int| 0 <= q < kids@.len() && kids@[q] == (rest, x[0]);
                    assert(represents(table@, kids@[q].0 as int, x.drop_first()));
                    assert(partial@.push(x[0]) + x.drop_first() =~= partial@ + x);
                }
            }
        }
    }
}

/// The orderings that e-class `root` represents, found depth first, up to `limit` of
/// them. A path follows at most as many classes as the table has, which on an acyclic
/// table cuts nothing.
pub fn collect_orderings(table: &Vec<Vec<OrderingNode>>, root: usize, limit: usize) -> (r: Vec<LayerOrdering>)
    ensures
        r@.len() <= limit,
        forall|i: int, j: int| 0 <= i < j < r@.len() ==> r@[i].order@ != r@[j].order@,
        forall|i: int| 0 <= i < r@.len() ==> represents(table@, root as int, #[trigger] r@[i].order@)
            && r@[i].order@.len() < table@.len(),
        r@.len() < limit ==> forall|x: Seq<usize>| #[trigger] represents(table@, root as int, x) && x.len() < table@.len()
            ==> exists|i: int| 0 <= i < r@.len() && r@[i].order@ == x,
{
    let mut out: Vec<Vec<usize>> = Vec::new();
    let partial: Vec<usize> = Vec::new();
    proof {
        assert(order_views(out@) =~= Seq::<Seq<usize>>::empty());
        assert forall|x: Seq<usize>| #[trigger] represents(table@, root as int, x) implies represents(table@, root as int, partial@ + x) by {
            assert(partial@ + x =~= x);
        }
    }
    search(table, Ghost(root as int), root, &partial, table.len(), limit, &mut out);
    let ghost found = order_views(out@);
    let mut r: Vec<LayerOrdering> = Vec::new();
    let mut i: usize = 0;
    while i < out.len()
        invariant
            found == order_views(out@),
            i <= out@.len(),
            r@.len() == i,
            forall|q: int| 0 <= q < i ==> (#[trigger] r@[q]).order@ == found[q],
        decreases out@.len() - i,
    {
        r.push(LayerOrdering::new(copied(&out[i])));
        i = i + 1;
    }
    proof {
        assert(partial@ =~= Seq::<usize>::empty());
        if r@.len() < limit {
            assert forall|x: Seq<usize>| #[trigger] represents(table@, root as int, x) && x.len() < table@.len()
                implies exists|i: int| 0 <= i < r@.len() && r@[i].order@ == x by {
                assert(partial@ + x =~= x);
                assert(found.contains(x));
                let q = choose|q: int| 0 <= q < found.len() && found[q] == x;
                assert(r@[q].order@ == x);
            }
        }
        assert forall|a: int, b: int| 0 <= a < b < r@.len() implies r@[a].order@ != r@[b].order@ by {
            assert(found[a] != found[b]);
        }
    }
    r
}

/// The orderings that e-class `root` represents and that the search reaches (those
/// shorter than the number of classes).
pub open spec fn represented(table: Seq<Vec<OrderingNode>>, root: int) -> Set<Seq<usize>> {
    Set::new(|x: Seq<usize>| represents(table, root, x) && x.len() < table.len())
}

/// The ordering with the fewest crossings against `ctx` among those (up to 1000) that
/// e-class `root` represents, with its crossing count; `None` when the class represents
/// none. Where the class represents fewer than 1000 orderings, the answer has the
/// fewest crossings of them all.
pub fn extract_best_ordering(table: &Vec<Vec<OrderingNode>>, root: usize, ctx: &CrossingContext) -> (r: Option<(LayerOrdering, usize)>)
    requires
        ctx.fits(),
    ensures
        r is None <==> !exists|x: Seq<usize>| #[trigger] represents(table@, root as int, x) && x.len() < table@.len(),
        r matches Some((o, c)) ==> represents(table@, root as int, o.order@) && o.order@.len() < table@.len()
            && c == ctx.crossings_of(o.order@),
        represented(table@, root as int).finite() && represented(table@, root as int).len() < 1000 ==> (r matches Some((o, c))
            ==> forall|x: Seq<usize>| #[trigger] represents(table@, root as int, x) && x.len() < table@.len() ==> c <= ctx.crossings_of(x)),
{
    let orderings = collect_orderings(table, root, 1000);
    let ghost candidates = orderings@;
    let r = select_best_ordering(orderings, ctx);
    proof {
        if exists|x: Seq<usize>| #[trigger] represents(table@, root as int, x) && x.len() < table@.len() {
            let x = choose|x: Seq<usize>| #[trigger] represents(table@, root as int, x) && x.len() < table@.len();
            if candidates.len() == 0 {
                assert(exists|i: int| 0 <= i < candidates.len() && candidates[i].order@ == x);
            }
        }
        if r is Some {
            let o = (r->0).0;
            let c = (r->0).1;
            let i = choose|i: int| 0 <= i < candidates.len() && #[trigger] candidates[i].order@ == o.order@
                && forall|j: int| 0 <= j < i ==> c < ctx.crossings_of(#[trigger] candidates[j].order@);
            assert(represents(table@, root as int, candidates[i].order@));
            let rep = represented(table@, root as int);
            if rep.finite() && rep.len() < 1000 {
                if candidates.len() >= 1000 {
                    let views = candidates.map_values(|l: LayerOrdering| l.order@);
                    assert(views.no_duplicates()) by {
                        assert forall|a: int, b: int| 0 <= a < views.len() && 0 <= b < views.len() && a != b
                            implies views[a] != views[b] by {
                            if a < b {
                                assert(candidates[a].order@ != candidates[b].order@);
                            } else {
                                assert(candidates[b].order@ != candidates[a].order@);
                            }
                        }
                    }
                    views.unique_seq_to_set();
                    assert(views.to_set().subset_of(rep)) by {
                        assert forall|x: Seq<usize>| views.to_set().contains(x) implies rep.contains(x) by {
                            let q = choose|q: int| 0 <= q < views.len() && views[q] == x;
                            assert(represents(table@, root as int, candidates[q].order@));
                        }
                    }
                    vstd::set_lib::lemma_len_subset(views.to_set(), rep);
                }
                assert forall|x: Seq<usize>| #[trigger] represents(table@, root as int, x) && x.len() < table@.len()
                    implies c <= ctx.crossings_of(x) by {
                    let q = choose|q: int| 0 <= q < candidates.len() && candidates[q].order@ == x;
                    assert(c <= ctx.crossings_of(candidates[q].order@));
                }
            }
        }
    }
    r
}

} // verus!

verus! {

/// A run stopped by its node, iteration or time limit is reported as hitting that
/// limit, with the amount reached, the configured limit, the iterations completed and
/// a best cost still 0; any other run is reported as hitting none.
pub proof fn law_limit_stops_are_reported(stop: Option<SaturationStop>, config: SaturationConfig, iterations: usize)
    ensures
        budget_report_spec(stop, config, iterations).0 <==> (stop matches Some(SaturationStop::NodeLimit(_))
            || stop matches Some(SaturationStop::IterationLimit(_)) || stop matches Some(SaturationStop::TimeLimit(_))),
        !budget_report_spec(stop, config, iterations).0 ==> budget_report_spec(stop, config, iterations).1 is None,
        stop matches Some(SaturationStop::NodeLimit(nodes)) ==> budget_report_spec(stop, config, iterations).1 == Some(
            BudgetExhausted { budget_type: BudgetType::NodeLimit, value: nodes as u64, limit: config.node_limit as u64,
                iterations_completed: iterations, best_cost: 0 }),
        stop matches Some(SaturationStop::IterationLimit(n)) ==> budget_report_spec(stop, config, iterations).1 == Some(
            BudgetExhausted { budget_type: BudgetType::IterationLimit, value: n as u64, limit: config.iter_limit as u64,
                iterations_completed: iterations, best_cost: 0 }),
        stop matches Some(SaturationStop::TimeLimit(ms)) ==> budget_report_spec(stop, config, iterations).1 == Some(
            BudgetExhausted { budget_type: BudgetType::TimeLimit, value: ms, limit: config.time_limit_ms,
                iterations_completed: iterations, best_cost: 0 }),
{
}

} // verus!
