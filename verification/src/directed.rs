//! Results of the directed-graph analyses: strongly and weakly connected components,
//! directed cycles and reachability.
use vstd::prelude::*;
use std::collections::{BTreeMap, BTreeSet, VecDeque};
use crate::graph_ir::IrEndpoint;
use crate::model::IrEdge;

verus! {

/// A strongly connected component.
#[derive(Debug, Clone, PartialEq, Eq)]
pub struct StronglyConnectedComponent {
    /// Component index.
    pub index: usize,
    /// Node indices in this component, sorted.
    pub nodes: Vec<usize>,
    /// A single node without a self-loop.
    pub is_trivial: bool,
}

/// The strongly connected components of a graph.
#[derive(Debug, Clone, PartialEq, Eq)]
pub struct SccResult {
    /// All components, sorted by their first node.
    pub components: Vec<StronglyConnectedComponent>,
    /// Number of non-trivial components.
    pub non_trivial_count: usize,
    /// Largest component size.
    pub max_component_size: usize,
    /// Component of each node.
    pub node_to_component: BTreeMap<usize, usize>,
}

/// A weakly connected component.
#[derive(Debug, Clone, PartialEq, Eq)]
pub struct WeaklyConnectedComponent {
    /// Component index.
    pub index: usize,
    /// Node indices in this component, sorted.
    pub nodes: Vec<usize>,
}

/// The weakly connected components of a graph.
#[derive(Debug, Clone, PartialEq, Eq)]
pub struct WccResult {
    /// All components, sorted by their first node.
    pub components: Vec<WeaklyConnectedComponent>,
    /// Whether there is a single component.
    pub is_connected: bool,
    /// Largest component size.
    pub max_component_size: usize,
    /// Component of each node.
    pub node_to_component: BTreeMap<usize, usize>,
}

/// A directed cycle: `nodes[0] -> nodes[1] -> ... -> nodes[0]`.
#[derive(Debug, Clone, PartialEq, Eq)]
pub struct DirectedCycle {
    /// Nodes in cycle order.
    pub nodes: Vec<usize>,
    /// Edge indices on the cycle.
    pub edges: Vec<usize>,
}

/// The directed cycles found in a graph.
#[derive(Debug, Clone, PartialEq, Eq)]
pub struct DirectedCycleResult {
    /// Whether there is a cycle.
    pub has_cycles: bool,
    /// The cycles found, sorted by their smallest node.
    pub cycles: Vec<DirectedCycle>,
    /// Nodes on some cycle.
    pub cyclic_nodes: BTreeSet<usize>,
    /// Edges on some cycle.
    pub cyclic_edges: BTreeSet<usize>,
}

/// Reachability between the nodes of a directed graph.
#[derive(Debug, Clone, PartialEq, Eq)]
pub struct ReachabilityResult {
    /// For each node, the nodes reachable from it.
    pub reachable_from: BTreeMap<usize, BTreeSet<usize>>,
    /// For each node, the nodes that reach it.
    pub reaches_to: BTreeMap<usize, BTreeSet<usize>>,
    /// Nodes without incoming edges from other nodes.
    pub sources: BTreeSet<usize>,
    /// Nodes without outgoing edges to other nodes.
    pub sinks: BTreeSet<usize>,
}

} // verus!

verus! {

/// The node an endpoint names directly (ports and unresolved endpoints name none).
pub open spec fn endpoint_node(e: IrEndpoint) -> Option<usize> {
    match e {
        IrEndpoint::Node(id) => Some(id.0),
        _ => None,
    }
}

fn endpoint_node_index(e: &IrEndpoint) -> (r: Option<usize>)
    ensures
        r == endpoint_node(*e),
{
    match e {
        IrEndpoint::Node(id) => Some(id.0),
        _ => None,
    }
}

/// Edge `i` runs from node `u` to node `v`, both among the first `n` nodes.
pub open spec fn edge_is(edges: Seq<IrEdge>, n: nat, i: int, u: usize, v: usize) -> bool {
    &&& 0 <= i < edges.len()
    &&& endpoint_node(edges[i].from) == Some(u)
    &&& endpoint_node(edges[i].to) == Some(v)
    &&& u < n
    &&& v < n
}

/// `u -> v` is an arc among the first `k` edges: an edge between two distinct nodes.
pub open spec fn arc_upto(edges: Seq<IrEdge>, n: nat, k: int, u: usize, v: usize) -> bool {
    u != v && exists|i: int| 0 <= i < k && #[trigger] edge_is(edges, n, i, u, v)
}

/// `u -> v` is an arc: an edge between two distinct nodes.
pub open spec fn arc(edges: Seq<IrEdge>, n: nat, u: usize, v: usize) -> bool {
    arc_upto(edges, n, edges.len() as int, u, v)
}

/// The arc relation of a graph.
pub open spec fn arcs(edges: Seq<IrEdge>, n: nat) -> spec_fn(usize, usize) -> bool {
    |u: usize, v: usize| arc(edges, n, u, v)
}

/// The arc relation with directions ignored.
pub open spec fn links(edges: Seq<IrEdge>, n: nat) -> spec_fn(usize, usize) -> bool {
    |u: usize, v: usize| arc(edges, n, u, v) || arc(edges, n, v, u)
}

/// `p` is a walk of one or more steps of the relation `r`.
pub open spec fn is_walk(r: spec_fn(usize, usize) -> bool, p: Seq<usize>) -> bool {
    p.len() >= 2 && forall|i: int| 0 <= i < p.len() - 1 ==> #[trigger] r(p[i], p[i + 1])
}

/// `t` is reached from `s` by one or more steps of `r`.
pub open spec fn reaches(r: spec_fn(usize, usize) -> bool, s: usize, t: usize) -> bool {
    exists|p: Seq<usize>| #[trigger] is_walk(r, p) && p[0] == s && p.last() == t
}

/// The nodes other than `s` reached from `s`.
pub open spec fn reach_set(r: spec_fn(usize, usize) -> bool, s: usize) -> Set<usize> {
    Set::new(|t: usize| t != s && reaches(r, s, t))
}

/// The nodes other than `t` that reach `t`.
pub open spec fn reached_by_set(r: spec_fn(usize, usize) -> bool, t: usize) -> Set<usize> {
    Set::new(|s: usize| s != t && reaches(r, s, t))
}

/// Extending a walk to `w` by a step `w -> t` reaches `t`.
proof fn lemma_reaches_extend(r: spec_fn(usize, usize) -> bool, s: usize, w: usize, t: usize)
    requires
        w == s || reaches(r, s, w),
        r(w, t),
    ensures
        reaches(r, s, t),
{
    if w == s {
        let p = seq![s, t];
        assert forall|i: int| 0 <= i < p.len() - 1 implies #[trigger] r(p[i], p[i + 1]) by {
            assert(i == 0);
            assert(p[i] == w && p[i + 1] == t);
        }
        assert(is_walk(r, p));
    } else {
        let p = choose|p: Seq<usize>| #[trigger] is_walk(r, p) && p[0] == s && p.last() == w;
        let q = p.push(t);
        assert forall|i: int| 0 <= i < q.len() - 1 implies #[trigger] r(q[i], q[i + 1]) by {
            if i < p.len() - 1 {
                assert(r(p[i], p[i + 1]));
            }
        }
        assert(is_walk(r, q));
    }
}

/// A set holding `s` and closed under steps from its members holds everything `s` reaches.
proof fn lemma_closed_holds_reached(r: spec_fn(usize, usize) -> bool, s: usize, c: Set<usize>, t: usize)
    requires
        c.contains(s),
        forall|v: usize, w: usize| #[trigger] c.contains(v) && #[trigger] r(v, w) ==> c.contains(w),
        reaches(r, s, t),
    ensures
        c.contains(t),
{
    let p = choose|p: Seq<usize>| #[trigger] is_walk(r, p) && p[0] == s && p.last() == t;
    lemma_closed_walk_prefix(r, c, p, p.len() - 1);
}

proof fn lemma_closed_walk_prefix(r: spec_fn(usize, usize) -> bool, c: Set<usize>, p: Seq<usize>, i: int)
    requires
        is_walk(r, p),
        c.contains(p[0]),
        forall|v: usize, w: usize| #[trigger] c.contains(v) && #[trigger] r(v, w) ==> c.contains(w),
        0 <= i < p.len(),
    ensures
        c.contains(p[i]),
    decreases i,
{
    if i > 0 {
        lemma_closed_walk_prefix(r, c, p, i - 1);
        assert(r(p[i - 1], p[i - 1 + 1]));
    }
}

/// One more edge adds at most the arc that edge is.
proof fn lemma_arc_upto_step(edges: Seq<IrEdge>, n: nat, k: int, a: usize, b: usize)
    requires
        0 <= k < edges.len(),
    ensures
        arc_upto(edges, n, k + 1, a, b) <==> (arc_upto(edges, n, k, a, b) || (a != b && edge_is(edges, n, k, a, b))),
{
    if arc_upto(edges, n, k + 1, a, b) && !arc_upto(edges, n, k, a, b) {
        let i = choose|i: int| 0 <= i < k + 1 && #[trigger] edge_is(edges, n, i, a, b);
        assert(i == k);
    }
    if arc_upto(edges, n, k, a, b) {
        let i = choose|i: int| 0 <= i < k && #[trigger] edge_is(edges, n, i, a, b);
        assert(0 <= i < k + 1);
    }
}

proof fn lemma_push_contains(s: Seq<usize>, x: usize, v: usize)
    ensures
        s.push(x).contains(v) <==> (s.contains(v) || v == x),
{
    if s.contains(v) {
        let j = choose|j: int| 0 <= j < s.len() && s[j] == v;
        assert(s.push(x)[j] == v);
    }
    if s.push(x).contains(v) && v != x {
        let j = choose|j: int| 0 <= j < s.push(x).len() && s.push(x)[j] == v;
        assert(s[j] == v);
    }
    assert(s.push(x)[s.len() as int] == x);
}

/// The adjacency lists of a graph: arcs leaving each node (`forward`), arcs entering it
/// (`backward`), or both.
fn build_adjacency(node_count: usize, edges: &[IrEdge], forward: bool, backward: bool) -> (adj: Vec<Vec<usize>>)
    ensures
        adj@.len() == node_count,
        forall|u: int, v: usize| 0 <= u < node_count ==> (#[trigger] adj@[u]@.contains(v)
            <==> ((forward && arc(edges@, node_count as nat, u as usize, v))
                || (backward && arc(edges@, node_count as nat, v, u as usize)))),
        forall|u: int, j: int| 0 <= u < node_count && 0 <= j < adj@[u]@.len() ==> (#[trigger] adj@[u]@[j]) < node_count,
{
    let ghost n = node_count as nat;
    let mut adj: Vec<Vec<usize>> = Vec::new();
    let mut u: usize = 0;
    while u < node_count
        invariant
            u <= node_count,
            adj@.len() == u,
            forall|x: int| 0 <= x < u ==> (#[trigger] adj@[x])@.len() == 0,
        decreases node_count - u,
    {
        adj.push(Vec::new());
        u = u + 1;
    }
    let mut k: usize = 0;
    while k < edges.len()
        invariant
            n == node_count as nat,
            k <= edges@.len(),
            adj@.len() == node_count,
            forall|x: int, v: usize| 0 <= x < node_count ==> (#[trigger] adj@[x]@.contains(v)
                <==> ((forward && arc_upto(edges@, n, k as int, x as usize, v))
                    || (backward && arc_upto(edges@, n, k as int, v, x as usize)))),
            forall|x: int, j: int| 0 <= x < node_count && 0 <= j < adj@[x]@.len() ==> (#[trigger] adj@[x]@[j]) < node_count,
        decreases edges@.len() - k,
    {
        let from = endpoint_node_index(&edges[k].from);
        let to = endpoint_node_index(&edges[k].to);
        let ghost before = adj@;
        let mut is_arc = false;
        let mut f: usize = 0;
        let mut t: usize = 0;
        match (from, to) {
            (Some(a), Some(b)) => {
                if a < node_count && b < node_count && a != b {
                    is_arc = true;
                    f = a;
                    t = b;
                }
            },
            _ => {},
        }
        if is_arc {
            if forward {
                adj[f].push(t);
            }
            if backward {
                adj[t].push(f);
            }
        }
        proof {
            assert forall|x: int, v: usize| 0 <= x < node_count implies (#[trigger] adj@[x]@.contains(v)
                <==> ((forward && arc_upto(edges@, n, k + 1, x as usize, v))
                    || (backward && arc_upto(edges@, n, k + 1, v, x as usize)))) by {
                lemma_arc_upto_step(edges@, n, k as int, x as usize, v);
                lemma_arc_upto_step(edges@, n, k as int, v, x as usize);
                if is_arc {
                    assert(edge_is(edges@, n, k as int, f, t));
                    if forward && x == f {
                        assert(adj@[x]@ == before[x]@.push(t));
                        lemma_push_contains(before[x]@, t, v);
                    } else if backward && x == t {
                        assert(adj@[x]@ == before[x]@.push(f));
                        lemma_push_contains(before[x]@, f, v);
                    } else {
                        assert(adj@[x]@ == before[x]@);
                    }
                    if edge_is(edges@, n, k as int, x as usize, v) {
                        assert(x == f && v == t);
                    }
                    if edge_is(edges@, n, k as int, v, x as usize) {
                        assert(v == f && x == t);
                    }
                } else {
                    assert(adj@[x]@ == before[x]@);
                    assert(!edge_is(edges@, n, k as int, x as usize, v) || x == v);
                    assert(!edge_is(edges@, n, k as int, v, x as usize) || x == v);
                }
            }
            assert forall|x: int, j: int| 0 <= x < node_count && 0 <= j < adj@[x]@.len() implies (#[trigger] adj@[x]@[j]) < node_count by {
                if j < before[x]@.len() {
                    assert(adj@[x]@[j] == before[x]@[j]);
                }
            }
        }
        k = k + 1;
    }
    adj
}

} // verus!

verus! {

/// Node indices are ordered as `BTreeSet` and `BTreeMap` keys need.
proof fn lemma_index_keys_ordered()
    ensures
        vstd::laws_cmp::obeys_cmp::<usize>(),
        vstd::std_specs::btree::key_obeys_cmp_spec::<usize>(),
{
    broadcast use vstd::std_specs::btree::group_btree_axioms;
    broadcast use vstd::laws_cmp::group_laws_cmp;
}

/// A finite set of node indices below `n` has at most `n` members.
proof fn lemma_bounded_set_len(s: Set<usize>, n: nat)
    requires
        s.finite(),
        forall|x: usize| #[trigger] s.contains(x) ==> x < n,
    ensures
        s.len() <= n,
    decreases n,
{
    if n == 0 {
        assert(s =~= Set::empty());
    } else {
        let k: int = n - 1;
        if k > usize::MAX {
            lemma_bounded_set_len(s, k as nat);
        } else {
            let t = s.remove(k as usize);
            assert forall|x: usize| #[trigger] t.contains(x) implies x < k as nat by {
                assert(s.contains(x));
            }
            lemma_bounded_set_len(t, k as nat);
        }
    }
}

/// Nodes without incoming arcs.
pub open spec fn source_set(edges: Seq<IrEdge>, n: nat) -> Set<usize> {
    Set::new(|v: usize| v < n && forall|u: usize| !#[trigger] arc(edges, n, u, v))
}

/// Nodes without outgoing arcs.
pub open spec fn sink_set(edges: Seq<IrEdge>, n: nat) -> Set<usize> {
    Set::new(|v: usize| v < n && forall|w: usize| !#[trigger] arc(edges, n, v, w))
}

/// The nodes of a graph with `n` nodes.
pub open spec fn node_set(n: nat) -> Set<usize> {
    Set::new(|v: usize| v < n)
}

/// Breadth-first search from `start`: the nodes other than `start` it reaches, as a set
/// and as a duplicate-free list.
fn reach_from(node_count: usize, Ghost(r): Ghost<spec_fn(usize, usize) -> bool>, adj: &Vec<Vec<usize>>, start: usize)
    -> (res: (BTreeSet<usize>, Vec<usize>))
    requires
        start < node_count,
        adj@.len() == node_count,
        forall|u: int, v: usize| 0 <= u < node_count ==> (#[trigger] adj@[u]@.contains(v)
            <==> r(u as usize, v)),
        forall|u: int, j: int| 0 <= u < node_count && 0 <= j < adj@[u]@.len() ==> (#[trigger] adj@[u]@[j]) < node_count,
    ensures
        res.0@ == reach_set(r, start),
        forall|t: usize| #[trigger] res.0@.contains(t) ==> t < node_count,
        res.1@.no_duplicates(),
        forall|t: usize| #[trigger] res.1@.contains(t) <==> res.0@.contains(t),
{
    proof {
        lemma_index_keys_ordered();
    }
    let ghost n = node_count as nat;
    let mut reachable: BTreeSet<usize> = BTreeSet::new();
    let mut reached: Vec<usize> = Vec::new();
    let mut queue: VecDeque<usize> = VecDeque::new();
    queue.push_back(start);
    let ghost mut done: Set<usize> = Set::empty();
    assert(queue@[0] == start);
    while queue.len() > 0
        invariant
            start < node_count,
            n == node_count as nat,
            adj@.len() == node_count,
            forall|u: int, v: usize| 0 <= u < node_count ==> (#[trigger] adj@[u]@.contains(v)
                <==> r(u as usize, v)),
            forall|u: int, j: int| 0 <= u < node_count && 0 <= j < adj@[u]@.len() ==> (#[trigger] adj@[u]@[j]) < node_count,
            reachable@.finite(),
            forall|x: usize| #[trigger] reachable@.contains(x) ==> x < n && x != start && reaches(r, start, x),
            forall|j: int| 0 <= j < queue@.len() ==> (#[trigger] queue@[j]) < n
                && (queue@[j] == start || reachable@.contains(queue@[j])),
            forall|v: usize, w: usize| #[trigger] done.contains(v) && r(v, w) ==> (w == start || #[trigger] reachable@.contains(w)),
            done.contains(start) || queue@.contains(start),
            forall|x: usize| #[trigger] reachable@.contains(x) ==> (done.contains(x) || queue@.contains(x)),
            forall|x: usize| #[trigger] done.contains(x) ==> x == start || reachable@.contains(x),
            reached@.no_duplicates(),
            forall|t: usize| #[trigger] reached@.contains(t) <==> reachable@.contains(t),
        decreases n - reachable@.len(), queue@.len(),
    {
        proof {
            lemma_bounded_set_len(reachable@, n);
        }
        let ghost q_old = queue@;
        let v = queue.pop_front().unwrap();
        let ghost q_rest = queue@;
        proof {
            assert forall|x: usize| q_old.contains(x) && x != v implies q_rest.contains(x) by {
                let k = choose|k: int| 0 <= k < q_old.len() && q_old[k] == x;
                assert(k != 0);
                assert(q_rest[k - 1] == x);
            }
        }
        let ghost len_before = reachable@.len();
        let mut j: usize = 0;
        while j < adj[v].len()
            invariant
                v < node_count,
                start < node_count,
                n == node_count as nat,
                    adj@.len() == node_count,
                forall|u: int, w: usize| 0 <= u < node_count ==> (#[trigger] adj@[u]@.contains(w)
                    <==> r(u as usize, w)),
                forall|u: int, jj: int| 0 <= u < node_count && 0 <= jj < adj@[u]@.len() ==> (#[trigger] adj@[u]@[jj]) < node_count,
                v == start || reachable@.contains(v),
                j <= adj@[v as int]@.len(),
                reachable@.finite(),
                reachable@.len() >= len_before,
                forall|x: usize| #[trigger] reachable@.contains(x) ==> x < n && x != start && reaches(r, start, x),
                forall|jj: int| 0 <= jj < queue@.len() ==> (#[trigger] queue@[jj]) < n
                    && (queue@[jj] == start || reachable@.contains(queue@[jj])),
                forall|vv: usize, w: usize| #[trigger] done.contains(vv) && r(vv, w) ==> (w == start || #[trigger] reachable@.contains(w)),
                start == v || done.contains(start) || queue@.contains(start),
                forall|x: usize| #[trigger] reachable@.contains(x) ==> (x == v || done.contains(x) || queue@.contains(x)),
                forall|x: usize| #[trigger] done.contains(x) ==> x == start || reachable@.contains(x),
                forall|jj: int| 0 <= jj < j ==> (#[trigger] adj@[v as int]@[jj] == start || reachable@.contains(adj@[v as int]@[jj])),
                queue@.len() >= q_rest.len(),
                reachable@.len() == len_before ==> queue@.len() == q_rest.len(),
                reached@.no_duplicates(),
                forall|t: usize| #[trigger] reached@.contains(t) <==> reachable@.contains(t),
            decreases adj@[v as int]@.len() - j,
        {
            let w = adj[v][j];
            if w != start && !reachable.contains(&w) {
                proof {
                    assert(adj@[v as int]@.contains(w));
                    assert(r(v, w));
                    lemma_reaches_extend(r, start, v, w);
                    assert(!reached@.contains(w));
                }
                let ghost before_q = queue@;
                let ghost before_r = reached@;
                let ghost before_set = reachable@;
                reachable.insert(w);
                queue.push_back(w);
                reached.push(w);
                proof {
                    assert(reachable@ == before_set.insert(w));
                    assert(reachable@.len() == before_set.len() + 1);
                    assert forall|jj: int| 0 <= jj < queue@.len() implies (#[trigger] queue@[jj]) < n
                        && (queue@[jj] == start || reachable@.contains(queue@[jj])) by {
                        if jj < before_q.len() {
                            assert(queue@[jj] == before_q[jj]);
                        }
                    }
                    assert forall|x: usize| before_q.contains(x) implies queue@.contains(x) by {
                        let k = choose|k: int| 0 <= k < before_q.len() && before_q[k] == x;
                        assert(queue@[k] == x);
                    }
                    assert(queue@[queue@.len() - 1] == w);
                    assert forall|x: usize| #[trigger] reachable@.contains(x) implies (x == v || done.contains(x) || queue@.contains(x)) by {
                        if x != w {
                            assert(before_q.contains(x) ==> queue@.contains(x));
                        }
                    }
                    assert(reached@ == before_r.push(w));
                    assert(reached@.no_duplicates()) by {
                        assert forall|a: int, b: int| 0 <= a < reached@.len() && 0 <= b < reached@.len() && a != b implies reached@[a] != reached@[b] by {
                            if a < before_r.len() && b < before_r.len() {
                                assert(before_r[a] == reached@[a] && before_r[b] == reached@[b]);
                            } else if a < before_r.len() {
                                assert(before_r[a] == reached@[a]);
                                assert(before_r.contains(before_r[a]));
                            } else if b < before_r.len() {
                                assert(before_r[b] == reached@[b]);
                                assert(before_r.contains(before_r[b]));
                            }
                        }
                    }
                    assert forall|t: usize| #[trigger] reached@.contains(t) <==> reachable@.contains(t) by {
                        if reached@.contains(t) && t != w {
                            let k = choose|k: int| 0 <= k < reached@.len() && reached@[k] == t;
                            assert(k < before_r.len());
                            assert(before_r[k] == t);
                            assert(before_r.contains(t));
                        }
                        if reachable@.contains(t) && t != w {
                            assert(before_set.contains(t));
                            assert(before_r.contains(t));
                            let k = choose|k: int| 0 <= k < before_r.len() && before_r[k] == t;
                            assert(reached@[k] == t);
                        }
                        if t == w {
                            assert(reached@[before_r.len() as int] == w);
                        }
                    }
                }
            }
            j = j + 1;
        }
        proof {
            assert forall|w: usize| r(v, w) implies (w == start || #[trigger] reachable@.contains(w)) by {
                assert(adj@[v as int]@.contains(w));
                let jj = choose|jj: int| 0 <= jj < adj@[v as int]@.len() && adj@[v as int]@[jj] == w;
            }
            done = done.insert(v);
            lemma_bounded_set_len(reachable@, n);
        }
    }
    proof {
        let c = reachable@.insert(start);
        assert forall|v: usize, w: usize| #[trigger] c.contains(v) && #[trigger] r(v, w) implies c.contains(w) by {
            if v != start {
                assert(reachable@.contains(v));
            }
            assert(done.contains(v));
        }
        assert forall|t: usize| #[trigger] reachable@.contains(t) <==> reach_set(r, start).contains(t) by {
            if reach_set(r, start).contains(t) {
                lemma_closed_holds_reached(r, start, c, t);
            }
        }
        assert(reachable@ =~= reach_set(r, start));
    }
    (reachable, reached)
}

/// The reachability relation of a graph of `node_count` nodes: what each node reaches,
/// what reaches each node, and the nodes without incoming or outgoing arcs. Self-loops,
/// ports and edges to unknown nodes take no part.
pub fn compute_reachability(node_count: usize, edges: &[IrEdge]) -> (res: ReachabilityResult)
    ensures
        res.reachable_from@.dom() == node_set(node_count as nat),
        forall|v: usize| v < node_count ==> (#[trigger] res.reachable_from@[v])@
            == reach_set(arcs(edges@, node_count as nat), v),
        res.reaches_to@.dom() == node_set(node_count as nat),
        forall|v: usize| v < node_count ==> (#[trigger] res.reaches_to@[v])@
            == reached_by_set(arcs(edges@, node_count as nat), v),
        res.sources@ == source_set(edges@, node_count as nat),
        res.sinks@ == sink_set(edges@, node_count as nat),
{
    proof {
        lemma_index_keys_ordered();
    }
    let ghost n = node_count as nat;
    let ghost r = arcs(edges@, n);
    let out_adj = build_adjacency(node_count, edges, true, false);
    let in_adj = build_adjacency(node_count, edges, false, true);
    let mut reachable_from: BTreeMap<usize, BTreeSet<usize>> = BTreeMap::new();
    let mut reached_by: Vec<BTreeSet<usize>> = Vec::new();
    let mut v: usize = 0;
    while v < node_count
        invariant
            v <= node_count,
            reached_by@.len() == v,
            forall|x: int| 0 <= x < v ==> (#[trigger] reached_by@[x])@ == Set::<usize>::empty(),
        decreases node_count - v,
    {
        reached_by.push(BTreeSet::new());
        v = v + 1;
    }
    let mut start: usize = 0;
    while start < node_count
        invariant
            n == node_count as nat,
            r == arcs(edges@, n),
            start <= node_count,
            out_adj@.len() == node_count,
            forall|u: int, w: usize| 0 <= u < node_count ==> (#[trigger] out_adj@[u]@.contains(w)
                <==> r(u as usize, w)),
            forall|u: int, j: int| 0 <= u < node_count && 0 <= j < out_adj@[u]@.len() ==> (#[trigger] out_adj@[u]@[j]) < node_count,
            reachable_from@.dom() == Set::new(|x: usize| x < start),
            forall|x: usize| x < start ==> (#[trigger] reachable_from@[x])@ == reach_set(r, x),
            reached_by@.len() == node_count,
            forall|t: int| 0 <= t < node_count ==> (#[trigger] reached_by@[t])@
                == Set::new(|s: usize| s < start && s != t && reaches(r, s, t as usize)),
        decreases node_count - start,
    {
        let (set, list) = reach_from(node_count, Ghost(r), &out_adj, start);
        let ghost before = reached_by@;
        let mut j: usize = 0;
        while j < list.len()
            invariant
                n == node_count as nat,
                start < node_count,
                set@ == reach_set(r, start),
                forall|t: usize| #[trigger] set@.contains(t) ==> t < node_count,
                list@.no_duplicates(),
                forall|t: usize| #[trigger] list@.contains(t) <==> set@.contains(t),
                j <= list@.len(),
                reached_by@.len() == node_count,
                forall|t: int| 0 <= t < node_count ==> (#[trigger] reached_by@[t])@
                    == if list@.take(j as int).contains(t as usize) { before[t]@.insert(start) } else { before[t]@ },
            decreases list@.len() - j,
        {
            let t = list[j];
            proof {
                assert(list@.contains(t));
            }
            let ghost mid = reached_by@;
            reached_by[t].insert(start);
            proof {
                assert forall|x: int| 0 <= x < node_count implies (#[trigger] reached_by@[x])@
                    == if list@.take(j + 1).contains(x as usize) { before[x]@.insert(start) } else { before[x]@ } by {
                    assert(list@.take(j + 1) == list@.take(j as int).push(t));
                    lemma_push_contains(list@.take(j as int), t, x as usize);
                    if x == t {
                        if list@.take(j as int).contains(t) {
                            let k = choose|k: int| 0 <= k < j && list@.take(j as int)[k] == t;
                            assert(list@[k] == list@[j as int]);
                        }
                    } else {
                        assert(reached_by@[x] == mid[x]);
                    }
                }
            }
            j = j + 1;
        }
        proof {
            assert(list@.take(list@.len() as int) == list@);
            assert forall|t: int| 0 <= t < node_count implies (#[trigger] reached_by@[t])@
                == Set::new(|s: usize| s < start + 1 && s != t && reaches(r, s, t as usize)) by {
                assert(reached_by@[t]@ =~= Set::new(|s: usize| s < start + 1 && s != t && reaches(r, s, t as usize)));
            }
        }
        reachable_from.insert(start, set);
        proof {
            assert(reachable_from@.dom() =~= Set::new(|x: usize| x < start + 1));
        }
        start = start + 1;
    }
    let mut reaches_to: BTreeMap<usize, BTreeSet<usize>> = BTreeMap::new();
    let mut i: usize = node_count;
    while i > 0
        invariant
            i <= node_count,
            reached_by@.len() == i,
            forall|t: int| 0 <= t < i ==> (#[trigger] reached_by@[t])@
                == Set::new(|s: usize| s < node_count && s != t && reaches(r, s, t as usize)),
            reaches_to@.dom() == Set::new(|x: usize| i <= x < node_count),
            forall|x: usize| i <= x < node_count ==> (#[trigger] reaches_to@[x])@
                == Set::new(|s: usize| s < node_count && s != x && reaches(r, s, x)),
        decreases i,
    {
        i = i - 1;
        let set = reached_by.pop().unwrap();
        reaches_to.insert(i, set);
        proof {
            assert(reaches_to@.dom() =~= Set::new(|x: usize| i <= x < node_count));
        }
    }
    let mut sources: BTreeSet<usize> = BTreeSet::new();
    let mut sinks: BTreeSet<usize> = BTreeSet::new();
    let mut v: usize = 0;
    while v < node_count
        invariant
            n == node_count as nat,
            v <= node_count,
            out_adj@.len() == node_count,
            in_adj@.len() == node_count,
            forall|u: int, w: usize| 0 <= u < node_count ==> (#[trigger] out_adj@[u]@.contains(w)
                <==> arc(edges@, n, u as usize, w)),
            forall|u: int, w: usize| 0 <= u < node_count ==> (#[trigger] in_adj@[u]@.contains(w)
                <==> arc(edges@, n, w, u as usize)),
            sources@ == Set::new(|x: usize| x < v && forall|u: usize| !#[trigger] arc(edges@, n, u, x)),
            sinks@ == Set::new(|x: usize| x < v && forall|w: usize| !#[trigger] arc(edges@, n, x, w)),
        decreases node_count - v,
    {
        if in_adj[v].len() == 0 {
            sources.insert(v);
            proof {
                assert forall|u: usize| !#[trigger] arc(edges@, n, u, v) by {
                    if arc(edges@, n, u, v) {
                        assert(in_adj@[v as int]@.contains(u));
                    }
                }
            }
        } else {
            proof {
                let u = in_adj@[v as int]@[0];
                assert(in_adj@[v as int]@.contains(u));
                assert(arc(edges@, n, u, v));
            }
        }
        if out_adj[v].len() == 0 {
            sinks.insert(v);
            proof {
                assert forall|w: usize| !#[trigger] arc(edges@, n, v, w) by {
                    if arc(edges@, n, v, w) {
                        assert(out_adj@[v as int]@.contains(w));
                    }
                }
            }
        } else {
            proof {
                let w = out_adj@[v as int]@[0];
                assert(out_adj@[v as int]@.contains(w));
                assert(arc(edges@, n, v, w));
            }
        }
        proof {
            assert(sources@ =~= Set::new(|x: usize| x < v + 1 && forall|u: usize| !#[trigger] arc(edges@, n, u, x)));
            assert(sinks@ =~= Set::new(|x: usize| x < v + 1 && forall|w: usize| !#[trigger] arc(edges@, n, x, w)));
        }
        v = v + 1;
    }
    proof {
        assert(reachable_from@.dom() =~= node_set(n));
        assert(reaches_to@.dom() =~= node_set(n));
        assert(sources@ =~= source_set(edges@, n));
        assert(sinks@ =~= sink_set(edges@, n));
        assert forall|v: usize| v < node_count implies (#[trigger] reaches_to@[v])@ == reached_by_set(r, v) by {
            assert forall|s: usize| reaches(r, s, v) implies s < node_count by {
                lemma_reaches_source_bound(edges@, n, s, v);
            }
            assert(reaches_to@[v]@ =~= reached_by_set(r, v));
        }
    }
    ReachabilityResult { reachable_from, reaches_to, sources, sinks }
}

/// Whatever reaches along arcs is a node.
proof fn lemma_reaches_source_bound(edges: Seq<IrEdge>, n: nat, s: usize, t: usize)
    requires
        reaches(arcs(edges, n), s, t),
    ensures
        s < n,
{
    let r = arcs(edges, n);
    let p = choose|p: Seq<usize>| #[trigger] is_walk(r, p) && p[0] == s && p.last() == t;
    let i0: int = 0;
    assert(r(p[i0], p[i0 + 1]));
    let i = choose|i: int| 0 <= i < edges.len() && #[trigger] edge_is(edges, n, i, p[0], p[1]);
}

/// Walks compose.
proof fn lemma_reaches_trans(r: spec_fn(usize, usize) -> bool, a: usize, b: usize, c: usize)
    requires
        reaches(r, a, b),
        reaches(r, b, c),
    ensures
        reaches(r, a, c),
{
    let p = choose|p: Seq<usize>| #[trigger] is_walk(r, p) && p[0] == a && p.last() == b;
    let q = choose|q: Seq<usize>| #[trigger] is_walk(r, q) && q[0] == b && q.last() == c;
    let w = p + q.skip(1);
    assert forall|i: int| 0 <= i < w.len() - 1 implies #[trigger] r(w[i], w[i + 1]) by {
        if i < p.len() - 1 {
            assert(w[i] == p[i] && w[i + 1] == p[i + 1]);
            assert(r(p[i], p[i + 1]));
        } else {
            let k = i - (p.len() - 1);
            assert(w[i] == q[k] && w[i + 1] == q[k + 1]);
            assert(r(q[k], q[k + 1]));
        }
    }
    assert(is_walk(r, w));
    assert(w.last() == q.last());
}

/// Under a symmetric relation, walks run both ways.
proof fn lemma_reaches_symmetric(r: spec_fn(usize, usize) -> bool, a: usize, b: usize)
    requires
        forall|x: usize, y: usize| #[trigger] r(x, y) ==> r(y, x),
        reaches(r, a, b),
    ensures
        reaches(r, b, a),
{
    let p = choose|p: Seq<usize>| #[trigger] is_walk(r, p) && p[0] == a && p.last() == b;
    let q = p.reverse();
    assert forall|i: int| 0 <= i < q.len() - 1 implies #[trigger] r(q[i], q[i + 1]) by {
        let k = p.len() - 2 - i;
        assert(q[i] == p[k + 1] && q[i + 1] == p[k]);
        assert(r(p[k], p[k + 1]));
    }
    assert(is_walk(r, q));
}

/// `s` is strictly increasing.
pub open spec fn increasing(s: Seq<usize>) -> bool {
    forall|i: int, j: int| 0 <= i < j < s.len() ==> s[i] < s[j]
}

/// One listed class: a non-empty increasing list of exactly the nodes below `n` that
/// `same` relates to its first node.
pub open spec fn is_class_list(c: Seq<usize>, n: nat, same: spec_fn(usize, usize) -> bool) -> bool {
    &&& c.len() >= 1
    &&& increasing(c)
    &&& forall|u: usize| #[trigger] c.contains(u) <==> (u < n && same(c[0], u))
}

/// `comps` lists every class of `same` on the nodes below `n` once, ordered by first node.
pub open spec fn lists_classes(comps: Seq<Seq<usize>>, n: nat, same: spec_fn(usize, usize) -> bool) -> bool {
    &&& forall|i: int| 0 <= i < comps.len() ==> is_class_list(#[trigger] comps[i], n, same)
    &&& forall|i: int, j: int| 0 <= i < j < comps.len() ==> (#[trigger] comps[i])[0] < (#[trigger] comps[j])[0]
    &&& forall|v: usize| v < n ==> #[trigger] listed(comps, v)
}

/// Some list of `comps` holds `v`.
pub open spec fn listed(comps: Seq<Seq<usize>>, v: usize) -> bool {
    exists|i: int| 0 <= i < comps.len() && (#[trigger] comps[i]).contains(v)
}

/// `same` is an equivalence on the nodes below `n`.
pub open spec fn is_equivalence(same: spec_fn(usize, usize) -> bool, n: nat) -> bool {
    &&& forall|a: usize| a < n ==> #[trigger] same(a, a)
    &&& forall|a: usize, b: usize| a < n && b < n && #[trigger] same(a, b) ==> same(b, a)
    &&& forall|a: usize, b: usize, c: usize| a < n && b < n && c < n && #[trigger] same(a, b) && #[trigger] same(b, c) ==> same(a, c)
}

/// The node lists of the classes of `same`, in order of their least nodes, and the
/// position of each node's class.
fn group_classes(
    node_count: usize,
    reach: &Vec<BTreeSet<usize>>,
    mutual: bool,
    Ghost(same): Ghost<spec_fn(usize, usize) -> bool>,
) -> (res: (Vec<Vec<usize>>, Vec<usize>))
    requires
        reach@.len() == node_count,
        forall|a: usize, b: usize| a < node_count && b < node_count ==> (#[trigger] same(a, b) <==> (a == b
            || (reach@[a as int]@.contains(b) && (!mutual || reach@[b as int]@.contains(a))))),
        is_equivalence(same, node_count as nat),
    ensures
        lists_classes(res.0@.map_values(|c: Vec<usize>| c@), node_count as nat, same),
        res.1@.len() == node_count,
        forall|v: int| 0 <= v < node_count ==> (#[trigger] res.1@[v]) < res.0@.len()
            && res.0@[res.1@[v] as int]@.contains(v as usize),
{
    proof {
        lemma_index_keys_ordered();
    }
    let ghost n = node_count as nat;
    let mut comps: Vec<Vec<usize>> = Vec::new();
    let mut comp_of: Vec<usize> = Vec::new();
    let mut assigned: Vec<bool> = Vec::new();
    let mut k: usize = 0;
    while k < node_count
        invariant
            k <= node_count,
            comp_of@.len() == k,
            assigned@.len() == k,
            forall|x: int| 0 <= x < k ==> !(#[trigger] assigned@[x]),
        decreases node_count - k,
    {
        comp_of.push(0);
        assigned.push(false);
        k = k + 1;
    }
    let mut v: usize = 0;
    while v < node_count
        invariant
            n == node_count as nat,
            v <= node_count,
            reach@.len() == node_count,
            forall|a: usize, b: usize| a < node_count && b < node_count ==> (#[trigger] same(a, b) <==> (a == b
                || (reach@[a as int]@.contains(b) && (!mutual || reach@[b as int]@.contains(a))))),
            is_equivalence(same, n),
            comp_of@.len() == node_count,
            assigned@.len() == node_count,
            forall|i: int| 0 <= i < comps@.len() ==> is_class_list(#[trigger] comps@[i]@, n, same),
            forall|i: int| 0 <= i < comps@.len() ==> (#[trigger] comps@[i]@)[0] < v,
            forall|i: int, j: int| 0 <= i < j < comps@.len() ==> (#[trigger] comps@[i]@)[0] < (#[trigger] comps@[j]@)[0],
            forall|x: int| 0 <= x < node_count ==> (#[trigger] assigned@[x] <==> exists|i: int| 0 <= i < comps@.len() && (#[trigger] comps@[i]@).contains(x as usize)),
            forall|x: int| 0 <= x < node_count && #[trigger] assigned@[x] ==> comp_of@[x] < comps@.len() && comps@[comp_of@[x] as int]@.contains(x as usize),
            forall|x: int| 0 <= x < v ==> #[trigger] assigned@[x],
        decreases node_count - v,
    {
        if !assigned[v] {
            let idx = comps.len();
            let ghost before_assigned = assigned@;
            let ghost before_comp_of = comp_of@;
            proof {
                // No node of the class of `v` belongs to an earlier class.
                assert forall|x: usize| x < node_count && #[trigger] same(v, x) implies !before_assigned[x as int] by {
                    if before_assigned[x as int] {
                        let i = choose|i: int| 0 <= i < comps@.len() && (#[trigger] comps@[i]@).contains(x);
                        assert(is_class_list(comps@[i]@, n, same));
                        let f = comps@[i]@[0];
                        assert(same(f, x));
                        assert(same(x, v));
                        assert(same(f, v));
                        assert(comps@[i]@.contains(v));
                    }
                }
            }
            let mut nodes: Vec<usize> = Vec::new();
            let mut u: usize = 0;
            while u < node_count
                invariant
                    n == node_count as nat,
                    v < node_count,
                    u <= node_count,
                    idx == comps@.len(),
                    reach@.len() == node_count,
                    forall|a: usize, b: usize| a < node_count && b < node_count ==> (#[trigger] same(a, b) <==> (a == b
                        || (reach@[a as int]@.contains(b) && (!mutual || reach@[b as int]@.contains(a))))),
                    is_equivalence(same, n),
                    forall|x: int| 0 <= x < v ==> #[trigger] before_assigned[x],
                    !before_assigned[v as int],
                    forall|x: usize| x < node_count && #[trigger] same(v, x) ==> !before_assigned[x as int],
                    comp_of@.len() == node_count,
                    assigned@.len() == node_count,
                    increasing(nodes@),
                    forall|x: usize| #[trigger] nodes@.contains(x) <==> (x < u && same(v, x)),
                    u <= v ==> nodes@.len() == 0,
                    u > v ==> nodes@.len() >= 1 && nodes@[0] == v,
                    forall|j: int| 0 <= j < nodes@.len() ==> (#[trigger] nodes@[j]) < u,
                    forall|x: int| 0 <= x < node_count ==> (#[trigger] assigned@[x] <==> (before_assigned[x]
                        || (x < u && same(v, x as usize)))),
                    forall|x: int| 0 <= x < node_count ==> (#[trigger] comp_of@[x] == if x < u && same(v, x as usize) { idx } else { before_comp_of[x] }),
                decreases node_count - u,
            {
                let member = u == v || (reach[v].contains(&u) && (!mutual || reach[u].contains(&v)));
                if member {
                    proof {
                        assert(same(v, u));
                    }
                    let ghost before_nodes = nodes@;
                    nodes.push(u);
                    assigned.set(u, true);
                    comp_of.set(u, idx);
                    proof {
                        lemma_push_contains(before_nodes, u, 0);
                        assert forall|x: usize| #[trigger] nodes@.contains(x) <==> (x < u + 1 && same(v, x)) by {
                            lemma_push_contains(before_nodes, u, x);
                        }
                        if u > v {
                            assert(nodes@[0] == before_nodes[0]);
                        } else {
                            assert(u == v) by {
                                if u < v {
                                    assert(before_assigned[u as int]);
                                    assert(same(v, u));
                                }
                            }
                        }
                    }
                } else {
                    proof {
                        assert(!same(v, u));
                        if u == v {
                            assert(same(v, v));
                        }
                    }
                }
                u = u + 1;
            }
            let ghost before_comps = comps@;
            comps.push(nodes);
            proof {
                assert(same(v, v));
                assert(comps@[idx as int]@.contains(v));
                assert(is_class_list(comps@[idx as int]@, n, same));
                assert forall|x: int| 0 <= x < node_count implies (#[trigger] assigned@[x] <==> exists|i: int| 0 <= i < comps@.len() && (#[trigger] comps@[i]@).contains(x as usize)) by {
                    if assigned@[x] {
                        if before_assigned[x] {
                            let i = choose|i: int| 0 <= i < before_comps.len() && (#[trigger] before_comps[i]@).contains(x as usize);
                            assert(comps@ == before_comps.push(comps@[idx as int]));
                            assert(comps@[i] == before_comps[i]);
                        } else {
                            assert(comps@[idx as int]@.contains(x as usize));
                        }
                    }
                    if exists|i: int| 0 <= i < comps@.len() && (#[trigger] comps@[i]@).contains(x as usize) {
                        let i = choose|i: int| 0 <= i < comps@.len() && (#[trigger] comps@[i]@).contains(x as usize);
                        if i < idx {
                            assert(before_assigned[x]);
                        }
                    }
                }
            }
        }
        v = v + 1;
    }
    proof {
        assert forall|x: int| 0 <= x < node_count implies (#[trigger] comp_of@[x]) < comps@.len()
            && comps@[comp_of@[x] as int]@.contains(x as usize) by {
            assert(assigned@[x]);
        }
        let cs = comps@.map_values(|c: Vec<usize>| c@);
        assert forall|i: int| 0 <= i < cs.len() implies is_class_list(#[trigger] cs[i], n, same) by {
            assert(cs[i] == comps@[i]@);
        }
        assert forall|i: int, j: int| 0 <= i < j < cs.len() implies (#[trigger] cs[i])[0] < (#[trigger] cs[j])[0] by {
            assert(cs[i] == comps@[i]@ && cs[j] == comps@[j]@);
        }
        assert forall|x: usize| x < n implies #[trigger] listed(cs, x) by {
            assert(assigned@[x as int]);
            let i = choose|i: int| 0 <= i < comps@.len() && (#[trigger] comps@[i]@).contains(x);
            assert(cs[i] == comps@[i]@);
        }
    }
    (comps, comp_of)
}

/// The classes of `same`, the classes of walks under the symmetric relation `r`, in
/// order of their least nodes, and the position of each node's class. Each class is
/// gathered by one search from its least node, so each node is searched once.
fn walk_classes(
    node_count: usize,
    Ghost(r): Ghost<spec_fn(usize, usize) -> bool>,
    adj: &Vec<Vec<usize>>,
    Ghost(same): Ghost<spec_fn(usize, usize) -> bool>,
) -> (res: (Vec<Vec<usize>>, Vec<usize>))
    requires
        adj@.len() == node_count,
        forall|u: int, v: usize| 0 <= u < node_count ==> (#[trigger] adj@[u]@.contains(v) <==> r(u as usize, v)),
        forall|u: int, j: int| 0 <= u < node_count && 0 <= j < adj@[u]@.len() ==> (#[trigger] adj@[u]@[j]) < node_count,
        forall|a: usize, b: usize| a < node_count && b < node_count ==> (#[trigger] same(a, b) <==> (a == b || reaches(r, a, b))),
        is_equivalence(same, node_count as nat),
    ensures
        lists_classes(res.0@.map_values(|c: Vec<usize>| c@), node_count as nat, same),
        res.1@.len() == node_count,
        forall|v: int| 0 <= v < node_count ==> (#[trigger] res.1@[v]) < res.0@.len()
            && res.0@[res.1@[v] as int]@.contains(v as usize),
{
    let ghost n = node_count as nat;
    let mut comp_of: Vec<usize> = Vec::new();
    let mut assigned: Vec<bool> = Vec::new();
    let mut k: usize = 0;
    while k < node_count
        invariant
            k <= node_count,
            comp_of@.len() == k,
            assigned@.len() == k,
            forall|x: int| 0 <= x < k ==> !(#[trigger] assigned@[x]),
        decreases node_count - k,
    {
        comp_of.push(0);
        assigned.push(false);
        k = k + 1;
    }
    let mut count: usize = 0;
    let ghost mut starts: Seq<usize> = Seq::empty();
    let mut v: usize = 0;
    while v < node_count
        invariant
            n == node_count as nat,
            v <= node_count,
            adj@.len() == node_count,
            forall|u: int, w: usize| 0 <= u < node_count ==> (#[trigger] adj@[u]@.contains(w) <==> r(u as usize, w)),
            forall|u: int, j: int| 0 <= u < node_count && 0 <= j < adj@[u]@.len() ==> (#[trigger] adj@[u]@[j]) < node_count,
            forall|a: usize, b: usize| a < node_count && b < node_count ==> (#[trigger] same(a, b) <==> (a == b || reaches(r, a, b))),
            is_equivalence(same, n),
            comp_of@.len() == node_count,
            assigned@.len() == node_count,
            starts.len() == count,
            count <= v,
            forall|i: int| 0 <= i < count ==> (#[trigger] starts[i]) < v,
            forall|i: int, j: int| 0 <= i < j < count ==> (#[trigger] starts[i]) < (#[trigger] starts[j]),
            forall|x: int| 0 <= x < node_count && #[trigger] assigned@[x] ==> comp_of@[x] < count
                && same(starts[comp_of@[x] as int], x as usize) && starts[comp_of@[x] as int] <= x,
            forall|x: usize, i: int| x < node_count && 0 <= i < count && #[trigger] same(starts[i], x)
                ==> assigned@[x as int] && comp_of@[x as int] == i,
            forall|x: int| 0 <= x < v ==> #[trigger] assigned@[x],
        decreases node_count - v,
    {
        if !assigned[v] {
            let ghost before_assigned = assigned@;
            let ghost before_comp_of = comp_of@;
            proof {
                assert forall|x: usize| x < node_count && #[trigger] same(v, x) implies !before_assigned[x as int] by {
                    if before_assigned[x as int] {
                        let c = before_comp_of[x as int] as int;
                        assert(same(starts[c], x));
                        assert(same(x, v));
                        assert(same(starts[c], v));
                    }
                }
            }
            let (_set, list) = reach_from(node_count, Ghost(r), adj, v);
            proof {
                assert forall|x: usize| #[trigger] list@.contains(x) <==> (x < node_count && x != v && same(v, x)) by {
                    if list@.contains(x) {
                        assert(_set@.contains(x));
                    }
                    if x < node_count && x != v && same(v, x) {
                        assert(reach_set(r, v).contains(x));
                    }
                }
            }
            assigned.set(v, true);
            comp_of.set(v, count);
            let mut j: usize = 0;
            while j < list.len()
                invariant
                    v < node_count,
                    comp_of@.len() == node_count,
                    assigned@.len() == node_count,
                    j <= list@.len(),
                    forall|x: usize| #[trigger] list@.contains(x) <==> (x < node_count && x != v && same(v, x)),
                    forall|x: int| 0 <= x < node_count ==> (#[trigger] assigned@[x] <==> (before_assigned[x] || x == v
                        || list@.take(j as int).contains(x as usize))),
                    forall|x: int| 0 <= x < node_count ==> #[trigger] comp_of@[x] == if x == v || list@.take(j as int).contains(x as usize) {
                        count
                    } else {
                        before_comp_of[x]
                    },
                decreases list@.len() - j,
            {
                let x = list[j];
                proof {
                    assert(list@.contains(x));
                    assert(list@.take(j + 1) =~= list@.take(j as int).push(x));
                    assert forall|y: usize| #[trigger] list@.take(j + 1).contains(y) <==> (list@.take(j as int).contains(y) || y == x) by {
                        if list@.take(j + 1).contains(y) && y != x {
                            let q = choose|q: int| 0 <= q < j + 1 && #[trigger] list@.take(j + 1)[q] == y;
                            assert(list@.take(j as int)[q] == y);
                        }
                        if list@.take(j as int).contains(y) {
                            let q = choose|q: int| 0 <= q < j && #[trigger] list@.take(j as int)[q] == y;
                            assert(list@.take(j + 1)[q] == y);
                        }
                        if y == x {
                            assert(list@.take(j + 1)[j as int] == x);
                        }
                    }
                }
                assigned.set(x, true);
                comp_of.set(x, count);
                j = j + 1;
            }
            proof {
                assert(list@.take(j as int) =~= list@);
                let new_starts = starts.push(v);
                assert forall|x: int| 0 <= x < node_count && #[trigger] assigned@[x] implies comp_of@[x] < count + 1
                    && same(new_starts[comp_of@[x] as int], x as usize) && new_starts[comp_of@[x] as int] <= x by {
                    if x == v || list@.contains(x as usize) {
                        assert(comp_of@[x] == count);
                        assert(new_starts[count as int] == v);
                        assert(same(v, v));
                        if x < v {
                            assert(before_assigned[x]);
                            assert(same(v, x as usize));
                        }
                    } else {
                        assert(before_assigned[x]);
                        assert(comp_of@[x] == before_comp_of[x]);
                        assert(new_starts[comp_of@[x] as int] == starts[comp_of@[x] as int]);
                    }
                }
                assert forall|x: usize, i: int| x < node_count && 0 <= i < count + 1 && #[trigger] same(new_starts[i], x)
                    implies assigned@[x as int] && comp_of@[x as int] == i by {
                    if i == count {
                        assert(new_starts[i] == v);
                        if x != v {
                            assert(list@.contains(x));
                        }
                    } else {
                        assert(new_starts[i] == starts[i]);
                        assert(before_assigned[x as int] && before_comp_of[x as int] == i);
                        assert(!same(v, x)) by {
                            if same(v, x) {
                                assert(!before_assigned[x as int]);
                            }
                        }
                        assert(x != v) by {
                            if x == v {
                                assert(same(v, v));
                            }
                        }
                    }
                }
                assert forall|i: int, jj: int| 0 <= i < jj < count + 1 implies (#[trigger] new_starts[i]) < (#[trigger] new_starts[jj]) by {
                    if jj == count {
                        assert(new_starts[i] == starts[i]);
                    }
                }
                starts = new_starts;
            }
            count = count + 1;
        }
        v = v + 1;
    }
    proof {
        assert forall|y: int| 0 <= y < node_count implies (#[trigger] comp_of@[y]) < count by {
            assert(assigned@[y]);
        }
    }
    let mut comps: Vec<Vec<usize>> = Vec::new();
    let mut c: usize = 0;
    while c < count
        invariant
            c <= count,
            comps@.len() == c,
            forall|i: int| 0 <= i < c ==> (#[trigger] comps@[i])@ == Seq::<usize>::empty(),
        decreases count - c,
    {
        comps.push(Vec::new());
        c = c + 1;
    }
    let mut x: usize = 0;
    while x < node_count
        invariant
            x <= node_count,
            comps@.len() == count,
            comp_of@.len() == node_count,
            forall|y: int| 0 <= y < node_count ==> (#[trigger] comp_of@[y]) < count,
            forall|i: int| 0 <= i < count ==> increasing(#[trigger] comps@[i]@),
            forall|i: int, jj: int| 0 <= i < count && 0 <= jj < comps@[i]@.len() ==> (#[trigger] comps@[i]@[jj]) < x,
            forall|i: int, y: usize| 0 <= i < count ==> (#[trigger] comps@[i]@.contains(y) <==> (y < x && comp_of@[y as int] == i)),
        decreases node_count - x,
    {
        let ci = comp_of[x];
        let ghost before = comps@;
        comps[ci].push(x);
        proof {
            assert forall|i: int| 0 <= i < count implies increasing(#[trigger] comps@[i]@) by {
                if i != ci {
                    assert(comps@[i] == before[i]);
                }
            }
            assert forall|i: int, jj: int| 0 <= i < count && 0 <= jj < comps@[i]@.len() implies (#[trigger] comps@[i]@[jj]) < x + 1 by {
                if i != ci {
                    assert(comps@[i] == before[i]);
                } else if jj < before[i]@.len() {
                    assert(comps@[i]@[jj] == before[i]@[jj]);
                }
            }
            assert forall|i: int, y: usize| 0 <= i < count implies (#[trigger] comps@[i]@.contains(y) <==> (y < x + 1 && comp_of@[y as int] == i)) by {
                if i != ci {
                    assert(comps@[i] == before[i]);
                } else {
                    lemma_push_contains(before[i]@, x, y);
                }
            }
        }
        x = x + 1;
    }
    proof {
        let cs = comps@.map_values(|c: Vec<usize>| c@);
        assert forall|i: int| 0 <= i < cs.len() implies (#[trigger] cs[i]).len() >= 1 && cs[i][0] == starts[i] by {
            assert(cs[i] == comps@[i]@);
            assert(same(starts[i], starts[i]));
            assert(comp_of@[starts[i] as int] == i);
            assert(cs[i].contains(starts[i]));
            let f = cs[i][0];
            assert(cs[i].contains(f));
            assert(comp_of@[f as int] == i);
            assert(assigned@[f as int]);
            assert(starts[i] <= f);
            let q = choose|q: int| 0 <= q < cs[i].len() && cs[i][q] == starts[i];
            if q > 0 {
                assert(cs[i][0] < cs[i][q]);
            }
        }
        assert forall|i: int| 0 <= i < cs.len() implies is_class_list(#[trigger] cs[i], n, same) by {
            assert(cs[i] == comps@[i]@);
            assert(cs[i][0] == starts[i]);
            assert forall|u: usize| #[trigger] cs[i].contains(u) <==> (u < n && same(cs[i][0], u)) by {
                if cs[i].contains(u) {
                    assert(assigned@[u as int]);
                    assert(comp_of@[u as int] == i);
                }
                if u < n && same(cs[i][0], u) {
                    assert(same(starts[i], u));
                }
            }
        }
        assert forall|i: int, jj: int| 0 <= i < jj < cs.len() implies (#[trigger] cs[i])[0] < (#[trigger] cs[jj])[0] by {
            assert(cs[i][0] == starts[i] && cs[jj][0] == starts[jj]);
        }
        assert forall|y: usize| y < n implies #[trigger] listed(cs, y) by {
            let i = comp_of@[y as int] as int;
            assert(cs[i] == comps@[i]@);
            assert(cs[i].contains(y));
        }
        assert forall|y: int| 0 <= y < node_count implies (#[trigger] comp_of@[y]) < comps@.len()
            && comps@[comp_of@[y] as int]@.contains(y as usize) by {
        }
    }
    (comps, comp_of)
}

/// Nodes joined by a walk that ignores arc directions (or equal).
pub open spec fn weakly_same(edges: Seq<IrEdge>, n: nat) -> spec_fn(usize, usize) -> bool {
    |a: usize, b: usize| a == b || reaches(links(edges, n), a, b)
}

/// Nodes that reach each other (or are equal).
pub open spec fn strongly_same(edges: Seq<IrEdge>, n: nat) -> spec_fn(usize, usize) -> bool {
    |a: usize, b: usize| a == b || (reaches(arcs(edges, n), a, b) && reaches(arcs(edges, n), b, a))
}

/// Some edge runs from node `v` to itself.
pub open spec fn has_self_loop(edges: Seq<IrEdge>, n: nat, v: usize) -> bool {
    exists|i: int| #[trigger] edge_is(edges, n, i, v, v)
}

/// The node lists of weakly connected components.
pub open spec fn weak_lists(cs: Seq<WeaklyConnectedComponent>) -> Seq<Seq<usize>> {
    cs.map_values(|c: WeaklyConnectedComponent| c.nodes@)
}

/// The node lists of strongly connected components.
pub open spec fn strong_lists(cs: Seq<StronglyConnectedComponent>) -> Seq<Seq<usize>> {
    cs.map_values(|c: StronglyConnectedComponent| c.nodes@)
}

/// `m` is the length of the longest list (0 when there is none).
pub open spec fn is_longest(lists: Seq<Seq<usize>>, m: nat) -> bool {
    &&& forall|i: int| 0 <= i < lists.len() ==> (#[trigger] lists[i]).len() <= m
    &&& lists.len() == 0 ==> m == 0
    &&& lists.len() > 0 ==> exists|i: int| 0 <= i < lists.len() && (#[trigger] lists[i]).len() == m
}

/// How many of the components are non-trivial.
pub open spec fn non_trivial_count_of(cs: Seq<StronglyConnectedComponent>) -> nat
    decreases cs.len(),
{
    if cs.len() == 0 {
        0
    } else {
        non_trivial_count_of(cs.drop_last()) + if cs.last().is_trivial { 0nat } else { 1nat }
    }
}

/// The reach set of every node under the relation that `adj` lists.
fn all_reach_sets(node_count: usize, Ghost(r): Ghost<spec_fn(usize, usize) -> bool>, adj: &Vec<Vec<usize>>)
    -> (reach: Vec<BTreeSet<usize>>)
    requires
        adj@.len() == node_count,
        forall|u: int, v: usize| 0 <= u < node_count ==> (#[trigger] adj@[u]@.contains(v) <==> r(u as usize, v)),
        forall|u: int, j: int| 0 <= u < node_count && 0 <= j < adj@[u]@.len() ==> (#[trigger] adj@[u]@[j]) < node_count,
    ensures
        reach@.len() == node_count,
        forall|v: int| 0 <= v < node_count ==> (#[trigger] reach@[v])@ == reach_set(r, v as usize),
{
    let mut reach: Vec<BTreeSet<usize>> = Vec::new();
    let mut v: usize = 0;
    while v < node_count
        invariant
            v <= node_count,
            adj@.len() == node_count,
            forall|u: int, w: usize| 0 <= u < node_count ==> (#[trigger] adj@[u]@.contains(w) <==> r(u as usize, w)),
            forall|u: int, j: int| 0 <= u < node_count && 0 <= j < adj@[u]@.len() ==> (#[trigger] adj@[u]@[j]) < node_count,
            reach@.len() == v,
            forall|x: int| 0 <= x < v ==> (#[trigger] reach@[x])@ == reach_set(r, x as usize),
        decreases node_count - v,
    {
        let (set, _list) = reach_from(node_count, Ghost(r), adj, v);
        reach.push(set);
        v = v + 1;
    }
    reach
}

/// Each node's position as a map.
fn position_map(comp_of: &Vec<usize>) -> (m: BTreeMap<usize, usize>)
    ensures
        m@.dom() == node_set(comp_of@.len()),
        forall|v: usize| v < comp_of@.len() ==> #[trigger] m@[v] == comp_of@[v as int],
{
    proof {
        lemma_index_keys_ordered();
    }
    let mut m: BTreeMap<usize, usize> = BTreeMap::new();
    let mut v: usize = 0;
    while v < comp_of.len()
        invariant
            v <= comp_of@.len(),
            m@.dom() == Set::new(|x: usize| x < v),
            forall|x: usize| x < v ==> #[trigger] m@[x] == comp_of@[x as int],
        decreases comp_of@.len() - v,
    {
        m.insert(v, comp_of[v]);
        proof {
            assert(m@.dom() =~= Set::new(|x: usize| x < v + 1));
        }
        v = v + 1;
    }
    proof {
        assert(m@.dom() =~= node_set(comp_of@.len()));
    }
    m
}

/// The weakly connected components of a graph of `node_count` nodes: the classes of nodes
/// joined by arcs taken in either direction, each listed in increasing order, ordered by
/// least node.
pub fn compute_wcc(node_count: usize, edges: &[IrEdge]) -> (res: WccResult)
    ensures
        lists_classes(weak_lists(res.components@), node_count as nat, weakly_same(edges@, node_count as nat)),
        forall|i: int| 0 <= i < res.components@.len() ==> (#[trigger] res.components@[i]).index == i,
        res.is_connected == (res.components@.len() <= 1),
        is_longest(weak_lists(res.components@), res.max_component_size as nat),
        res.node_to_component@.dom() == node_set(node_count as nat),
        forall|v: usize| v < node_count ==> (#[trigger] res.node_to_component@[v]) < res.components@.len()
            && res.components@[res.node_to_component@[v] as int].nodes@.contains(v),
{
    let ghost n = node_count as nat;
    let ghost r = links(edges@, n);
    let ghost same = weakly_same(edges@, n);
    let adj = build_adjacency(node_count, edges, true, true);
    proof {
        assert forall|x: usize, y: usize| #[trigger] r(x, y) ==> r(y, x) by {}
        assert forall|a: usize, b: usize| a < n && b < n && #[trigger] same(a, b) implies same(b, a) by {
            if a != b {
                lemma_reaches_symmetric(r, a, b);
            }
        }
        assert forall|a: usize, b: usize, c: usize| a < n && b < n && c < n && #[trigger] same(a, b) && #[trigger] same(b, c) implies same(a, c) by {
            if a != b && b != c {
                lemma_reaches_trans(r, a, b, c);
            }
        }
    }
    let (comps, comp_of) = walk_classes(node_count, Ghost(r), &adj, Ghost(same));
    let node_to_component = position_map(&comp_of);
    let mut components: Vec<WeaklyConnectedComponent> = Vec::new();
    let mut max_component_size: usize = 0;
    let mut i: usize = 0;
    while i < comps.len()
        invariant
            i <= comps@.len(),
            components@.len() == i,
            forall|k: int| 0 <= k < i ==> (#[trigger] components@[k]).index == k && components@[k].nodes@ == comps@[k]@,
            forall|k: int| 0 <= k < i ==> (#[trigger] components@[k]).nodes@.len() <= max_component_size,
            i == 0 ==> max_component_size == 0,
            i > 0 ==> exists|k: int| 0 <= k < i && (#[trigger] components@[k]).nodes@.len() == max_component_size,
        decreases comps@.len() - i,
    {
        let nodes = comps[i].clone();
        proof {
            assert(nodes@ =~= comps@[i as int]@);
        }
        let ghost before = components@;
        let ghost old_max = max_component_size;
        if nodes.len() > max_component_size {
            max_component_size = nodes.len();
        }
        components.push(WeaklyConnectedComponent { index: i, nodes });
        proof {
            assert(components@[i as int].nodes@.len() <= max_component_size);
            if max_component_size == old_max && i > 0 {
                let k = choose|k: int| 0 <= k < i && (#[trigger] before[k]).nodes@.len() == old_max;
                assert(components@[k] == before[k]);
            } else {
                assert(components@[i as int].nodes@.len() == max_component_size);
            }
        }
        i = i + 1;
    }
    proof {
        assert(weak_lists(components@) =~= comps@.map_values(|c: Vec<usize>| c@));
        let wl = weak_lists(components@);
        assert forall|k: int| 0 <= k < wl.len() implies (#[trigger] wl[k]).len() <= max_component_size by {
            assert(wl[k] == components@[k].nodes@);
        }
        if wl.len() > 0 {
            let k = choose|k: int| 0 <= k < i && (#[trigger] components@[k]).nodes@.len() == max_component_size;
            assert(wl[k] == components@[k].nodes@);
        }
        assert forall|v: usize| v < node_count implies (#[trigger] node_to_component@[v]) < components@.len()
            && components@[node_to_component@[v] as int].nodes@.contains(v) by {
            assert(node_to_component@[v] == comp_of@[v as int]);
        }
    }
    let is_connected = components.len() <= 1;
    WccResult { components, is_connected, max_component_size, node_to_component }
}

/// Whether each node has an edge to itself.
#[verifier::spinoff_prover]
fn self_loop_flags(node_count: usize, edges: &[IrEdge]) -> (flags: Vec<bool>)
    ensures
        flags@.len() == node_count,
        forall|v: int| 0 <= v < node_count ==> (#[trigger] flags@[v] <==> has_self_loop(edges@, node_count as nat, v as usize)),
{
    let ghost n = node_count as nat;
    let mut flags: Vec<bool> = Vec::new();
    let mut v: usize = 0;
    while v < node_count
        invariant
            v <= node_count,
            flags@.len() == v,
            forall|x: int| 0 <= x < v ==> !(#[trigger] flags@[x]),
        decreases node_count - v,
    {
        flags.push(false);
        v = v + 1;
    }
    let mut k: usize = 0;
    while k < edges.len()
        invariant
            n == node_count as nat,
            k <= edges@.len(),
            flags@.len() == node_count,
            forall|x: int| 0 <= x < node_count ==> (#[trigger] flags@[x] <==> exists|i: int| 0 <= i < k && #[trigger] edge_is(edges@, n, i, x as usize, x as usize)),
        decreases edges@.len() - k,
    {
        let from = endpoint_node_index(&edges[k].from);
        let to = endpoint_node_index(&edges[k].to);
        let ghost before = flags@;
        match (from, to) {
            (Some(a), Some(b)) => {
                if a < node_count && b < node_count && a == b {
                    flags.set(a, true);
                    proof {
                        assert(edge_is(edges@, n, k as int, a, a));
                    }
                }
            },
            _ => {},
        }
        proof {
            assert forall|x: int| 0 <= x < node_count implies (#[trigger] flags@[x] <==> exists|i: int| 0 <= i < k + 1 && #[trigger] edge_is(edges@, n, i, x as usize, x as usize)) by {
                if exists|i: int| 0 <= i < k + 1 && #[trigger] edge_is(edges@, n, i, x as usize, x as usize) {
                    let i = choose|i: int| 0 <= i < k + 1 && #[trigger] edge_is(edges@, n, i, x as usize, x as usize);
                    if i < k {
                        assert(before[x]);
                    }
                }
                if before[x] {
                    let i = choose|i: int| 0 <= i < k && #[trigger] edge_is(edges@, n, i, x as usize, x as usize);
                    assert(0 <= i < k + 1);
                }
            }
        }
        k = k + 1;
    }
    proof {
        assert forall|v: int| 0 <= v < node_count implies (#[trigger] flags@[v] <==> has_self_loop(edges@, n, v as usize)) by {
            if has_self_loop(edges@, n, v as usize) {
                let i = choose|i: int| #[trigger] edge_is(edges@, n, i, v as usize, v as usize);
                assert(0 <= i < edges@.len());
            }
        }
    }
    flags
}

/// The strongly connected components of a graph of `node_count` nodes: the classes of
/// nodes that reach each other, each listed in increasing order, ordered by least node. A
/// component is trivial when it is a single node without an edge to itself.
pub fn compute_scc(node_count: usize, edges: &[IrEdge]) -> (res: SccResult)
    ensures
        lists_classes(strong_lists(res.components@), node_count as nat, strongly_same(edges@, node_count as nat)),
        forall|i: int| 0 <= i < res.components@.len() ==> (#[trigger] res.components@[i]).index == i
            && res.components@[i].is_trivial == (res.components@[i].nodes@.len() == 1
                && !has_self_loop(edges@, node_count as nat, res.components@[i].nodes@[0])),
        res.non_trivial_count == non_trivial_count_of(res.components@),
        is_longest(strong_lists(res.components@), res.max_component_size as nat),
        res.node_to_component@.dom() == node_set(node_count as nat),
        forall|v: usize| v < node_count ==> (#[trigger] res.node_to_component@[v]) < res.components@.len()
            && res.components@[res.node_to_component@[v] as int].nodes@.contains(v),
{
    let ghost n = node_count as nat;
    let ghost r = arcs(edges@, n);
    let ghost same = strongly_same(edges@, n);
    let adj = build_adjacency(node_count, edges, true, false);
    let reach = all_reach_sets(node_count, Ghost(r), &adj);
    let loops = self_loop_flags(node_count, edges);
    proof {
        assert forall|a: usize, b: usize| a < node_count && b < node_count implies (#[trigger] same(a, b) <==> (a == b
            || (reach@[a as int]@.contains(b) && (!true || reach@[b as int]@.contains(a))))) by {
            assert(reach@[a as int]@ == reach_set(r, a));
            assert(reach@[b as int]@ == reach_set(r, b));
        }
        assert forall|a: usize, b: usize, c: usize| a < n && b < n && c < n && #[trigger] same(a, b) && #[trigger] same(b, c) implies same(a, c) by {
            if a != b && b != c && a != c {
                lemma_reaches_trans(r, a, b, c);
                lemma_reaches_trans(r, c, b, a);
            }
        }
    }
    let (comps, comp_of) = group_classes(node_count, &reach, true, Ghost(same));
    proof {
        let cs = comps@.map_values(|c: Vec<usize>| c@);
        assert forall|k: int| 0 <= k < comps@.len() implies is_class_list(#[trigger] comps@[k]@, n, same) by {
            assert(cs[k] == comps@[k]@);
        }
    }
    let node_to_component = position_map(&comp_of);
    let mut components: Vec<StronglyConnectedComponent> = Vec::new();
    let mut max_component_size: usize = 0;
    let mut non_trivial_count: usize = 0;
    let mut i: usize = 0;
    while i < comps.len()
        invariant
            n == node_count as nat,
            loops@.len() == node_count,
            forall|v: int| 0 <= v < node_count ==> (#[trigger] loops@[v] <==> has_self_loop(edges@, n, v as usize)),
            forall|k: int| 0 <= k < comps@.len() ==> is_class_list(#[trigger] comps@[k]@, n, same),
            i <= comps@.len(),
            components@.len() == i,
            forall|k: int| 0 <= k < i ==> (#[trigger] components@[k]).index == k && components@[k].nodes@ == comps@[k]@
                && components@[k].is_trivial == (components@[k].nodes@.len() == 1
                    && !has_self_loop(edges@, n, components@[k].nodes@[0])),
            non_trivial_count == non_trivial_count_of(components@),
            non_trivial_count <= i,
            forall|k: int| 0 <= k < i ==> (#[trigger] components@[k]).nodes@.len() <= max_component_size,
            i == 0 ==> max_component_size == 0,
            i > 0 ==> exists|k: int| 0 <= k < i && (#[trigger] components@[k]).nodes@.len() == max_component_size,
        decreases comps@.len() - i,
    {
        let nodes = comps[i].clone();
        proof {
            assert(nodes@ =~= comps@[i as int]@);
            assert(is_class_list(comps@[i as int]@, n, same));
            assert(comps@[i as int]@.contains(comps@[i as int]@[0]));
        }
        let is_trivial = nodes.len() == 1 && !loops[nodes[0]];
        let ghost before = components@;
        let ghost old_max = max_component_size;
        if nodes.len() > max_component_size {
            max_component_size = nodes.len();
        }
        if !is_trivial {
            non_trivial_count = non_trivial_count + 1;
        }
        components.push(StronglyConnectedComponent { index: i, nodes, is_trivial });
        proof {
            assert(components@.drop_last() == before);
            assert(components@[i as int].nodes@.len() <= max_component_size);
            if max_component_size == old_max && i > 0 {
                let k = choose|k: int| 0 <= k < i && (#[trigger] before[k]).nodes@.len() == old_max;
                assert(components@[k] == before[k]);
            } else {
                assert(components@[i as int].nodes@.len() == max_component_size);
            }
        }
        i = i + 1;
    }
    proof {
        assert(strong_lists(components@) =~= comps@.map_values(|c: Vec<usize>| c@));
        let sl = strong_lists(components@);
        assert forall|k: int| 0 <= k < sl.len() implies (#[trigger] sl[k]).len() <= max_component_size by {
            assert(sl[k] == components@[k].nodes@);
        }
        if sl.len() > 0 {
            let k = choose|k: int| 0 <= k < i && (#[trigger] components@[k]).nodes@.len() == max_component_size;
            assert(sl[k] == components@[k].nodes@);
        }
        assert forall|v: usize| v < node_count implies (#[trigger] node_to_component@[v]) < components@.len()
            && components@[node_to_component@[v] as int].nodes@.contains(v) by {
            assert(node_to_component@[v] == comp_of@[v as int]);
        }
    }
    SccResult { components, non_trivial_count, max_component_size, node_to_component }
}

/// Some edge runs from node `u` to node `v` (self-loops included).
pub open spec fn edge_between(edges: Seq<IrEdge>, n: nat, u: usize, v: usize) -> bool {
    exists|k: int| #[trigger] edge_is(edges, n, k, u, v)
}

/// The edge relation of a graph, self-loops included.
pub open spec fn steps(edges: Seq<IrEdge>, n: nat) -> spec_fn(usize, usize) -> bool {
    |u: usize, v: usize| edge_between(edges, n, u, v)
}

/// The graph has a directed cycle: a node that a walk along edges leads back to.
pub open spec fn has_directed_cycle(edges: Seq<IrEdge>, n: nat) -> bool {
    exists|v: usize| #[trigger] reaches(steps(edges, n), v, v)
}

/// The position before `j` in a cyclic list of length `len`.
pub open spec fn cyclic_prev(j: int, len: int) -> int {
    if j == 0 { len - 1 } else { j - 1 }
}

/// `c` is a directed cycle of distinct nodes: `edges[j]` runs from the node before
/// `nodes[j]` (cyclically) to `nodes[j]`.
pub open spec fn cycle_ok(edges: Seq<IrEdge>, n: nat, c: DirectedCycle) -> bool {
    &&& c.nodes@.len() >= 1
    &&& c.edges@.len() == c.nodes@.len()
    &&& c.nodes@.no_duplicates()
    &&& forall|j: int| 0 <= j < c.nodes@.len() ==> #[trigger] edge_is(edges, n, c.edges@[j] as int,
            c.nodes@[cyclic_prev(j, c.nodes@.len() as int)], c.nodes@[j])
}

/// Node `x` lies on one of the cycles.
pub open spec fn on_some_cycle(cs: Seq<DirectedCycle>, x: usize) -> bool {
    exists|i: int| 0 <= i < cs.len() && (#[trigger] cs[i]).nodes@.contains(x)
}

/// Edge `k` lies on one of the cycles.
pub open spec fn edge_on_some_cycle(cs: Seq<DirectedCycle>, k: usize) -> bool {
    exists|i: int| 0 <= i < cs.len() && (#[trigger] cs[i]).edges@.contains(k)
}

/// Each node's edges as (target, edge index) pairs, in order of target and then index.
fn build_indexed_adjacency(node_count: usize, edges: &[IrEdge]) -> (adj: Vec<Vec<(usize, usize)>>)
    ensures
        adj@.len() == node_count,
        forall|u: int, w: usize, k: usize| 0 <= u < node_count ==> (#[trigger] adj@[u]@.contains((w, k))
            <==> edge_is(edges@, node_count as nat, k as int, u as usize, w)),
        forall|u: int, j: int| 0 <= u < node_count && 0 <= j < adj@[u]@.len() ==> (#[trigger] adj@[u]@[j]).0 < node_count,
{
    let ghost n = node_count as nat;
    let mut by_source: Vec<Vec<(usize, usize)>> = Vec::new();
    let mut u: usize = 0;
    while u < node_count
        invariant
            u <= node_count,
            by_source@.len() == u,
            forall|x: int| 0 <= x < u ==> (#[trigger] by_source@[x])@.len() == 0,
        decreases node_count - u,
    {
        by_source.push(Vec::new());
        u = u + 1;
    }
    let mut k: usize = 0;
    while k < edges.len()
        invariant
            n == node_count as nat,
            k <= edges@.len(),
            by_source@.len() == node_count,
            forall|x: int, w: usize, i: usize| 0 <= x < node_count ==> (#[trigger] by_source@[x]@.contains((w, i))
                <==> (i < k && edge_is(edges@, n, i as int, x as usize, w))),
        decreases edges@.len() - k,
    {
        let from = endpoint_node_index(&edges[k].from);
        let to = endpoint_node_index(&edges[k].to);
        let ghost before = by_source@;
        match (from, to) {
            (Some(a), Some(b)) => {
                if a < node_count && b < node_count {
                    by_source[a].push((b, k));
                }
            },
            _ => {},
        }
        proof {
            assert forall|x: int, w: usize, i: usize| 0 <= x < node_count implies (#[trigger] by_source@[x]@.contains((w, i))
                <==> (i < k + 1 && edge_is(edges@, n, i as int, x as usize, w))) by {
                if by_source@[x] != before[x] {
                    let b = to->0;
                    assert(by_source@[x]@ == before[x]@.push((b, k)));
                    if by_source@[x]@.contains((w, i)) && !before[x]@.contains((w, i)) {
                        let j = choose|j: int| 0 <= j < by_source@[x]@.len() && by_source@[x]@[j] == (w, i);
                        if j < before[x]@.len() {
                            assert(before[x]@[j] == (w, i));
                        }
                    }
                    if before[x]@.contains((w, i)) {
                        let j = choose|j: int| 0 <= j < before[x]@.len() && before[x]@[j] == (w, i);
                        assert(by_source@[x]@[j] == (w, i));
                    }
                    if i == k && edge_is(edges@, n, i as int, x as usize, w) {
                        assert(by_source@[x]@[before[x]@.len() as int] == (w, i));
                    }
                }
            }
        }
        k = k + 1;
    }
    let mut adj: Vec<Vec<(usize, usize)>> = Vec::new();
    let mut v: usize = 0;
    while v < node_count
        invariant
            n == node_count as nat,
            v <= node_count,
            adj@.len() == v,
            by_source@.len() == node_count,
            forall|x: int, w: usize, i: usize| 0 <= x < node_count ==> (#[trigger] by_source@[x]@.contains((w, i))
                <==> (i < edges@.len() && edge_is(edges@, n, i as int, x as usize, w))),
            forall|x: int, w: usize, i: usize| 0 <= x < v ==> (#[trigger] adj@[x]@.contains((w, i))
                <==> edge_is(edges@, n, i as int, x as usize, w)),
            forall|x: int, j: int| 0 <= x < v && 0 <= j < adj@[x]@.len() ==> (#[trigger] adj@[x]@[j]).0 < node_count,
        decreases node_count - v,
    {
        let src = &by_source[v];
        let mut sorted: Vec<(usize, usize)> = Vec::new();
        let mut t: usize = 0;
        while t < node_count
            invariant
                t <= node_count,
                forall|w: usize, i: usize| #[trigger] sorted@.contains((w, i)) <==> (w < t && src@.contains((w, i))),
                forall|j: int| 0 <= j < sorted@.len() ==> (#[trigger] sorted@[j]).0 < t,
            decreases node_count - t,
        {
            let mut j: usize = 0;
            while j < src.len()
                invariant
                    t < node_count,
                    j <= src@.len(),
                    forall|w: usize, i: usize| #[trigger] sorted@.contains((w, i)) <==> ((w < t && src@.contains((w, i)))
                        || (w == t && src@.take(j as int).contains((w, i)))),
                    forall|jj: int| 0 <= jj < sorted@.len() ==> (#[trigger] sorted@[jj]).0 <= t,
                decreases src@.len() - j,
            {
                let e = src[j];
                let ghost before_sorted = sorted@;
                if e.0 == t {
                    sorted.push(e);
                }
                proof {
                    assert(src@.take(j + 1) == src@.take(j as int).push(e));
                    assert forall|w: usize, i: usize| #[trigger] sorted@.contains((w, i)) <==> ((w < t && src@.contains((w, i)))
                        || (w == t && src@.take(j + 1).contains((w, i)))) by {
                        lemma_pair_push_contains(src@.take(j as int), e, (w, i));
                        if e.0 == t {
                            lemma_pair_push_contains(before_sorted, e, (w, i));
                        }
                    }
                }
                j = j + 1;
            }
            proof {
                assert(src@.take(src@.len() as int) == src@);
                assert forall|w: usize, i: usize| #[trigger] sorted@.contains((w, i)) <==> (w < t + 1 && src@.contains((w, i))) by {}
            }
            t = t + 1;
        }
        proof {
            assert forall|w: usize, i: usize| #[trigger] sorted@.contains((w, i)) <==> edge_is(edges@, n, i as int, v as usize, w) by {
                if src@.contains((w, i)) {
                    assert(edge_is(edges@, n, i as int, v as usize, w));
                }
            }
        }
        adj.push(sorted);
        v = v + 1;
    }
    adj
}

proof fn lemma_pair_push_contains(s: Seq<(usize, usize)>, x: (usize, usize), y: (usize, usize))
    ensures
        s.push(x).contains(y) <==> (s.contains(y) || y == x),
{
    if s.contains(y) {
        let j = choose|j: int| 0 <= j < s.len() && s[j] == y;
        assert(s.push(x)[j] == y);
    }
    if s.push(x).contains(y) && y != x {
        let j = choose|j: int| 0 <= j < s.push(x).len() && s.push(x)[j] == y;
        assert(s[j] == y);
    }
    assert(s.push(x)[s.len() as int] == x);
}

/// Where the search stands on a node.
#[derive(Clone, Copy)]
enum VisitColor {
    White,
    Gray,
    Black,
}

/// The state of the depth-first search for cycles.
struct CycleSearch {
    color: Vec<VisitColor>,
    parent: Vec<Option<usize>>,
    parent_edge: Vec<Option<usize>>,
    cycles: Vec<DirectedCycle>,
    cyclic_nodes: BTreeSet<usize>,
    cyclic_edges: BTreeSet<usize>,
    /// The nodes in the order the search finished them.
    finished: Ghost<Seq<usize>>,
}

/// Each node of the search path above the first was entered from the node below it, along
/// the recorded edge.
pub open spec fn linked_at(stack: Seq<usize>, parent: Seq<Option<usize>>, parent_edge: Seq<Option<usize>>,
    edges: Seq<IrEdge>, n: nat, i: int) -> bool {
    &&& parent[stack[i] as int] == Some(stack[i - 1])
    &&& parent_edge[stack[i] as int] is Some
    &&& edge_is(edges, n, parent_edge[stack[i] as int]->0 as int, stack[i - 1], stack[i])
}

pub open spec fn stack_linked(stack: Seq<usize>, parent: Seq<Option<usize>>, parent_edge: Seq<Option<usize>>,
    edges: Seq<IrEdge>, n: nat) -> bool {
    forall|i: int| 0 < i < stack.len() ==> #[trigger] linked_at(stack, parent, parent_edge, edges, n, i)
}

/// Every edge leaving a finished node leads to a node finished before it.
pub open spec fn closed_before(f: Seq<usize>, edges: Seq<IrEdge>, n: nat) -> bool {
    forall|a: int, k: int, w: usize| 0 <= a < f.len() && #[trigger] edge_is(edges, n, k, f[a], w)
        ==> f.take(a).contains(w)
}

spec fn is_gray(c: VisitColor) -> bool {
    c is Gray
}

spec fn is_black(c: VisitColor) -> bool {
    c is Black
}

spec fn search_wf(st: CycleSearch, edges: Seq<IrEdge>, n: nat, stack: Seq<usize>) -> bool {
    &&& n <= usize::MAX
    &&& st.color@.len() == n
    &&& st.parent@.len() == n
    &&& st.parent_edge@.len() == n
    &&& stack.no_duplicates()
    &&& forall|i: int| 0 <= i < stack.len() ==> (#[trigger] stack[i]) < n
    &&& st.finished@.no_duplicates()
    &&& forall|i: int| 0 <= i < st.finished@.len() ==> (#[trigger] st.finished@[i]) < n
    &&& forall|x: int| 0 <= x < n ==> (is_gray(#[trigger] st.color@[x]) <==> stack.contains(x as usize))
    &&& forall|x: int| 0 <= x < n ==> (is_black(#[trigger] st.color@[x]) <==> st.finished@.contains(x as usize))
    &&& stack_linked(stack, st.parent@, st.parent_edge@, edges, n)
    &&& forall|i: int| 0 <= i < st.cycles@.len() ==> cycle_ok(edges, n, #[trigger] st.cycles@[i])
    &&& forall|x: usize| #[trigger] st.cyclic_nodes@.contains(x) <==> on_some_cycle(st.cycles@, x)
    &&& forall|k: usize| #[trigger] st.cyclic_edges@.contains(k) <==> edge_on_some_cycle(st.cycles@, k)
    &&& st.cycles@.len() == 0 ==> closed_before(st.finished@, edges, n)
}

/// The list in reverse order.
fn reversed(v: &Vec<usize>) -> (r: Vec<usize>)
    ensures
        r@.len() == v@.len(),
        forall|j: int| 0 <= j < v@.len() ==> #[trigger] r@[j] == v@[v@.len() - 1 - j],
{
    let mut r: Vec<usize> = Vec::new();
    let mut i: usize = v.len();
    while i > 0
        invariant
            i <= v@.len(),
            r@.len() == v@.len() - i,
            forall|j: int| 0 <= j < r@.len() ==> #[trigger] r@[j] == v@[v@.len() - 1 - j],
        decreases i,
    {
        i = i - 1;
        r.push(v[i]);
    }
    r
}

/// The cycle closed by the edge `k` from `v`, the top of the search path, back to `w`
/// on that path.
fn extract_cycle(
    parent: &Vec<Option<usize>>,
    parent_edge: &Vec<Option<usize>>,
    v: usize,
    w: usize,
    k: usize,
    Ghost(stack): Ghost<Seq<usize>>,
    Ghost(edges): Ghost<Seq<IrEdge>>,
    Ghost(n): Ghost<nat>,
) -> (c: DirectedCycle)
    requires
        parent@.len() == n,
        parent_edge@.len() == n,
        stack.len() >= 1,
        stack.last() == v,
        stack.contains(w),
        stack.no_duplicates(),
        forall|i: int| 0 <= i < stack.len() ==> (#[trigger] stack[i]) < n,
        stack_linked(stack, parent@, parent_edge@, edges, n),
        edge_is(edges, n, k as int, v, w),
    ensures
        cycle_ok(edges, n, c),
{
    let ghost len = stack.len() as int;
    let ghost pos = choose|p: int| 0 <= p < stack.len() && stack[p] == w;
    let mut tmp_nodes: Vec<usize> = vec![w];
    let mut tmp_edges: Vec<usize> = vec![k];
    let mut curr = v;
    let ghost mut c: int = len - 1;
    while curr != w
        invariant
            parent@.len() == n,
            parent_edge@.len() == n,
            stack.len() == len,
            0 <= pos < len,
            stack[pos] == w,
            stack.no_duplicates(),
            forall|i: int| 0 <= i < stack.len() ==> (#[trigger] stack[i]) < n,
            stack_linked(stack, parent@, parent_edge@, edges, n),
            pos <= c <= len - 1,
            curr == stack[c],
            tmp_nodes@.len() == len - c,
            tmp_edges@.len() == len - c,
            tmp_nodes@[0] == w,
            tmp_edges@[0] == k,
            forall|i: int| 1 <= i < len - c ==> #[trigger] tmp_nodes@[i] == stack[len - i],
            forall|i: int| 1 <= i < len - c ==> #[trigger] tmp_edges@[i] == parent_edge@[stack[len - i] as int]->0,
        decreases c,
    {
        proof {
            assert(c != pos);
            assert(linked_at(stack, parent@, parent_edge@, edges, n, c));
        }
        tmp_nodes.push(curr);
        if let Some(pe) = parent_edge[curr] {
            tmp_edges.push(pe);
        }
        curr = match parent[curr] {
            Some(p) => p,
            None => w,
        };
        proof {
            c = c - 1;
        }
    }
    proof {
        assert(c == pos);
    }
    let nodes = reversed(&tmp_nodes);
    let cycle_edges = reversed(&tmp_edges);
    let ghost m = len - pos;
    proof {
        // nodes = stack[pos + 1 .. len] followed by w; cycle_edges follow the same order.
        assert forall|j: int| 0 <= j < m - 1 implies #[trigger] nodes@[j] == stack[pos + 1 + j] by {
            assert(nodes@[j] == tmp_nodes@[m - 1 - j]);
        }
        assert(nodes@[m - 1] == w);
        assert forall|j: int| 0 <= j < m - 1 implies #[trigger] cycle_edges@[j] == parent_edge@[stack[pos + 1 + j] as int]->0 by {
            assert(cycle_edges@[j] == tmp_edges@[m - 1 - j]);
        }
        assert(cycle_edges@[m - 1] == k);
        assert forall|a: int, b: int| 0 <= a < nodes@.len() && 0 <= b < nodes@.len() && a != b implies nodes@[a] != nodes@[b] by {
            if a < m - 1 && b < m - 1 {
                assert(nodes@[a] == stack[pos + 1 + a] && nodes@[b] == stack[pos + 1 + b]);
            } else if a < m - 1 {
                assert(nodes@[a] == stack[pos + 1 + a]);
            } else if b < m - 1 {
                assert(nodes@[b] == stack[pos + 1 + b]);
            }
        }
        assert forall|j: int| 0 <= j < nodes@.len() implies #[trigger] edge_is(edges, n, cycle_edges@[j] as int,
            nodes@[cyclic_prev(j, nodes@.len() as int)], nodes@[j]) by {
            if j < m - 1 {
                assert(linked_at(stack, parent@, parent_edge@, edges, n, pos + 1 + j));
                if j > 0 {
                    assert(nodes@[j - 1] == stack[pos + 1 + (j - 1)]);
                }
            } else if m >= 2 {
                assert(nodes@[m - 2] == stack[pos + 1 + (m - 2)]);
            }
        }
    }
    DirectedCycle { nodes, edges: cycle_edges }
}

/// Add a cycle to the list and its nodes and edges to the sets.
fn record_cycle(
    cycles: &mut Vec<DirectedCycle>,
    node_set: &mut BTreeSet<usize>,
    edge_set: &mut BTreeSet<usize>,
    c: DirectedCycle,
)
    requires
        forall|x: usize| #[trigger] old(node_set)@.contains(x) <==> on_some_cycle(old(cycles)@, x),
        forall|k: usize| #[trigger] old(edge_set)@.contains(k) <==> edge_on_some_cycle(old(cycles)@, k),
    ensures
        final(cycles)@ == old(cycles)@.push(c),
        forall|x: usize| #[trigger] final(node_set)@.contains(x) <==> on_some_cycle(final(cycles)@, x),
        forall|k: usize| #[trigger] final(edge_set)@.contains(k) <==> edge_on_some_cycle(final(cycles)@, k),
{
    proof {
        lemma_index_keys_ordered();
    }
    let ghost old_cycles = cycles@;
    let mut j: usize = 0;
    while j < c.nodes.len()
        invariant
            j <= c.nodes@.len(),
            cycles@ == old_cycles,
            forall|x: usize| #[trigger] node_set@.contains(x) <==> (on_some_cycle(old_cycles, x) || c.nodes@.take(j as int).contains(x)),
        decreases c.nodes@.len() - j,
    {
        node_set.insert(c.nodes[j]);
        proof {
            assert(c.nodes@.take(j + 1) == c.nodes@.take(j as int).push(c.nodes@[j as int]));
            assert forall|x: usize| #[trigger] node_set@.contains(x) <==> (on_some_cycle(old_cycles, x) || c.nodes@.take(j + 1).contains(x)) by {
                lemma_push_contains(c.nodes@.take(j as int), c.nodes@[j as int], x);
            }
        }
        j = j + 1;
    }
    proof {
        assert(c.nodes@.take(c.nodes@.len() as int) == c.nodes@);
    }
    let mut j: usize = 0;
    while j < c.edges.len()
        invariant
            j <= c.edges@.len(),
            cycles@ == old_cycles,
            forall|k: usize| #[trigger] edge_set@.contains(k) <==> (edge_on_some_cycle(old_cycles, k) || c.edges@.take(j as int).contains(k)),
            forall|x: usize| #[trigger] node_set@.contains(x) <==> (on_some_cycle(old_cycles, x) || c.nodes@.contains(x)),
        decreases c.edges@.len() - j,
    {
        edge_set.insert(c.edges[j]);
        proof {
            assert(c.edges@.take(j + 1) == c.edges@.take(j as int).push(c.edges@[j as int]));
            assert forall|k: usize| #[trigger] edge_set@.contains(k) <==> (edge_on_some_cycle(old_cycles, k) || c.edges@.take(j + 1).contains(k)) by {
                lemma_push_contains(c.edges@.take(j as int), c.edges@[j as int], k);
            }
        }
        j = j + 1;
    }
    proof {
        assert(c.edges@.take(c.edges@.len() as int) == c.edges@);
        assert forall|k: usize| #[trigger] edge_set@.contains(k) <==> (edge_on_some_cycle(old_cycles, k) || c.edges@.contains(k)) by {
            assert(c.edges@.take(j as int) == c.edges@);
        }
    }
    cycles.push(c);
    proof {
        assert forall|x: usize| on_some_cycle(cycles@, x) <==> (on_some_cycle(old_cycles, x) || c.nodes@.contains(x)) by {
            if on_some_cycle(cycles@, x) {
                let i = choose|i: int| 0 <= i < cycles@.len() && (#[trigger] cycles@[i]).nodes@.contains(x);
                if i < old_cycles.len() {
                    assert(cycles@[i] == old_cycles[i]);
                }
            }
            if on_some_cycle(old_cycles, x) {
                let i = choose|i: int| 0 <= i < old_cycles.len() && (#[trigger] old_cycles[i]).nodes@.contains(x);
                assert(cycles@[i] == old_cycles[i]);
            }
            if c.nodes@.contains(x) {
                assert(cycles@[old_cycles.len() as int] == c);
            }
        }
        assert forall|k: usize| edge_on_some_cycle(cycles@, k) <==> (edge_on_some_cycle(old_cycles, k) || c.edges@.contains(k)) by {
            if edge_on_some_cycle(cycles@, k) {
                let i = choose|i: int| 0 <= i < cycles@.len() && (#[trigger] cycles@[i]).edges@.contains(k);
                if i < old_cycles.len() {
                    assert(cycles@[i] == old_cycles[i]);
                }
            }
            if edge_on_some_cycle(old_cycles, k) {
                let i = choose|i: int| 0 <= i < old_cycles.len() && (#[trigger] old_cycles[i]).edges@.contains(k);
                assert(cycles@[i] == old_cycles[i]);
            }
            if c.edges@.contains(k) {
                assert(cycles@[old_cycles.len() as int] == c);
            }
        }
    }
}

/// The path and the finished nodes are disjoint lists of nodes, so together with one more
/// node they number at most `n`.
proof fn lemma_search_count(stack: Seq<usize>, finished: Seq<usize>, w: usize, n: nat)
    requires
        stack.no_duplicates(),
        finished.no_duplicates(),
        forall|i: int| 0 <= i < stack.len() ==> (#[trigger] stack[i]) < n,
        forall|i: int| 0 <= i < finished.len() ==> (#[trigger] finished[i]) < n,
        forall|x: usize| #[trigger] stack.contains(x) ==> !finished.contains(x),
        w < n,
        !stack.contains(w),
        !finished.contains(w),
    ensures
        stack.len() + finished.len() + 1 <= n,
{
    stack.unique_seq_to_set();
    finished.unique_seq_to_set();
    let a = stack.to_set();
    let b = finished.to_set();
    let c = set![w];
    assert(a.disjoint(b));
    vstd::set_lib::lemma_set_disjoint_lens(a, b);
    assert((a + b).disjoint(c));
    vstd::set_lib::lemma_set_disjoint_lens(a + b, c);
    assert forall|x: usize| #[trigger] (a + b + c).contains(x) implies x < n by {
        if a.contains(x) {
            let i = choose|i: int| 0 <= i < stack.len() && stack[i] == x;
        } else if b.contains(x) {
            let i = choose|i: int| 0 <= i < finished.len() && finished[i] == x;
        }
    }
    lemma_bounded_set_len(a + b + c, n);
}

/// Each node's indexed edges, as `build_indexed_adjacency` lists them.
pub open spec fn indexed_adjacency(adj: Seq<Vec<(usize, usize)>>, edges: Seq<IrEdge>, n: nat) -> bool {
    &&& edges.len() <= usize::MAX
    &&& adj.len() == n
    &&& forall|u: int, w: usize, k: usize| 0 <= u < n ==> (#[trigger] adj[u]@.contains((w, k))
            <==> edge_is(edges, n, k as int, u as usize, w))
    &&& forall|u: int, j: int| 0 <= u < n && 0 <= j < adj[u]@.len() ==> (#[trigger] adj[u]@[j]).0 < n
}

/// Depth-first visit of the white node `v` above the search path `stack`: records a cycle
/// for every edge back to a node on the path, and finishes `v`.
fn visit(
    v: usize,
    adj: &Vec<Vec<(usize, usize)>>,
    st: &mut CycleSearch,
    Ghost(stack): Ghost<Seq<usize>>,
    Ghost(edges): Ghost<Seq<IrEdge>>,
    Ghost(n): Ghost<nat>,
    Ghost(budget): Ghost<int>,
)
    requires
        v < n,
        budget == n - stack.len() - old(st).finished@.len(),
        indexed_adjacency(adj@, edges, n),
        search_wf(*old(st), edges, n, stack),
        !stack.contains(v),
        !old(st).finished@.contains(v),
        stack_linked(stack.push(v), old(st).parent@, old(st).parent_edge@, edges, n),
    ensures
        search_wf(*final(st), edges, n, stack),
        final(st).finished@.contains(v),
        old(st).finished@.is_prefix_of(final(st).finished@),
        old(st).cycles@.len() <= final(st).cycles@.len(),
    decreases budget,
{
    proof {
        assert forall|x: usize| #[trigger] stack.contains(x) implies !st.finished@.contains(x) by {
            let i = choose|i: int| 0 <= i < stack.len() && stack[i] == x;
            assert(x < n);
            assert(is_gray(st.color@[x as int]));
        }
        lemma_search_count(stack, st.finished@, v, n);
    }
    let ghost entry_finished = st.finished@;
    let ghost entry_cycles_len = st.cycles@.len();
    let ghost path = stack.push(v);
    let ghost color0 = st.color@;
    st.color.set(v, VisitColor::Gray);
    proof {
        assert(path[stack.len() as int] == v);
        assert forall|x: int| 0 <= x < n implies (is_gray(#[trigger] st.color@[x]) <==> path.contains(x as usize)) by {
            lemma_push_contains(stack, v, x as usize);
            if x != v {
                assert(st.color@[x] == color0[x]);
            }
        }
        assert forall|x: int| 0 <= x < n implies (is_black(#[trigger] st.color@[x]) <==> st.finished@.contains(x as usize)) by {
            if x == v {
                assert(!is_black(st.color@[x]));
            }
        }
        assert(path.no_duplicates()) by {
            assert forall|a: int, b: int| 0 <= a < path.len() && 0 <= b < path.len() && a != b implies path[a] != path[b] by {
                if a < stack.len() && b < stack.len() {
                    assert(path[a] == stack[a] && path[b] == stack[b]);
                } else if a < stack.len() {
                    assert(path[a] == stack[a]);
                    assert(stack.contains(path[a]));
                } else if b < stack.len() {
                    assert(path[b] == stack[b]);
                    assert(stack.contains(path[b]));
                }
            }
        }
        assert forall|i: int| 0 <= i < path.len() implies (#[trigger] path[i]) < n by {
            if i < stack.len() {
                assert(path[i] == stack[i]);
            }
        }
        assert(search_wf(*st, edges, n, path));
    }
    let mut j: usize = 0;
    while j < adj[v].len()
        invariant
            v < n,
            path == stack.push(v),
            path.len() == stack.len() + 1,
            indexed_adjacency(adj@, edges, n),
            search_wf(*st, edges, n, path),
            entry_finished.is_prefix_of(st.finished@),
            entry_cycles_len <= st.cycles@.len(),
            n - stack.len() - entry_finished.len() >= 1,
            budget == n - stack.len() - entry_finished.len(),
            j <= adj@[v as int]@.len(),
            st.cycles@.len() == 0 ==> forall|jj: int| 0 <= jj < j ==> st.finished@.contains((#[trigger] adj@[v as int]@[jj]).0),
        decreases adj@[v as int]@.len() - j,
    {
        let (w, k) = adj[v][j];
        proof {
            assert(adj@[v as int]@.contains((w, k)));
            assert(edge_is(edges, n, k as int, v, w));
        }
        let ghost before = *st;
        match st.color[w] {
            VisitColor::Gray => {
                proof {
                    assert(is_gray(st.color@[w as int]));
                    assert(path.last() == v);
                }
                let c = extract_cycle(&st.parent, &st.parent_edge, v, w, k, Ghost(path), Ghost(edges), Ghost(n));
                record_cycle(&mut st.cycles, &mut st.cyclic_nodes, &mut st.cyclic_edges, c);
                proof {
                    assert forall|i: int| 0 <= i < st.cycles@.len() implies cycle_ok(edges, n, #[trigger] st.cycles@[i]) by {
                        if i < before.cycles@.len() {
                            assert(st.cycles@[i] == before.cycles@[i]);
                        }
                    }
                }
            },
            VisitColor::White => {
                proof {
                    assert(!is_gray(st.color@[w as int]) && !is_black(st.color@[w as int]));
                }
                st.parent.set(w, Some(v));
                st.parent_edge.set(w, Some(k));
                proof {
                    let p2 = path.push(w);
                    assert forall|i: int| 0 < i < p2.len() implies #[trigger] linked_at(p2, st.parent@, st.parent_edge@, edges, n, i) by {
                        if i < path.len() {
                            assert(linked_at(path, before.parent@, before.parent_edge@, edges, n, i));
                            assert(p2[i] == path[i] && p2[i - 1] == path[i - 1]);
                            assert(path.contains(path[i]));
                            assert(path[i] != w);
                        } else {
                            assert(p2[i] == w && p2[i - 1] == v);
                        }
                    }
                    assert forall|i: int| 0 < i < path.len() implies #[trigger] linked_at(path, st.parent@, st.parent_edge@, edges, n, i) by {
                        assert(linked_at(path, before.parent@, before.parent_edge@, edges, n, i));
                        assert(path.contains(path[i]));
                    }
                    assert(search_wf(*st, edges, n, path));
                    assert(!path.contains(w));
                    assert(!st.finished@.contains(w));
                    assert forall|x: usize| #[trigger] path.contains(x) implies !st.finished@.contains(x) by {
                        let i = choose|i: int| 0 <= i < path.len() && path[i] == x;
                        assert(x < n);
                        assert(is_gray(st.color@[x as int]));
                    }
                    lemma_search_count(path, st.finished@, w, n);
                    assert(n - path.len() - st.finished@.len() >= 0);
                    assert(n - path.len() - st.finished@.len() < n - stack.len() - entry_finished.len());
                }
                let ghost budget2 = n - path.len() - st.finished@.len();
                visit(w, adj, st, Ghost(path), Ghost(edges), Ghost(n), Ghost(budget2));
            },
            VisitColor::Black => {
                proof {
                    assert(is_black(st.color@[w as int]));
                }
            },
        }
        proof {
            assert(before.finished@.is_prefix_of(st.finished@));
            assert(entry_finished.is_prefix_of(st.finished@)) by {
                assert forall|i: int| 0 <= i < entry_finished.len() implies entry_finished[i] == st.finished@[i] by {
                    assert(entry_finished[i] == before.finished@[i]);
                    assert(before.finished@[i] == st.finished@[i]);
                }
            }
            if st.cycles@.len() == 0 {
                assert forall|jj: int| 0 <= jj < j + 1 implies st.finished@.contains((#[trigger] adj@[v as int]@[jj]).0) by {
                    if jj < j {
                        let x = adj@[v as int]@[jj].0;
                        assert(before.finished@.contains(x));
                        let i = choose|i: int| 0 <= i < before.finished@.len() && before.finished@[i] == x;
                        assert(st.finished@[i] == x);
                    } else {
                        assert(st.finished@.contains(w));
                    }
                }
            }
        }
        j = j + 1;
    }
    let ghost before = st.finished@;
    proof {
        assert(path[stack.len() as int] == v);
        assert(is_gray(st.color@[v as int]));
        assert(!before.contains(v));
    }
    let ghost color1 = st.color@;
    st.color.set(v, VisitColor::Black);
    st.finished = Ghost(st.finished@.push(v));
    proof {
        assert forall|x: int| 0 <= x < n implies (is_gray(#[trigger] st.color@[x]) <==> stack.contains(x as usize)) by {
            lemma_push_contains(stack, v, x as usize);
            if x != v {
                assert(st.color@[x] == color1[x]);
            }
        }
        assert forall|x: int| 0 <= x < n implies (is_black(#[trigger] st.color@[x]) <==> st.finished@.contains(x as usize)) by {
            lemma_push_contains(before, v, x as usize);
            if x != v {
                assert(st.color@[x] == color1[x]);
            }
        }
        assert(st.finished@.no_duplicates()) by {
            assert forall|a: int, b: int| 0 <= a < st.finished@.len() && 0 <= b < st.finished@.len() && a != b implies st.finished@[a] != st.finished@[b] by {
                if a < before.len() && b < before.len() {
                    assert(st.finished@[a] == before[a] && st.finished@[b] == before[b]);
                } else if a < before.len() {
                    assert(st.finished@[a] == before[a]);
                    assert(before.contains(before[a]));
                } else if b < before.len() {
                    assert(st.finished@[b] == before[b]);
                    assert(before.contains(before[b]));
                }
            }
        }
        assert forall|i: int| 0 <= i < st.finished@.len() implies (#[trigger] st.finished@[i]) < n by {
            if i < before.len() {
                assert(st.finished@[i] == before[i]);
            }
        }
        assert forall|i: int| 0 < i < stack.len() implies #[trigger] linked_at(stack, st.parent@, st.parent_edge@, edges, n, i) by {
            assert(linked_at(path, st.parent@, st.parent_edge@, edges, n, i));
            assert(path[i] == stack[i] && path[i - 1] == stack[i - 1]);
        }
        if st.cycles@.len() == 0 {
            let f = st.finished@;
            assert forall|a: int, k: int, w: usize| 0 <= a < f.len() && #[trigger] edge_is(edges, n, k, f[a], w)
                implies f.take(a).contains(w) by {
                if a < before.len() {
                    assert(f.take(a) == before.take(a));
                    assert(f[a] == before[a]);
                } else {
                    assert(f[a] == v);
                    assert(adj@[v as int]@.contains((w, k as usize)));
                    let jj = choose|jj: int| 0 <= jj < adj@[v as int]@.len() && adj@[v as int]@[jj] == (w, k as usize);
                    assert(before.contains(adj@[v as int]@[jj].0));
                    assert(f.take(a) == before);
                }
            }
        }
        assert(entry_finished.is_prefix_of(st.finished@)) by {
            assert forall|i: int| 0 <= i < entry_finished.len() implies entry_finished[i] == st.finished@[i] by {
                assert(entry_finished[i] == before[i]);
            }
        }
        assert(st.finished@[before.len() as int] == v);
    }
}

/// The least element of a non-empty list.
pub open spec fn seq_min(s: Seq<usize>) -> usize
    decreases s.len(),
{
    if s.len() <= 1 {
        s[0]
    } else {
        let m = seq_min(s.drop_last());
        if s.last() < m { s.last() } else { m }
    }
}

/// The least node of a cycle.
fn least_node(nodes: &Vec<usize>) -> (m: usize)
    requires
        nodes@.len() >= 1,
    ensures
        m == seq_min(nodes@),
{
    let mut m = nodes[0];
    let mut j: usize = 1;
    while j < nodes.len()
        invariant
            1 <= j <= nodes@.len(),
            m == seq_min(nodes@.take(j as int)),
        decreases nodes@.len() - j,
    {
        proof {
            assert(nodes@.take(j + 1).drop_last() == nodes@.take(j as int));
        }
        if nodes[j] < m {
            m = nodes[j];
        }
        j = j + 1;
    }
    proof {
        assert(nodes@.take(nodes@.len() as int) == nodes@);
    }
    m
}

/// Along a walk through finished nodes, each step leads to a node finished earlier.
proof fn lemma_walk_goes_earlier(f: Seq<usize>, edges: Seq<IrEdge>, n: nat, p: Seq<usize>, i: int)
    requires
        closed_before(f, edges, n),
        f.no_duplicates(),
        is_walk(steps(edges, n), p),
        f.contains(p[0]),
        1 <= i < p.len(),
    ensures
        f.contains(p[i]),
        forall|a: int, b: int| 0 <= a < f.len() && 0 <= b < f.len() && f[a] == p[0] && f[b] == p[i] ==> b < a,
    decreases i,
{
    let r = steps(edges, n);
    assert(r(p[i - 1], p[i - 1 + 1]));
    let k = choose|k: int| #[trigger] edge_is(edges, n, k, p[i - 1], p[i]);
    if i > 1 {
        lemma_walk_goes_earlier(f, edges, n, p, i - 1);
    }
    let c = choose|c: int| 0 <= c < f.len() && f[c] == p[i - 1];
    assert(edge_is(edges, n, k, f[c], p[i]));
    assert(f.take(c).contains(p[i]));
    let b0 = choose|b: int| 0 <= b < f.take(c).len() && f.take(c)[b] == p[i];
    assert(f[b0] == p[i]);
    assert forall|a: int, b: int| 0 <= a < f.len() && 0 <= b < f.len() && f[a] == p[0] && f[b] == p[i] implies b < a by {
        assert(b == b0);
        if i == 1 {
            assert(a == c);
        }
    }
}

/// With every node finished and every edge leading to an earlier finished node, no walk
/// returns to its start.
proof fn lemma_no_cycle_when_closed(f: Seq<usize>, edges: Seq<IrEdge>, n: nat)
    requires
        closed_before(f, edges, n),
        f.no_duplicates(),
        forall|x: usize| x < n ==> #[trigger] f.contains(x),
    ensures
        !has_directed_cycle(edges, n),
{
    if has_directed_cycle(edges, n) {
        let v = choose|v: usize| #[trigger] reaches(steps(edges, n), v, v);
        let p = choose|p: Seq<usize>| #[trigger] is_walk(steps(edges, n), p) && p[0] == v && p.last() == v;
        let i0: int = 0;
        assert(steps(edges, n)(p[i0], p[i0 + 1]));
        let k = choose|k: int| #[trigger] edge_is(edges, n, k, p[0], p[1]);
        assert(v < n);
        lemma_walk_goes_earlier(f, edges, n, p, p.len() - 1);
        let a = choose|a: int| 0 <= a < f.len() && f[a] == v;
    }
}

/// A recorded cycle is a walk back to its first node.
proof fn lemma_cycle_is_cycle(edges: Seq<IrEdge>, n: nat, c: DirectedCycle)
    requires
        cycle_ok(edges, n, c),
    ensures
        has_directed_cycle(edges, n),
{
    let nodes = c.nodes@;
    let len = nodes.len() as int;
    let p = nodes.push(nodes[0]);
    let r = steps(edges, n);
    assert forall|i: int| 0 <= i < p.len() - 1 implies #[trigger] r(p[i], p[i + 1]) by {
        if i + 1 < len {
            assert(edge_is(edges, n, c.edges@[i + 1] as int, nodes[cyclic_prev(i + 1, len)], nodes[i + 1]));
        } else {
            assert(edge_is(edges, n, c.edges@[0] as int, nodes[cyclic_prev(0, len)], nodes[0]));
        }
    }
    assert(is_walk(r, p));
    assert(reaches(r, nodes[0], nodes[0]));
}

/// The directed cycles of a graph of `node_count` nodes, found by depth-first search from
/// each node in increasing order, visiting each node's edges in order of target: one cycle
/// for every edge back to a node on the search path, listed by least node.
pub fn detect_directed_cycles(node_count: usize, edges: &[IrEdge]) -> (res: DirectedCycleResult)
    ensures
        res.has_cycles == has_directed_cycle(edges@, node_count as nat),
        res.has_cycles == (res.cycles@.len() > 0),
        forall|i: int| 0 <= i < res.cycles@.len() ==> cycle_ok(edges@, node_count as nat, #[trigger] res.cycles@[i]),
        forall|i: int, j: int| 0 <= i < j < res.cycles@.len() ==> seq_min((#[trigger] res.cycles@[i]).nodes@) <= seq_min((#[trigger] res.cycles@[j]).nodes@),
        forall|x: usize| #[trigger] res.cyclic_nodes@.contains(x) <==> on_some_cycle(res.cycles@, x),
        forall|k: usize| #[trigger] res.cyclic_edges@.contains(k) <==> edge_on_some_cycle(res.cycles@, k),
{
    let ghost n = node_count as nat;
    let adj = build_indexed_adjacency(node_count, edges);
    proof {
        assert(edges@.len() == edges.len());
    }
    let mut color: Vec<VisitColor> = Vec::new();
    let mut parent: Vec<Option<usize>> = Vec::new();
    let mut parent_edge: Vec<Option<usize>> = Vec::new();
    let mut i: usize = 0;
    while i < node_count
        invariant
            i <= node_count,
            color@.len() == i,
            parent@.len() == i,
            parent_edge@.len() == i,
            forall|x: int| 0 <= x < i ==> (#[trigger] color@[x]) is White,
        decreases node_count - i,
    {
        color.push(VisitColor::White);
        parent.push(None);
        parent_edge.push(None);
        i = i + 1;
    }
    let mut st = CycleSearch {
        color,
        parent,
        parent_edge,
        cycles: Vec::new(),
        cyclic_nodes: BTreeSet::new(),
        cyclic_edges: BTreeSet::new(),
        finished: Ghost(Seq::empty()),
    };
    proof {
        assert(search_wf(st, edges@, n, Seq::empty()));
    }
    let mut v: usize = 0;
    while v < node_count
        invariant
            n == node_count as nat,
            v <= node_count,
            indexed_adjacency(adj@, edges@, n),
            search_wf(st, edges@, n, Seq::empty()),
            forall|x: usize| x < v ==> #[trigger] st.finished@.contains(x),
        decreases node_count - v,
    {
        let c = st.color[v];
        match c {
            VisitColor::White => {
                proof {
                    assert(!st.finished@.contains(v));
                    assert(Seq::<usize>::empty().push(v).len() == 1);
                }
                let ghost before = st.finished@;
                let ghost budget = n - 0 - st.finished@.len();
                visit(v, &adj, &mut st, Ghost(Seq::empty()), Ghost(edges@), Ghost(n), Ghost(budget));
                proof {
                    assert forall|x: usize| x < v + 1 implies #[trigger] st.finished@.contains(x) by {
                        if x < v {
                            assert(before.contains(x));
                            let i = choose|i: int| 0 <= i < before.len() && before[i] == x;
                            assert(st.finished@[i] == x);
                        }
                    }
                }
            },
            _ => {
                proof {
                    assert(!is_gray(st.color@[v as int]));
                    assert(is_black(st.color@[v as int]));
                }
            },
        }
        v = v + 1;
    }
    proof {
        if st.cycles@.len() == 0 {
            lemma_no_cycle_when_closed(st.finished@, edges@, n);
        } else {
            lemma_cycle_is_cycle(edges@, n, st.cycles@[0]);
        }
    }
    // Order the cycles by least node, keeping discovery order among equal keys.
    let mut rest = st.cycles;
    let ghost found = rest@;
    let mut sorted: Vec<DirectedCycle> = Vec::new();
    let mut keys: Vec<usize> = Vec::new();
    let ghost mut i: int = 0;
    while rest.len() > 0
        invariant
            i <= found.len(),
            rest@ == found.skip(i),
            forall|a: int| 0 <= a < found.len() ==> cycle_ok(edges@, n, #[trigger] found[a]),
            sorted@.len() == i,
            keys@.len() == i,
            forall|a: int| 0 <= a < i ==> (#[trigger] keys@[a]) == seq_min(sorted@[a].nodes@),
            forall|a: int, b: int| 0 <= a < b < i ==> (#[trigger] keys@[a]) <= (#[trigger] keys@[b]),
            forall|c: DirectedCycle| #[trigger] sorted@.contains(c) <==> found.take(i).contains(c),
        decreases rest@.len(),
    {
        let c = rest.remove(0);
        proof {
            assert(c == found[i]);
            assert(cycle_ok(edges@, n, found[i]));
            assert(rest@ =~= found.skip(i + 1));
        }
        let key = least_node(&c.nodes);
        let mut p: usize = 0;
        while p < keys.len() && keys[p] <= key
            invariant
                p <= keys@.len(),
                forall|a: int| 0 <= a < p ==> (#[trigger] keys@[a]) <= key,
            decreases keys@.len() - p,
        {
            p = p + 1;
        }
        proof {
            if p < keys@.len() {
                assert(keys@[p as int] > key);
            }
        }
        let ghost before_sorted = sorted@;
        let ghost before_keys = keys@;
        sorted.insert(p, c);
        keys.insert(p, key);
        proof {
            assert(found.take(i + 1) == found.take(i).push(found[i]));
            assert forall|a: int| 0 <= a < i + 1 implies (#[trigger] keys@[a]) == seq_min(sorted@[a].nodes@) by {
                if a < p {
                    assert(keys@[a] == before_keys[a] && sorted@[a] == before_sorted[a]);
                } else if a > p {
                    assert(keys@[a] == before_keys[a - 1] && sorted@[a] == before_sorted[a - 1]);
                }
            }
            assert forall|a: int, b: int| 0 <= a < b < i + 1 implies (#[trigger] keys@[a]) <= (#[trigger] keys@[b]) by {
                if a < p && b < p {
                    assert(keys@[a] == before_keys[a] && keys@[b] == before_keys[b]);
                } else if a < p && b == p {
                    assert(keys@[a] == before_keys[a]);
                } else if a < p {
                    assert(keys@[a] == before_keys[a] && keys@[b] == before_keys[b - 1]);
                } else if a == p {
                    assert(keys@[b] == before_keys[b - 1]);
                    if b - 1 > p {
                        assert(before_keys[p as int] <= before_keys[b - 1]);
                    }
                } else {
                    assert(keys@[a] == before_keys[a - 1] && keys@[b] == before_keys[b - 1]);
                }
            }
            assert forall|d: DirectedCycle| #[trigger] sorted@.contains(d) <==> found.take(i + 1).contains(d) by {
                if sorted@.contains(d) {
                    let a = choose|a: int| 0 <= a < sorted@.len() && sorted@[a] == d;
                    if a < p {
                        assert(before_sorted[a] == d);
                        assert(before_sorted.contains(d));
                    } else if a > p {
                        assert(before_sorted[a - 1] == d);
                        assert(before_sorted.contains(d));
                    }
                    lemma_cycle_push_contains(found.take(i), found[i], d);
                }
                if found.take(i + 1).contains(d) {
                    lemma_cycle_push_contains(found.take(i), found[i], d);
                    if d == c {
                        assert(sorted@[p as int] == d);
                    } else {
                        assert(before_sorted.contains(d));
                        let a = choose|a: int| 0 <= a < before_sorted.len() && before_sorted[a] == d;
                        if a < p {
                            assert(sorted@[a] == d);
                        } else {
                            assert(sorted@[a + 1] == d);
                        }
                    }
                }
            }
        }
        proof {
            i = i + 1;
        }
    }
    proof {
        assert(found.take(found.len() as int) == found);
        assert forall|a: int| 0 <= a < sorted@.len() implies cycle_ok(edges@, n, #[trigger] sorted@[a]) by {
            assert(sorted@.contains(sorted@[a]));
            let b = choose|b: int| 0 <= b < found.len() && found[b] == sorted@[a];
        }
        assert forall|x: usize| on_some_cycle(sorted@, x) <==> on_some_cycle(found, x) by {
            if on_some_cycle(sorted@, x) {
                let a = choose|a: int| 0 <= a < sorted@.len() && (#[trigger] sorted@[a]).nodes@.contains(x);
                assert(sorted@.contains(sorted@[a]));
                let b = choose|b: int| 0 <= b < found.len() && found[b] == sorted@[a];
            }
            if on_some_cycle(found, x) {
                let b = choose|b: int| 0 <= b < found.len() && (#[trigger] found[b]).nodes@.contains(x);
                assert(found.contains(found[b]));
                assert(sorted@.contains(found[b]));
                let a = choose|a: int| 0 <= a < sorted@.len() && sorted@[a] == found[b];
            }
        }
        assert forall|k: usize| edge_on_some_cycle(sorted@, k) <==> edge_on_some_cycle(found, k) by {
            if edge_on_some_cycle(sorted@, k) {
                let a = choose|a: int| 0 <= a < sorted@.len() && (#[trigger] sorted@[a]).edges@.contains(k);
                assert(sorted@.contains(sorted@[a]));
                let b = choose|b: int| 0 <= b < found.len() && found[b] == sorted@[a];
            }
            if edge_on_some_cycle(found, k) {
                let b = choose|b: int| 0 <= b < found.len() && (#[trigger] found[b]).edges@.contains(k);
                assert(found.contains(found[b]));
                assert(sorted@.contains(found[b]));
                let a = choose|a: int| 0 <= a < sorted@.len() && sorted@[a] == found[b];
            }
        }
        assert forall|a: int, b: int| 0 <= a < b < sorted@.len() implies seq_min((#[trigger] sorted@[a]).nodes@) <= seq_min((#[trigger] sorted@[b]).nodes@) by {
            assert(keys@[a] <= keys@[b]);
        }
    }
    let has_cycles = sorted.len() > 0;
    DirectedCycleResult { has_cycles, cycles: sorted, cyclic_nodes: st.cyclic_nodes, cyclic_edges: st.cyclic_edges }
}

proof fn lemma_cycle_push_contains(s: Seq<DirectedCycle>, x: DirectedCycle, y: DirectedCycle)
    ensures
        s.push(x).contains(y) <==> (s.contains(y) || y == x),
{
    if s.contains(y) {
        let j = choose|j: int| 0 <= j < s.len() && s[j] == y;
        assert(s.push(x)[j] == y);
    }
    if s.push(x).contains(y) && y != x {
        let j = choose|j: int| 0 <= j < s.push(x).len() && s.push(x)[j] == y;
        assert(s[j] == y);
    }
    assert(s.push(x)[s.len() as int] == x);
}

} // verus!
