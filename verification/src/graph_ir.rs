//! The graph view of a diagram: typed nodes, edges, clusters and the subgraph
//! hierarchy, with lookups and hierarchy queries.
use vstd::prelude::*;
use crate::diagnostics::Span;
use crate::taxonomy::{GraphDirection, IrEdgeKind, IrNodeKind, IrPortSideHint};
use crate::text::text_eq;

verus! {

/// Index of a node.
#[derive(Debug, Clone, Copy, PartialEq, Eq, PartialOrd, Ord, Hash, Default, Structural)]
pub struct IrNodeId(pub usize);

/// Index of a port.
#[derive(Debug, Clone, Copy, PartialEq, Eq, Hash, Default, Structural)]
pub struct IrPortId(pub usize);

/// Index of a label.
#[derive(Debug, Clone, Copy, PartialEq, Eq, PartialOrd, Ord, Hash, Default, Structural)]
pub struct IrLabelId(pub usize);

/// Index of a cluster.
#[derive(Debug, Clone, Copy, PartialEq, Eq, Hash, Default, Structural)]
pub struct IrClusterId(pub usize);

/// Index of a subgraph.
#[derive(Debug, Clone, Copy, PartialEq, Eq, Hash, Default, Structural)]
pub struct IrSubgraphId(pub usize);

/// A named attachment point on a node.
#[derive(Debug, Clone, PartialEq, Eq, Default)]
pub struct IrPort {
    pub node: IrNodeId,
    pub name: String,
    pub side_hint: IrPortSideHint,
    pub span: Span,
}

/// One end of an edge.
#[derive(Debug, Clone, Copy, PartialEq, Eq, Default, Structural)]
pub enum IrEndpoint {
    #[default]
    Unresolved,
    Node(IrNodeId),
    Port(IrPortId),
}

impl IrEndpoint {
    /// The node an endpoint designates, given the ports.
    pub open spec fn node_of(self, ports: Seq<IrPort>) -> Option<IrNodeId> {
        match self {
            IrEndpoint::Unresolved => None,
            IrEndpoint::Node(n) => Some(n),
            IrEndpoint::Port(p) => if p.0 < ports.len() { Some(ports[p.0 as int].node) } else { None },
        }
    }

    /// The node this endpoint designates: itself, or the node of its port; `None` when
    /// unresolved or the port does not exist.
    pub fn resolved_node_id(self, ports: &[IrPort]) -> (r: Option<IrNodeId>)
        ensures
            r == self.node_of(ports@),
    {
        match self {
            IrEndpoint::Unresolved => None,
            IrEndpoint::Node(node_id) => Some(node_id),
            IrEndpoint::Port(port_id) => {
                if port_id.0 < ports.len() {
                    Some(ports[port_id.0].node)
                } else {
                    None
                }
            },
        }
    }
}

/// A node of the graph view.
#[derive(Debug, Clone, PartialEq, Eq, Default)]
pub struct IrGraphNode {
    pub node_id: IrNodeId,
    pub kind: IrNodeKind,
    pub clusters: Vec<IrClusterId>,
    pub subgraphs: Vec<IrSubgraphId>,
}

/// An edge of the graph view.
#[derive(Debug, Clone, PartialEq, Eq, Default)]
pub struct IrGraphEdge {
    pub edge_id: usize,
    pub kind: IrEdgeKind,
    pub from: IrEndpoint,
    pub to: IrEndpoint,
    pub span: Span,
}

/// A cluster of the graph view.
#[derive(Debug, Clone, PartialEq, Eq, Default)]
pub struct IrGraphCluster {
    pub cluster_id: IrClusterId,
    pub title: Option<IrLabelId>,
    pub members: Vec<IrNodeId>,
    pub subgraph: Option<IrSubgraphId>,
    pub grid_span: usize,
    pub span: Span,
}

/// A subgraph: a named group of nodes in a hierarchy.
#[derive(Debug, Clone, PartialEq, Eq, Default)]
pub struct IrSubgraph {
    pub id: IrSubgraphId,
    pub key: String,
    pub title: Option<IrLabelId>,
    pub parent: Option<IrSubgraphId>,
    pub children: Vec<IrSubgraphId>,
    pub members: Vec<IrNodeId>,
    pub cluster: Option<IrClusterId>,
    pub grid_span: usize,
    pub span: Span,
    /// Direction override inside the subgraph.
    pub direction: Option<GraphDirection>,
}

/// The graph view of a diagram.
#[derive(Debug, Clone, PartialEq, Eq, Default)]
pub struct MermaidGraphIr {
    pub nodes: Vec<IrGraphNode>,
    pub edges: Vec<IrGraphEdge>,
    pub clusters: Vec<IrGraphCluster>,
    pub subgraphs: Vec<IrSubgraph>,
}

/// The values behind a sequence of references.
pub open spec fn derefs<T>(s: Seq<&T>) -> Seq<T> {
    s.map_values(|x: &T| *x)
}

/// The element at `i`, if any.
pub open spec fn at_index<T>(s: Seq<T>, i: usize) -> Option<T> {
    if i < s.len() { Some(s[i as int]) } else { None }
}

/// The clusters among `ids` that exist, in order.
pub open spec fn existing_clusters(ids: Seq<IrClusterId>, clusters: Seq<IrGraphCluster>) -> Seq<IrGraphCluster>
    decreases ids.len(),
{
    if ids.len() == 0 {
        Seq::empty()
    } else {
        let before = existing_clusters(ids.drop_last(), clusters);
        match at_index(clusters, ids.last().0) {
            Some(c) => before.push(c),
            None => before,
        }
    }
}

/// The subgraphs among `ids` that exist, in order.
pub open spec fn existing_subgraphs(ids: Seq<IrSubgraphId>, subgraphs: Seq<IrSubgraph>) -> Seq<IrSubgraph>
    decreases ids.len(),
{
    if ids.len() == 0 {
        Seq::empty()
    } else {
        let before = existing_subgraphs(ids.drop_last(), subgraphs);
        match at_index(subgraphs, ids.last().0) {
            Some(s) => before.push(s),
            None => before,
        }
    }
}

impl MermaidGraphIr {
    /// The node with this id.
    pub fn node(&self, node_id: IrNodeId) -> (r: Option<&IrGraphNode>)
        ensures
            match r {
                Some(n) => node_id.0 < self.nodes@.len() && *n == self.nodes@[node_id.0 as int],
                None => node_id.0 >= self.nodes@.len(),
            },
    {
        if node_id.0 < self.nodes.len() {
            Some(&self.nodes[node_id.0])
        } else {
            None
        }
    }

    /// The edge with this index.
    pub fn edge(&self, edge_id: usize) -> (r: Option<&IrGraphEdge>)
        ensures
            match r {
                Some(e) => edge_id < self.edges@.len() && *e == self.edges@[edge_id as int],
                None => edge_id >= self.edges@.len(),
            },
    {
        if edge_id < self.edges.len() {
            Some(&self.edges[edge_id])
        } else {
            None
        }
    }

    /// The cluster with this id.
    pub fn cluster(&self, cluster_id: IrClusterId) -> (r: Option<&IrGraphCluster>)
        ensures
            match r {
                Some(c) => cluster_id.0 < self.clusters@.len() && *c == self.clusters@[cluster_id.0 as int],
                None => cluster_id.0 >= self.clusters@.len(),
            },
    {
        if cluster_id.0 < self.clusters.len() {
            Some(&self.clusters[cluster_id.0])
        } else {
            None
        }
    }

    /// The subgraph with this id.
    pub fn subgraph(&self, subgraph_id: IrSubgraphId) -> (r: Option<&IrSubgraph>)
        ensures
            match r {
                Some(s) => subgraph_id.0 < self.subgraphs@.len() && *s == self.subgraphs@[subgraph_id.0 as int],
                None => subgraph_id.0 >= self.subgraphs@.len(),
            },
    {
        if subgraph_id.0 < self.subgraphs.len() {
            Some(&self.subgraphs[subgraph_id.0])
        } else {
            None
        }
    }

    /// All subgraphs with this key, in order.
    pub fn subgraphs_by_key(&self, key: &str) -> (r: Vec<&IrSubgraph>)
        ensures
            derefs(r@) == self.subgraphs@.filter(|s: IrSubgraph| s.key@ == key@),
    {
        let mut out: Vec<&IrSubgraph> = Vec::new();
        let mut i: usize = 0;
        while i < self.subgraphs.len()
            invariant
                i <= self.subgraphs@.len(),
                derefs(out@) == self.subgraphs@.take(i as int).filter(|s: IrSubgraph| s.key@ == key@),
            decreases self.subgraphs@.len() - i,
        {
            let s = &self.subgraphs[i];
            proof {
                let pred = |s: IrSubgraph| s.key@ == key@;
                assert(self.subgraphs@.take(i + 1) =~= self.subgraphs@.take(i as int).push(self.subgraphs@[i as int]));
                Seq::filter_distributes_over_add(self.subgraphs@.take(i as int), seq![self.subgraphs@[i as int]], pred);
                assert(self.subgraphs@.take(i as int).push(self.subgraphs@[i as int]) =~= self.subgraphs@.take(i as int) + seq![self.subgraphs@[i as int]]);
                reveal_with_fuel(Seq::filter, 2);
            }
            if text_eq(s.key.as_str(), key) {
                out.push(s);
                proof {
                    assert(derefs(out@) =~= derefs(out@.drop_last()).push(self.subgraphs@[i as int]));
                }
            }
            i = i + 1;
        }
        proof {
            assert(self.subgraphs@.take(i as int) =~= self.subgraphs@);
        }
        out
    }

    /// The first subgraph with this key.
    pub fn first_subgraph_by_key(&self, key: &str) -> (r: Option<&IrSubgraph>)
        ensures
            match r {
                Some(s) => exists|i: int| 0 <= i < self.subgraphs@.len() && *s == self.subgraphs@[i]
                    && s.key@ == key@ && forall|j: int| 0 <= j < i ==> (#[trigger] self.subgraphs@[j]).key@ != key@,
                None => forall|j: int| 0 <= j < self.subgraphs@.len() ==> (#[trigger] self.subgraphs@[j]).key@ != key@,
            },
    {
        let mut i: usize = 0;
        while i < self.subgraphs.len()
            invariant
                i <= self.subgraphs@.len(),
                forall|j: int| 0 <= j < i ==> (#[trigger] self.subgraphs@[j]).key@ != key@,
            decreases self.subgraphs@.len() - i,
        {
            if text_eq(self.subgraphs[i].key.as_str(), key) {
                return Some(&self.subgraphs[i]);
            }
            i = i + 1;
        }
        None
    }

    /// The subgraphs without a parent, in order.
    pub fn root_subgraphs(&self) -> (r: Vec<&IrSubgraph>)
        ensures
            derefs(r@) == self.subgraphs@.filter(|s: IrSubgraph| s.parent is None),
    {
        let mut out: Vec<&IrSubgraph> = Vec::new();
        let mut i: usize = 0;
        while i < self.subgraphs.len()
            invariant
                i <= self.subgraphs@.len(),
                derefs(out@) == self.subgraphs@.take(i as int).filter(|s: IrSubgraph| s.parent is None),
            decreases self.subgraphs@.len() - i,
        {
            let s = &self.subgraphs[i];
            proof {
                let pred = |s: IrSubgraph| s.parent is None;
                Seq::filter_distributes_over_add(self.subgraphs@.take(i as int), seq![self.subgraphs@[i as int]], pred);
                assert(self.subgraphs@.take(i + 1) =~= self.subgraphs@.take(i as int) + seq![self.subgraphs@[i as int]]);
                reveal_with_fuel(Seq::filter, 2);
            }
            if s.parent.is_none() {
                out.push(s);
                proof {
                    assert(derefs(out@) =~= derefs(out@.drop_last()).push(self.subgraphs@[i as int]));
                }
            }
            i = i + 1;
        }
        proof {
            assert(self.subgraphs@.take(i as int) =~= self.subgraphs@);
        }
        out
    }

    /// The subgraphs without children, in order.
    pub fn leaf_subgraphs(&self) -> (r: Vec<&IrSubgraph>)
        ensures
            derefs(r@) == self.subgraphs@.filter(|s: IrSubgraph| s.children@.len() == 0),
    {
        let mut out: Vec<&IrSubgraph> = Vec::new();
        let mut i: usize = 0;
        while i < self.subgraphs.len()
            invariant
                i <= self.subgraphs@.len(),
                derefs(out@) == self.subgraphs@.take(i as int).filter(|s: IrSubgraph| s.children@.len() == 0),
            decreases self.subgraphs@.len() - i,
        {
            let s = &self.subgraphs[i];
            proof {
                let pred = |s: IrSubgraph| s.children@.len() == 0;
                Seq::filter_distributes_over_add(self.subgraphs@.take(i as int), seq![self.subgraphs@[i as int]], pred);
                assert(self.subgraphs@.take(i + 1) =~= self.subgraphs@.take(i as int) + seq![self.subgraphs@[i as int]]);
                reveal_with_fuel(Seq::filter, 2);
            }
            if s.children.len() == 0 {
                out.push(s);
                proof {
                    assert(derefs(out@) =~= derefs(out@.drop_last()).push(self.subgraphs@[i as int]));
                }
            }
            i = i + 1;
        }
        proof {
            assert(self.subgraphs@.take(i as int) =~= self.subgraphs@);
        }
        out
    }

    /// The existing clusters of a node, in the node's order; empty for a missing node.
    pub fn node_clusters(&self, node_id: IrNodeId) -> (r: Vec<&IrGraphCluster>)
        ensures
            derefs(r@) == (if node_id.0 < self.nodes@.len() {
                existing_clusters(self.nodes@[node_id.0 as int].clusters@, self.clusters@)
            } else {
                Seq::empty()
            }),
    {
        let mut out: Vec<&IrGraphCluster> = Vec::new();
        match self.node(node_id) {
            None => {
                proof {
                    assert(derefs(out@) =~= Seq::<IrGraphCluster>::empty());
                }
                out
            },
            Some(node) => {
                let mut i: usize = 0;
                while i < node.clusters.len()
                    invariant
                        i <= node.clusters@.len(),
                        derefs(out@) == existing_clusters(node.clusters@.take(i as int), self.clusters@),
                    decreases node.clusters@.len() - i,
                {
                    proof {
                        assert(node.clusters@.take(i + 1).drop_last() =~= node.clusters@.take(i as int));
                    }
                    match self.cluster(node.clusters[i]) {
                        Some(c) => {
                            out.push(c);
                            proof {
                                assert(derefs(out@) =~= derefs(out@.drop_last()).push(*c));
                            }
                        },
                        None => {},
                    }
                    i = i + 1;
                }
                proof {
                    assert(node.clusters@.take(i as int) =~= node.clusters@);
                }
                out
            },
        }
    }

    /// The existing subgraphs of a node, in the node's order; empty for a missing node.
    pub fn node_subgraphs(&self, node_id: IrNodeId) -> (r: Vec<&IrSubgraph>)
        ensures
            derefs(r@) == (if node_id.0 < self.nodes@.len() {
                existing_subgraphs(self.nodes@[node_id.0 as int].subgraphs@, self.subgraphs@)
            } else {
                Seq::empty()
            }),
    {
        let mut out: Vec<&IrSubgraph> = Vec::new();
        match self.node(node_id) {
            None => {
                proof {
                    assert(derefs(out@) =~= Seq::<IrSubgraph>::empty());
                }
                out
            },
            Some(node) => {
                let mut i: usize = 0;
                while i < node.subgraphs.len()
                    invariant
                        i <= node.subgraphs@.len(),
                        derefs(out@) == existing_subgraphs(node.subgraphs@.take(i as int), self.subgraphs@),
                    decreases node.subgraphs@.len() - i,
                {
                    proof {
                        assert(node.subgraphs@.take(i + 1).drop_last() =~= node.subgraphs@.take(i as int));
                    }
                    match self.subgraph(node.subgraphs[i]) {
                        Some(s) => {
                            out.push(s);
                            proof {
                                assert(derefs(out@) =~= derefs(out@.drop_last()).push(*s));
                            }
                        },
                        None => {},
                    }
                    i = i + 1;
                }
                proof {
                    assert(node.subgraphs@.take(i as int) =~= node.subgraphs@);
                }
                out
            },
        }
    }

    /// The subgraphs met following parent links from `start` (nearest first), when the
    /// chain ends within `fuel` steps at a missing parent.
    pub open spec fn parent_chain(self, start: Option<IrSubgraphId>, fuel: nat) -> Option<Seq<IrSubgraph>>
        decreases fuel,
    {
        match start {
            None => Some(Seq::empty()),
            Some(pid) => if pid.0 >= self.subgraphs@.len() {
                Some(Seq::empty())
            } else if fuel == 0 {
                None
            } else {
                match self.parent_chain(self.subgraphs@[pid.0 as int].parent, (fuel - 1) as nat) {
                    Some(rest) => Some(seq![self.subgraphs@[pid.0 as int]] + rest),
                    None => None,
                }
            },
        }
    }

    /// The parent of a subgraph, `None` for a missing subgraph.
    pub open spec fn parent_id(self, id: IrSubgraphId) -> Option<IrSubgraphId> {
        if id.0 < self.subgraphs@.len() { self.subgraphs@[id.0 as int].parent } else { None }
    }

    /// Following parent links from `id` ends (no cycle).
    pub open spec fn ancestry_ends(self, id: IrSubgraphId) -> bool {
        exists|fuel: nat| #[trigger] self.parent_chain(self.parent_id(id), fuel) is Some
    }

    /// The ancestors of `id`, from the immediate parent up.
    pub open spec fn ancestors_up(self, id: IrSubgraphId) -> Seq<IrSubgraph> {
        let fuel = choose|fuel: nat| #[trigger] self.parent_chain(self.parent_id(id), fuel) is Some;
        self.parent_chain(self.parent_id(id), fuel)->0
    }

    /// The ancestors of a subgraph, from the root-most down to the immediate parent.
    pub fn subgraph_ancestors(&self, subgraph_id: IrSubgraphId) -> (r: Vec<&IrSubgraph>)
        requires
            self.ancestry_ends(subgraph_id),
        ensures
            derefs(r@) == self.ancestors_up(subgraph_id).reverse(),
    {
        let ghost fuel0 = choose|fuel: nat| #[trigger] self.parent_chain(self.parent_id(subgraph_id), fuel) is Some;
        let ghost full = self.parent_chain(self.parent_id(subgraph_id), fuel0)->0;
        let mut ancestors: Vec<&IrSubgraph> = Vec::new();
        let mut current: Option<IrSubgraphId> = match self.subgraph(subgraph_id) {
            Some(s) => s.parent,
            None => None,
        };
        let ghost mut fuel: nat = fuel0;
        while current.is_some()
            invariant
                self.parent_chain(current, fuel) is Some,
                derefs(ancestors@) + self.parent_chain(current, fuel)->0 == full,
            ensures
                derefs(ancestors@) == full,
            decreases fuel,
        {
            let parent_id = current.unwrap();
            if parent_id.0 >= self.subgraphs.len() {
                proof {
                    assert(derefs(ancestors@) + Seq::<IrSubgraph>::empty() =~= derefs(ancestors@));
                }
                break;
            }
            let parent = &self.subgraphs[parent_id.0];
            ancestors.push(parent);
            proof {
                assert(derefs(ancestors@) =~= derefs(ancestors@.drop_last()).push(*parent));
                let rest = self.parent_chain(parent.parent, (fuel - 1) as nat)->0;
                assert(derefs(ancestors@) + rest =~= derefs(ancestors@.drop_last()) + (seq![*parent] + rest));
                fuel = (fuel - 1) as nat;
            }
            current = parent.parent;
        }
        let mut reversed: Vec<&IrSubgraph> = Vec::new();
        let mut k: usize = ancestors.len();
        while k > 0
            invariant
                k <= ancestors@.len(),
                reversed@.len() == ancestors@.len() - k,
                forall|j: int| 0 <= j < reversed@.len() ==> reversed@[j] == ancestors@[ancestors@.len() - 1 - j],
            decreases k,
        {
            k = k - 1;
            reversed.push(ancestors[k]);
        }
        proof {
            assert(derefs(reversed@) =~= full.reverse());
        }
        reversed
    }
}

/// `s` is strictly increasing.
pub open spec fn increasing_ids(s: Seq<IrNodeId>) -> bool {
    forall|i: int, j: int| 0 <= i < j < s.len() ==> s[i].0 < s[j].0
}

impl MermaidGraphIr {
    /// The subgraphs among `ids` that exist, each followed by its descendants, in order;
    /// `None` when `fuel` levels do not reach the bottom.
    pub open spec fn forest(self, ids: Seq<IrSubgraphId>, fuel: nat) -> Option<Seq<IrSubgraph>>
        decreases fuel, ids.len(),
    {
        if ids.len() == 0 {
            Some(Seq::empty())
        } else {
            match self.forest(ids.drop_last(), fuel) {
                None => None,
                Some(front) => {
                    let id = ids.last();
                    if id.0 >= self.subgraphs@.len() {
                        Some(front)
                    } else if fuel == 0 {
                        None
                    } else {
                        match self.forest(self.subgraphs@[id.0 as int].children@, (fuel - 1) as nat) {
                            None => None,
                            Some(d) => Some(front + seq![self.subgraphs@[id.0 as int]] + d),
                        }
                    }
                },
            }
        }
    }

    /// The children of a subgraph (none for a missing subgraph).
    pub open spec fn children_of(self, id: IrSubgraphId) -> Seq<IrSubgraphId> {
        if id.0 < self.subgraphs@.len() { self.subgraphs@[id.0 as int].children@ } else { Seq::empty() }
    }

    /// Following child links from `id` ends (no cycle below it).
    pub open spec fn descent_ends(self, id: IrSubgraphId) -> bool {
        exists|fuel: nat| #[trigger] self.forest(self.children_of(id), fuel) is Some
    }

    /// The descendants of `id` in pre-order, children left to right.
    pub open spec fn descendants_of(self, id: IrSubgraphId) -> Seq<IrSubgraph> {
        let fuel = choose|fuel: nat| #[trigger] self.forest(self.children_of(id), fuel) is Some;
        self.forest(self.children_of(id), fuel)->0
    }

    proof fn lemma_forest_prefix(self, ids: Seq<IrSubgraphId>, fuel: nat, k: int)
        requires
            self.forest(ids, fuel) is Some,
            0 <= k <= ids.len(),
        ensures
            self.forest(ids.take(k), fuel) is Some,
        decreases ids.len() - k,
    {
        if k == ids.len() {
            assert(ids.take(k) =~= ids);
        } else {
            self.lemma_forest_prefix(ids, fuel, k + 1);
            assert(ids.take(k + 1).drop_last() =~= ids.take(k));
        }
    }

    /// Append the subgraphs among `ids` that exist, each followed by its descendants.
    fn push_forest<'a>(&'a self, ids: &Vec<IrSubgraphId>, out: &mut Vec<&'a IrSubgraph>, Ghost(fuel): Ghost<nat>)
        requires
            self.forest(ids@, fuel) is Some,
        ensures
            derefs(final(out)@) == derefs(old(out)@) + self.forest(ids@, fuel)->0,
        decreases fuel, ids@.len(),
    {
        let ghost start = derefs(out@);
        let mut i: usize = 0;
        while i < ids.len()
            invariant
                i <= ids@.len(),
                self.forest(ids@, fuel) is Some,
                self.forest(ids@.take(i as int), fuel) is Some,
                derefs(out@) == start + self.forest(ids@.take(i as int), fuel)->0,
            decreases ids@.len() - i,
        {
            proof {
                self.lemma_forest_prefix(ids@, fuel, i + 1);
                assert(ids@.take(i + 1).drop_last() =~= ids@.take(i as int));
                assert(ids@.take(i + 1).last() == ids@[i as int]);
            }
            let id = ids[i];
            if id.0 < self.subgraphs.len() {
                let child = &self.subgraphs[id.0];
                let ghost before = derefs(out@);
                out.push(child);
                proof {
                    assert(derefs(out@) =~= before.push(*child));
                }
                self.push_forest(&child.children, out, Ghost((fuel - 1) as nat));
                proof {
                    let front = self.forest(ids@.take(i as int), fuel)->0;
                    let d = self.forest(child.children@, (fuel - 1) as nat)->0;
                    assert(derefs(out@) =~= start + (front + seq![*child] + d));
                }
            }
            i = i + 1;
        }
        proof {
            assert(ids@.take(ids@.len() as int) =~= ids@);
        }
    }

    /// The descendants of a subgraph in pre-order, children left to right; none for a
    /// missing subgraph.
    pub fn subgraph_descendants(&self, subgraph_id: IrSubgraphId) -> (r: Vec<&IrSubgraph>)
        requires
            self.descent_ends(subgraph_id),
        ensures
            derefs(r@) == self.descendants_of(subgraph_id),
    {
        let ghost fuel = choose|fuel: nat| #[trigger] self.forest(self.children_of(subgraph_id), fuel) is Some;
        let mut descendants: Vec<&IrSubgraph> = Vec::new();
        match self.subgraph(subgraph_id) {
            Some(start) => {
                proof {
                    assert(derefs(descendants@) =~= Seq::<IrSubgraph>::empty());
                }
                self.push_forest(&start.children, &mut descendants, Ghost(fuel));
                proof {
                    assert(derefs(descendants@) =~= self.forest(self.children_of(subgraph_id), fuel)->0);
                }
            },
            None => {
                proof {
                    assert(derefs(descendants@) =~= Seq::<IrSubgraph>::empty());
                }
            },
        }
        descendants
    }
}

/// Add `x` to the increasing list `v` unless it is there.
fn insert_sorted_unique(v: &mut Vec<usize>, x: usize)
    requires
        forall|i: int, j: int| 0 <= i < j < old(v)@.len() ==> old(v)@[i] < old(v)@[j],
    ensures
        forall|i: int, j: int| 0 <= i < j < final(v)@.len() ==> final(v)@[i] < final(v)@[j],
        forall|y: usize| #[trigger] final(v)@.contains(y) <==> (old(v)@.contains(y) || y == x),
{
    let mut p: usize = 0;
    while p < v.len() && v[p] < x
        invariant
            p <= v@.len(),
            forall|i: int| 0 <= i < p ==> v@[i] < x,
        decreases v@.len() - p,
    {
        p = p + 1;
    }
    if p < v.len() && v[p] == x {
        return;
    }
    let ghost before = v@;
    v.insert(p, x);
    proof {
        assert forall|i: int, j: int| 0 <= i < j < v@.len() implies v@[i] < v@[j] by {
            if j < p {
                assert(v@[i] == before[i] && v@[j] == before[j]);
            } else if j == p {
                assert(v@[i] == before[i]);
            } else if i < p {
                assert(v@[i] == before[i] && v@[j] == before[j - 1]);
            } else if i == p {
                assert(v@[j] == before[j - 1]);
                assert(before[p as int] > x);
                if j - 1 > p {
                    assert(before[p as int] < before[j - 1]);
                }
            } else {
                assert(v@[i] == before[i - 1] && v@[j] == before[j - 1]);
            }
        }
        assert forall|y: usize| #[trigger] v@.contains(y) <==> (before.contains(y) || y == x) by {
            if v@.contains(y) {
                let k = choose|k: int| 0 <= k < v@.len() && v@[k] == y;
                if k < p {
                    assert(before[k] == y);
                } else if k > p {
                    assert(before[k - 1] == y);
                }
            }
            if before.contains(y) {
                let k = choose|k: int| 0 <= k < before.len() && before[k] == y;
                if k < p {
                    assert(v@[k] == y);
                } else {
                    assert(v@[k + 1] == y);
                }
            }
            if y == x {
                assert(v@[p as int] == x);
            }
        }
    }
}

impl MermaidGraphIr {
    /// A subgraph and its descendants.
    pub open spec fn subtree_of(self, id: IrSubgraphId) -> Seq<IrSubgraph> {
        if id.0 < self.subgraphs@.len() {
            seq![self.subgraphs@[id.0 as int]] + self.descendants_of(id)
        } else {
            Seq::empty()
        }
    }

    /// Node `m` is a member of the subgraph `id` or of one of its descendants.
    pub open spec fn in_subtree(self, id: IrSubgraphId, m: IrNodeId) -> bool {
        exists|k: int| 0 <= k < self.subtree_of(id).len() && (#[trigger] self.subtree_of(id)[k]).members@.contains(m)
    }

    /// The member nodes of a subgraph and its descendants, each once, in increasing order.
    pub fn subgraph_members_recursive(&self, subgraph_id: IrSubgraphId) -> (r: Vec<IrNodeId>)
        requires
            self.descent_ends(subgraph_id),
        ensures
            increasing_ids(r@),
            forall|m: IrNodeId| #[trigger] r@.contains(m) <==> self.in_subtree(subgraph_id, m),
    {
        let mut ids: Vec<usize> = Vec::new();
        let ghost tree = self.subtree_of(subgraph_id);
        match self.subgraph(subgraph_id) {
            Some(start) => {
                let desc = self.subgraph_descendants(subgraph_id);
                let mut group: Vec<&IrSubgraph> = Vec::new();
                group.push(start);
                let mut k: usize = 0;
                while k < desc.len()
                    invariant
                        k <= desc@.len(),
                        group@.len() == k + 1,
                        derefs(group@) == seq![*start] + derefs(desc@).take(k as int),
                    decreases desc@.len() - k,
                {
                    let ghost before = derefs(group@);
                    group.push(desc[k]);
                    proof {
                        assert(derefs(desc@)[k as int] == *desc@[k as int]);
                        assert(derefs(desc@).take(k + 1) =~= derefs(desc@).take(k as int).push(*desc@[k as int]));
                        assert(derefs(group@) =~= before.push(*desc@[k as int]));
                        assert(seq![*start] + derefs(desc@).take(k + 1) =~= (seq![*start] + derefs(desc@).take(k as int)).push(*desc@[k as int]));
                    }
                    k = k + 1;
                }
                proof {
                    assert(derefs(desc@).take(desc@.len() as int) =~= derefs(desc@));
                    assert(derefs(group@) =~= tree);
                }
                let mut g: usize = 0;
                while g < group.len()
                    invariant
                        g <= group@.len(),
                        derefs(group@) == tree,
                        forall|i: int, j: int| 0 <= i < j < ids@.len() ==> ids@[i] < ids@[j],
                        forall|y: usize| #[trigger] ids@.contains(y) <==> exists|a: int| 0 <= a < g
                            && (#[trigger] tree[a]).members@.contains(IrNodeId(y)),
                    decreases group@.len() - g,
                {
                    let sg = group[g];
                    proof {
                        assert(*sg == tree[g as int]);
                    }
                    let ghost before_g = ids@;
                    let mut j: usize = 0;
                    while j < sg.members.len()
                        invariant
                            j <= sg.members@.len(),
                            g < tree.len(),
                            *sg == tree[g as int],
                            forall|i: int, jj: int| 0 <= i < jj < ids@.len() ==> ids@[i] < ids@[jj],
                            forall|y: usize| #[trigger] ids@.contains(y) <==> (before_g.contains(y)
                                || sg.members@.take(j as int).contains(IrNodeId(y))),
                        decreases sg.members@.len() - j,
                    {
                        let m = sg.members[j];
                        insert_sorted_unique(&mut ids, m.0);
                        proof {
                            assert(sg.members@.take(j + 1) =~= sg.members@.take(j as int).push(m));
                            assert forall|y: usize| #[trigger] ids@.contains(y) <==> (before_g.contains(y)
                                || sg.members@.take(j + 1).contains(IrNodeId(y))) by {
                                let t = sg.members@.take(j as int);
                                if t.push(m).contains(IrNodeId(y)) && IrNodeId(y) != m {
                                    let q = choose|q: int| 0 <= q < t.push(m).len() && t.push(m)[q] == IrNodeId(y);
                                    assert(t[q] == IrNodeId(y));
                                }
                                if t.contains(IrNodeId(y)) {
                                    let q = choose|q: int| 0 <= q < t.len() && t[q] == IrNodeId(y);
                                    assert(t.push(m)[q] == IrNodeId(y));
                                }
                                if IrNodeId(y) == m {
                                    assert(t.push(m)[t.len() as int] == m);
                                }
                            }
                        }
                        j = j + 1;
                    }
                    proof {
                        assert(sg.members@.take(sg.members@.len() as int) =~= sg.members@);
                        assert forall|y: usize| #[trigger] ids@.contains(y) <==> exists|a: int| 0 <= a < g + 1
                            && (#[trigger] tree[a]).members@.contains(IrNodeId(y)) by {
                            if ids@.contains(y) && !before_g.contains(y) {
                                assert(tree[g as int].members@.contains(IrNodeId(y)));
                            }
                        }
                    }
                    g = g + 1;
                }
            },
            None => {},
        }
        let mut r: Vec<IrNodeId> = Vec::new();
        let mut i: usize = 0;
        while i < ids.len()
            invariant
                i <= ids@.len(),
                r@.len() == i,
                forall|k: int| 0 <= k < i ==> (#[trigger] r@[k]).0 == ids@[k],
            decreases ids@.len() - i,
        {
            r.push(IrNodeId(ids[i]));
            i = i + 1;
        }
        proof {
            assert forall|a: int, b: int| 0 <= a < b < r@.len() implies r@[a].0 < r@[b].0 by {}
            assert forall|m: IrNodeId| #[trigger] r@.contains(m) <==> self.in_subtree(subgraph_id, m) by {
                if r@.contains(m) {
                    let k = choose|k: int| 0 <= k < r@.len() && r@[k] == m;
                    assert(ids@.contains(m.0));
                }
                if self.in_subtree(subgraph_id, m) {
                    let k = choose|k: int| 0 <= k < tree.len() && (#[trigger] tree[k]).members@.contains(m);
                    assert(ids@.contains(m.0));
                    let q = choose|q: int| 0 <= q < ids@.len() && ids@[q] == m.0;
                    assert(r@[q] == m);
                }
            }
        }
        r
    }
}

} // verus!
