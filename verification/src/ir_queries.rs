//! Queries over the parts of a diagram: nodes by id, the edges at a node and its
//! neighbours, and the diagnostics by severity and category.
use vstd::prelude::*;
use crate::diagnostics::{Diagnostic, DiagnosticCounts};
use crate::graph_ir::{derefs, IrGraphEdge, IrNodeId, IrPort, MermaidGraphIr};
use crate::model::IrNode;
use crate::taxonomy::{DiagnosticCategory, DiagnosticSeverity};
use crate::text::text_eq;

verus! {

/// The position of the first node with id `id`.
pub open spec fn first_node_with_id(nodes: Seq<IrNode>, id: Seq<char>) -> Option<int> {
    if exists|i: int| 0 <= i < nodes.len() && (#[trigger] nodes[i]).id@ == id {
        Some(choose|i: int| 0 <= i < nodes.len() && (#[trigger] nodes[i]).id@ == id
            && forall|j: int| 0 <= j < i ==> (#[trigger] nodes[j]).id@ != id)
    } else {
        None
    }
}

/// The index of the first node with the given id.
pub fn find_node_index(nodes: &[IrNode], id: &str) -> (r: Option<usize>)
    ensures
        match r {
            Some(i) => first_node_with_id(nodes@, id@) == Some(i as int) && i < nodes@.len() && nodes@[i as int].id@ == id@,
            None => first_node_with_id(nodes@, id@) is None,
        },
{
    let mut i: usize = 0;
    while i < nodes.len()
        invariant
            i <= nodes@.len(),
            forall|j: int| 0 <= j < i ==> (#[trigger] nodes@[j]).id@ != id@,
        decreases nodes@.len() - i,
    {
        if text_eq(nodes[i].id.as_str(), id) {
            proof {
                let c = choose|k: int| 0 <= k < nodes@.len() && (#[trigger] nodes@[k]).id@ == id@
                    && forall|j: int| 0 <= j < k ==> (#[trigger] nodes@[j]).id@ != id@;
                assert(nodes@[i as int].id@ == id@);
                if c < i {
                    assert(nodes@[c].id@ != id@);
                }
                if c > i {
                    assert(nodes@[i as int].id@ != id@);
                }
            }
            return Some(i);
        }
        i = i + 1;
    }
    None
}

/// The first node with the given id.
pub fn find_node<'a>(nodes: &'a [IrNode], id: &str) -> (r: Option<&'a IrNode>)
    ensures
        match r {
            Some(n) => exists|i: int| first_node_with_id(nodes@, id@) == Some(i) && *n == nodes@[i],
            None => first_node_with_id(nodes@, id@) is None,
        },
{
    match find_node_index(nodes, id) {
        Some(i) => Some(&nodes[i]),
        None => None,
    }
}

/// The edge has `node` at its start (`outgoing`), at its end (`incoming`), or at either.
pub open spec fn edge_at(e: IrGraphEdge, ports: Seq<IrPort>, node: IrNodeId, outgoing: bool, incoming: bool) -> bool {
    (outgoing && e.from.node_of(ports) == Some(node)) || (incoming && e.to.node_of(ports) == Some(node))
}

/// The edges with `node` at the chosen ends, in order.
pub open spec fn edges_at(edges: Seq<IrGraphEdge>, ports: Seq<IrPort>, node: IrNodeId, outgoing: bool, incoming: bool) -> Seq<IrGraphEdge> {
    edges.filter(|e: IrGraphEdge| edge_at(e, ports, node, outgoing, incoming))
}

fn select_edges<'a>(graph: &'a MermaidGraphIr, ports: &[IrPort], node_id: IrNodeId, outgoing: bool, incoming: bool)
    -> (r: Vec<&'a IrGraphEdge>)
    ensures
        derefs(r@) == edges_at(graph.edges@, ports@, node_id, outgoing, incoming),
{
    let ghost p = |e: IrGraphEdge| edge_at(e, ports@, node_id, outgoing, incoming);
    let mut r: Vec<&IrGraphEdge> = Vec::new();
    let mut i: usize = 0;
    while i < graph.edges.len()
        invariant
            i <= graph.edges@.len(),
            p == (|e: IrGraphEdge| edge_at(e, ports@, node_id, outgoing, incoming)),
            derefs(r@) == graph.edges@.take(i as int).filter(p),
        decreases graph.edges@.len() - i,
    {
        let edge = &graph.edges[i];
        proof {
            assert(graph.edges@.take(i + 1) =~= graph.edges@.take(i as int).push(*edge));
            graph.edges@.take(i as int).lemma_filter_push(*edge, p);
        }
        let from = edge.from.resolved_node_id(ports);
        let to = edge.to.resolved_node_id(ports);
        let ghost before = derefs(r@);
        if (outgoing && from == Some(node_id)) || (incoming && to == Some(node_id)) {
            r.push(edge);
            proof {
                assert(derefs(r@) =~= before.push(*edge));
            }
        }
        i = i + 1;
    }
    proof {
        assert(graph.edges@.take(graph.edges@.len() as int) =~= graph.edges@);
    }
    r
}

/// The edges that start or end at the node (through a port or directly).
pub fn graph_incident_edges<'a>(graph: &'a MermaidGraphIr, ports: &[IrPort], node_id: IrNodeId) -> (r: Vec<&'a IrGraphEdge>)
    ensures
        derefs(r@) == edges_at(graph.edges@, ports@, node_id, true, true),
{
    select_edges(graph, ports, node_id, true, true)
}

/// The edges that start at the node.
pub fn graph_outgoing_edges<'a>(graph: &'a MermaidGraphIr, ports: &[IrPort], node_id: IrNodeId) -> (r: Vec<&'a IrGraphEdge>)
    ensures
        derefs(r@) == edges_at(graph.edges@, ports@, node_id, true, false),
{
    select_edges(graph, ports, node_id, true, false)
}

/// The edges that end at the node.
pub fn graph_incoming_edges<'a>(graph: &'a MermaidGraphIr, ports: &[IrPort], node_id: IrNodeId) -> (r: Vec<&'a IrGraphEdge>)
    ensures
        derefs(r@) == edges_at(graph.edges@, ports@, node_id, false, true),
{
    select_edges(graph, ports, node_id, false, true)
}

/// The node at the other end of an edge at `node` (both ends resolved).
pub open spec fn other_end(e: IrGraphEdge, ports: Seq<IrPort>, node: IrNodeId) -> Option<IrNodeId> {
    match (e.from.node_of(ports), e.to.node_of(ports)) {
        (Some(from), Some(to)) => Some(if from == node { to } else { from }),
        _ => None,
    }
}

/// The distinct other ends of the first `k` edges, in order of first appearance.
pub open spec fn neighbors_upto(edges: Seq<IrGraphEdge>, ports: Seq<IrPort>, node: IrNodeId, k: nat) -> Seq<IrNodeId>
    decreases k,
{
    if k == 0 {
        Seq::empty()
    } else {
        let prev = neighbors_upto(edges, ports, node, (k - 1) as nat);
        match other_end(edges[k - 1], ports, node) {
            Some(c) => if prev.contains(c) { prev } else { prev.push(c) },
            None => prev,
        }
    }
}

/// The neighbours of a node: the other ends of its edges, each once, in order of first
/// appearance.
pub fn graph_neighbors(graph: &MermaidGraphIr, ports: &[IrPort], node_id: IrNodeId) -> (r: Vec<IrNodeId>)
    ensures
        ({
            let inc = edges_at(graph.edges@, ports@, node_id, true, true);
            r@ == neighbors_upto(inc, ports@, node_id, inc.len())
        }),
{
    let incident = graph_incident_edges(graph, ports, node_id);
    let ghost inc = derefs(incident@);
    let mut neighbors: Vec<IrNodeId> = Vec::new();
    let mut i: usize = 0;
    while i < incident.len()
        invariant
            i <= incident@.len(),
            inc == derefs(incident@),
            neighbors@ == neighbors_upto(inc, ports@, node_id, i as nat),
        decreases incident@.len() - i,
    {
        let edge = incident[i];
        proof {
            assert(inc[i as int] == *edge);
        }
        let from = edge.from.resolved_node_id(ports);
        let to = edge.to.resolved_node_id(ports);
        match (from, to) {
            (Some(f), Some(t)) => {
                let candidate = if f == node_id { t } else { f };
                let mut seen = false;
                let mut j: usize = 0;
                while j < neighbors.len()
                    invariant
                        j <= neighbors@.len(),
                        seen <==> neighbors@.take(j as int).contains(candidate),
                    decreases neighbors@.len() - j,
                {
                    proof {
                        assert(neighbors@.take(j + 1) =~= neighbors@.take(j as int).push(neighbors@[j as int]));
                        let t = neighbors@.take(j as int);
                        if t.push(neighbors@[j as int]).contains(candidate) && neighbors@[j as int] != candidate {
                            let q = choose|q: int| 0 <= q < t.push(neighbors@[j as int]).len() && t.push(neighbors@[j as int])[q] == candidate;
                            assert(t[q] == candidate);
                        }
                        if t.contains(candidate) {
                            let q = choose|q: int| 0 <= q < t.len() && t[q] == candidate;
                            assert(t.push(neighbors@[j as int])[q] == candidate);
                        }
                        if neighbors@[j as int] == candidate {
                            assert(t.push(neighbors@[j as int])[t.len() as int] == candidate);
                        }
                    }
                    if neighbors[j] == candidate {
                        seen = true;
                    }
                    j = j + 1;
                }
                proof {
                    assert(neighbors@.take(neighbors@.len() as int) =~= neighbors@);
                }
                if !seen {
                    neighbors.push(candidate);
                }
            },
            _ => {},
        }
        i = i + 1;
    }
    neighbors
}

/// How many of the diagnostics have the severity.
pub open spec fn severity_count(ds: Seq<Diagnostic>, s: DiagnosticSeverity) -> nat {
    ds.filter(|d: Diagnostic| d.severity == s).len()
}

/// Some diagnostic is an error.
pub fn has_errors(diagnostics: &[Diagnostic]) -> (b: bool)
    ensures
        b == exists|i: int| 0 <= i < diagnostics@.len() && (#[trigger] diagnostics@[i]).severity == DiagnosticSeverity::Error,
{
    let mut i: usize = 0;
    while i < diagnostics.len()
        invariant
            i <= diagnostics@.len(),
            forall|j: int| 0 <= j < i ==> (#[trigger] diagnostics@[j]).severity != DiagnosticSeverity::Error,
        decreases diagnostics@.len() - i,
    {
        if diagnostics[i].is_error() {
            return true;
        }
        i = i + 1;
    }
    false
}

/// Some diagnostic is a warning.
pub fn has_warnings(diagnostics: &[Diagnostic]) -> (b: bool)
    ensures
        b == exists|i: int| 0 <= i < diagnostics@.len() && (#[trigger] diagnostics@[i]).severity == DiagnosticSeverity::Warning,
{
    let mut i: usize = 0;
    while i < diagnostics.len()
        invariant
            i <= diagnostics@.len(),
            forall|j: int| 0 <= j < i ==> (#[trigger] diagnostics@[j]).severity != DiagnosticSeverity::Warning,
        decreases diagnostics@.len() - i,
    {
        if diagnostics[i].is_warning() {
            return true;
        }
        i = i + 1;
    }
    false
}

/// The number of diagnostics of each severity.
pub fn diagnostic_counts(diagnostics: &[Diagnostic]) -> (c: DiagnosticCounts)
    ensures
        c.hints == severity_count(diagnostics@, DiagnosticSeverity::Hint),
        c.infos == severity_count(diagnostics@, DiagnosticSeverity::Info),
        c.warnings == severity_count(diagnostics@, DiagnosticSeverity::Warning),
        c.errors == severity_count(diagnostics@, DiagnosticSeverity::Error),
{
    let ghost ph = |d: Diagnostic| d.severity == DiagnosticSeverity::Hint;
    let ghost pi = |d: Diagnostic| d.severity == DiagnosticSeverity::Info;
    let ghost pw = |d: Diagnostic| d.severity == DiagnosticSeverity::Warning;
    let ghost pe = |d: Diagnostic| d.severity == DiagnosticSeverity::Error;
    let mut counts = DiagnosticCounts { hints: 0, infos: 0, warnings: 0, errors: 0 };
    let mut i: usize = 0;
    while i < diagnostics.len()
        invariant
            i <= diagnostics@.len(),
            ph == (|d: Diagnostic| d.severity == DiagnosticSeverity::Hint),
            pi == (|d: Diagnostic| d.severity == DiagnosticSeverity::Info),
            pw == (|d: Diagnostic| d.severity == DiagnosticSeverity::Warning),
            pe == (|d: Diagnostic| d.severity == DiagnosticSeverity::Error),
            counts.hints == diagnostics@.take(i as int).filter(ph).len(),
            counts.infos == diagnostics@.take(i as int).filter(pi).len(),
            counts.warnings == diagnostics@.take(i as int).filter(pw).len(),
            counts.errors == diagnostics@.take(i as int).filter(pe).len(),
            counts.hints + counts.infos + counts.warnings + counts.errors == i,
        decreases diagnostics@.len() - i,
    {
        let d = &diagnostics[i];
        proof {
            let t = diagnostics@.take(i as int);
            assert(diagnostics@.take(i + 1) =~= t.push(*d));
            t.lemma_filter_push(*d, ph);
            t.lemma_filter_push(*d, pi);
            t.lemma_filter_push(*d, pw);
            t.lemma_filter_push(*d, pe);
        }
        match d.severity {
            DiagnosticSeverity::Hint => counts.hints = counts.hints + 1,
            DiagnosticSeverity::Info => counts.infos = counts.infos + 1,
            DiagnosticSeverity::Warning => counts.warnings = counts.warnings + 1,
            DiagnosticSeverity::Error => counts.errors = counts.errors + 1,
        }
        i = i + 1;
    }
    proof {
        assert(diagnostics@.take(diagnostics@.len() as int) =~= diagnostics@);
    }
    counts
}

/// The diagnostics of a severity, in order.
pub fn diagnostics_by_severity(diagnostics: &[Diagnostic], severity: DiagnosticSeverity) -> (r: Vec<&Diagnostic>)
    ensures
        derefs(r@) == diagnostics@.filter(|d: Diagnostic| d.severity == severity),
{
    let ghost p = |d: Diagnostic| d.severity == severity;
    let mut r: Vec<&Diagnostic> = Vec::new();
    let mut i: usize = 0;
    while i < diagnostics.len()
        invariant
            i <= diagnostics@.len(),
            p == (|d: Diagnostic| d.severity == severity),
            derefs(r@) == diagnostics@.take(i as int).filter(p),
        decreases diagnostics@.len() - i,
    {
        let d = &diagnostics[i];
        proof {
            assert(diagnostics@.take(i + 1) =~= diagnostics@.take(i as int).push(*d));
            diagnostics@.take(i as int).lemma_filter_push(*d, p);
        }
        let ghost before = derefs(r@);
        if d.severity == severity {
            r.push(d);
            proof {
                assert(derefs(r@) =~= before.push(*d));
            }
        }
        i = i + 1;
    }
    proof {
        assert(diagnostics@.take(diagnostics@.len() as int) =~= diagnostics@);
    }
    r
}

/// The diagnostics of a category, in order.
pub fn diagnostics_by_category(diagnostics: &[Diagnostic], category: DiagnosticCategory) -> (r: Vec<&Diagnostic>)
    ensures
        derefs(r@) == diagnostics@.filter(|d: Diagnostic| d.category == category),
{
    let ghost p = |d: Diagnostic| d.category == category;
    let mut r: Vec<&Diagnostic> = Vec::new();
    let mut i: usize = 0;
    while i < diagnostics.len()
        invariant
            i <= diagnostics@.len(),
            p == (|d: Diagnostic| d.category == category),
            derefs(r@) == diagnostics@.take(i as int).filter(p),
        decreases diagnostics@.len() - i,
    {
        let d = &diagnostics[i];
        proof {
            assert(diagnostics@.take(i + 1) =~= diagnostics@.take(i as int).push(*d));
            diagnostics@.take(i as int).lemma_filter_push(*d, p);
        }
        let ghost before = derefs(r@);
        if d.category == category {
            r.push(d);
            proof {
                assert(derefs(r@) =~= before.push(*d));
            }
        }
        i = i + 1;
    }
    proof {
        assert(diagnostics@.take(diagnostics@.len() as int) =~= diagnostics@);
    }
    r
}

} // verus!
