//! Quantized centrality scores and the summary of centrality timing runs.
use vstd::prelude::*;
use std::collections::BTreeMap;

verus! {

/// A centrality score quantized to an integer (ten-thousandths).
#[derive(Debug, Clone, Copy, PartialEq, Eq, PartialOrd, Ord, Hash, Structural)]
pub struct QuantizedScore(pub u32);

impl Default for QuantizedScore {
    fn default() -> (s: Self)
        ensures
            s.0 == 0,
    {
        QuantizedScore(0)
    }
}

impl QuantizedScore {
    /// The quantized value.
    pub fn raw(&self) -> (r: u32)
        ensures
            r == self.0,
    {
        self.0
    }
}

/// Quantized degree centrality of nodes by node index.
#[derive(Debug, Clone)]
pub struct NodeCentralityScores {
    /// Scores by node index.
    pub degree: BTreeMap<usize, QuantizedScore>,
    /// Whether the scores were computed.
    pub computed: bool,
}

impl Default for NodeCentralityScores {
    fn default() -> (s: Self)
        ensures
            s.degree@ == Map::<usize, QuantizedScore>::empty(),
            !s.computed,
    {
        NodeCentralityScores { degree: BTreeMap::new(), computed: false }
    }
}

impl NodeCentralityScores {
    /// The score of a node, 0 when it has none.
    pub fn get_degree(&self, node_idx: usize) -> (s: QuantizedScore)
        ensures
            s == (if self.degree@.contains_key(node_idx) { self.degree@[node_idx] } else { QuantizedScore(0) }),
    {
        proof {
            broadcast use vstd::std_specs::btree::group_btree_axioms;
            broadcast use vstd::laws_cmp::group_laws_cmp;
        }
        match self.degree.get(&node_idx) {
            Some(s) => *s,
            None => QuantizedScore(0),
        }
    }

    /// Whether no node has a score.
    pub fn is_empty(&self) -> (b: bool)
        ensures
            b == self.degree@.is_empty(),
    {
        self.degree.is_empty()
    }
}

/// One timing run of the centrality computation.
#[derive(Debug, Clone, Copy, PartialEq, Eq, Structural)]
pub struct AblationResult {
    /// Nodes of the test graph.
    pub node_count: usize,
    /// Edges of the test graph.
    pub edge_count: usize,
    /// Time the computation took, in microseconds.
    pub centrality_time_us: u64,
    /// Whether the computation succeeded.
    pub centrality_computed: bool,
}

/// Summary of timing runs.
#[derive(Debug, Clone, Default)]
pub struct AblationSummary {
    /// The runs.
    pub results: Vec<AblationResult>,
    /// Largest node count among runs within the time budget.
    pub recommended_node_threshold: usize,
    /// Largest edge count among runs within the time budget.
    pub recommended_edge_threshold: usize,
    /// Mean computation time in microseconds.
    pub mean_centrality_time_us: u64,
    /// Largest computation time in microseconds.
    pub max_centrality_time_us: u64,
}

/// Sum of the run times.
pub open spec fn time_sum(rs: Seq<AblationResult>) -> nat
    decreases rs.len(),
{
    if rs.len() == 0 { 0 } else { time_sum(rs.drop_last()) + rs.last().centrality_time_us as nat }
}

/// Largest run time, 0 for no runs.
pub open spec fn time_max(rs: Seq<AblationResult>) -> u64
    decreases rs.len(),
{
    if rs.len() == 0 {
        0
    } else {
        let m = time_max(rs.drop_last());
        if rs.last().centrality_time_us > m { rs.last().centrality_time_us } else { m }
    }
}

/// A run within the 1000 µs budget.
pub open spec fn passes(r: AblationResult) -> bool {
    r.centrality_time_us < 1000
}

/// Largest node count among passing runs, if any run passes.
pub open spec fn passing_max_nodes(rs: Seq<AblationResult>) -> Option<usize>
    decreases rs.len(),
{
    if rs.len() == 0 {
        None
    } else {
        let m = passing_max_nodes(rs.drop_last());
        if passes(rs.last()) {
            match m {
                Some(v) => Some(if rs.last().node_count >= v { rs.last().node_count } else { v }),
                None => Some(rs.last().node_count),
            }
        } else {
            m
        }
    }
}

/// Largest edge count among passing runs, if any run passes.
pub open spec fn passing_max_edges(rs: Seq<AblationResult>) -> Option<usize>
    decreases rs.len(),
{
    if rs.len() == 0 {
        None
    } else {
        let m = passing_max_edges(rs.drop_last());
        if passes(rs.last()) {
            match m {
                Some(v) => Some(if rs.last().edge_count >= v { rs.last().edge_count } else { v }),
                None => Some(rs.last().edge_count),
            }
        } else {
            m
        }
    }
}

impl AblationSummary {
    /// Fill in the statistics: mean and largest time, and the largest node and edge
    /// counts among runs within 1000 µs (left unchanged when no run is within budget).
    /// Without runs nothing changes.
    pub fn compute(&mut self)
        requires
            time_sum(old(self).results@) <= u64::MAX,
        ensures
            final(self).results == old(self).results,
            old(self).results@.len() == 0 ==> *final(self) == *old(self),
            old(self).results@.len() > 0 ==> {
                let rs = old(self).results@;
                &&& final(self).mean_centrality_time_us == time_sum(rs) / rs.len()
                &&& final(self).max_centrality_time_us == time_max(rs)
                &&& final(self).recommended_node_threshold == match passing_max_nodes(rs) {
                    Some(v) => v,
                    None => old(self).recommended_node_threshold,
                }
                &&& final(self).recommended_edge_threshold == match passing_max_edges(rs) {
                    Some(v) => v,
                    None => old(self).recommended_edge_threshold,
                }
            },
    {
        if self.results.len() == 0 {
            return;
        }
        let n = self.results.len();
        let mut sum: u64 = 0;
        let mut max: u64 = 0;
        let mut best_nodes: Option<usize> = None;
        let mut best_edges: Option<usize> = None;
        let mut i: usize = 0;
        while i < n
            invariant
                n == self.results@.len(),
                i <= n,
                time_sum(self.results@) <= u64::MAX,
                sum == time_sum(self.results@.take(i as int)),
                max == time_max(self.results@.take(i as int)),
                best_nodes == passing_max_nodes(self.results@.take(i as int)),
                best_edges == passing_max_edges(self.results@.take(i as int)),
            decreases n - i,
        {
            let r = self.results[i];
            proof {
                let rs = self.results@;
                assert(rs.take(i + 1).drop_last() =~= rs.take(i as int));
                lemma_time_sum_prefix(rs, (i + 1) as nat);
            }
            sum = sum + r.centrality_time_us;
            if r.centrality_time_us > max {
                max = r.centrality_time_us;
            }
            if r.centrality_time_us < 1000 {
                best_nodes = match best_nodes {
                    Some(v) => Some(if r.node_count >= v { r.node_count } else { v }),
                    None => Some(r.node_count),
                };
                best_edges = match best_edges {
                    Some(v) => Some(if r.edge_count >= v { r.edge_count } else { v }),
                    None => Some(r.edge_count),
                };
            }
            i = i + 1;
        }
        proof {
            assert(self.results@.take(n as int) =~= self.results@);
        }
        self.mean_centrality_time_us = sum / (n as u64);
        self.max_centrality_time_us = max;
        match best_nodes {
            Some(v) => {
                self.recommended_node_threshold = v;
            },
            None => {},
        }
        match best_edges {
            Some(v) => {
                self.recommended_edge_threshold = v;
            },
            None => {},
        }
    }
}

proof fn lemma_time_sum_prefix(rs: Seq<AblationResult>, k: nat)
    requires
        k <= rs.len(),
    ensures
        time_sum(rs.take(k as int)) <= time_sum(rs),
    decreases rs.len(),
{
    if k < rs.len() {
        assert(rs.drop_last().take(k as int) =~= rs.take(k as int));
        lemma_time_sum_prefix(rs.drop_last(), k);
    } else {
        assert(rs.take(k as int) =~= rs);
    }
}

} // verus!
