//! Incremental layout caching: dirty flags per layout phase, keyed by input
//! fingerprints, with hit/recompute statistics.
use vstd::prelude::*;
use vstd::string::StringExecFns;

verus! {

/// Which cached phases need recomputation.
#[derive(Debug, Clone, Copy)]
pub struct DirtyFlags {
    pub graph_metrics: bool,
    pub ranks: bool,
    pub orderings: bool,
    pub layout: bool,
}

impl DirtyFlags {
    /// Everything dirty.
    pub fn all() -> (d: Self)
        ensures
            d.graph_metrics && d.ranks && d.orderings && d.layout,
    {
        DirtyFlags { graph_metrics: true, ranks: true, orderings: true, layout: true }
    }
}

/// Statistics for the layout cache.
#[derive(Debug, Clone, Copy)]
pub struct LayoutDcgStats {
    /// Number of input changes (IR or config).
    pub input_changes: usize,
    /// Graph metrics cache hits.
    pub metrics_hits: usize,
    /// Graph metrics recomputes.
    pub metrics_recomputes: usize,
    /// Rank cache hits.
    pub rank_hits: usize,
    /// Rank recomputes.
    pub rank_recomputes: usize,
    /// Ordering cache hits.
    pub ordering_hits: usize,
    /// Ordering recomputes.
    pub ordering_recomputes: usize,
    /// Layout cache hits.
    pub layout_hits: usize,
    /// Layout recomputes.
    pub layout_recomputes: usize,
}

impl LayoutDcgStats {
    /// All counters zero.
    pub open spec fn is_zero(&self) -> bool {
        &&& self.input_changes == 0
        &&& self.metrics_hits == 0
        &&& self.metrics_recomputes == 0
        &&& self.rank_hits == 0
        &&& self.rank_recomputes == 0
        &&& self.ordering_hits == 0
        &&& self.ordering_recomputes == 0
        &&& self.layout_hits == 0
        &&& self.layout_recomputes == 0
    }

    /// All counters zero.
    pub fn zero() -> (s: Self)
        ensures
            s.is_zero(),
    {
        LayoutDcgStats {
            input_changes: 0,
            metrics_hits: 0,
            metrics_recomputes: 0,
            rank_hits: 0,
            rank_recomputes: 0,
            ordering_hits: 0,
            ordering_recomputes: 0,
            layout_hits: 0,
            layout_recomputes: 0,
        }
    }
}

impl Default for LayoutDcgStats {
    fn default() -> (s: Self)
        ensures
            s.is_zero(),
    {
        Self::zero()
    }
}

/// Copy of a list of ids.
fn copy_usizes(v: &Vec<usize>) -> (r: Vec<usize>)
    ensures
        r@ == v@,
{
    let mut r: Vec<usize> = Vec::new();
    let mut i: usize = 0;
    while i < v.len()
        invariant
            0 <= i <= v@.len(),
            r@ == v@.subrange(0, i as int),
        decreases v@.len() - i,
    {
        r.push(v[i]);
        i += 1;
        proof {
            assert(r@ =~= v@.subrange(0, i as int));
        }
    }
    proof {
        assert(v@.subrange(0, i as int) =~= v@);
    }
    r
}

/// Deep copy of per-rank orderings.
fn copy_orderings(v: &Vec<Vec<usize>>) -> (r: Vec<Vec<usize>>)
    ensures
        r@.len() == v@.len(),
        forall|i: int| 0 <= i < v@.len() ==> (#[trigger] r@[i])@ == v@[i]@,
{
    let mut r: Vec<Vec<usize>> = Vec::new();
    let mut i: usize = 0;
    while i < v.len()
        invariant
            0 <= i <= v@.len(),
            r@.len() == i,
            forall|j: int| 0 <= j < i ==> (#[trigger] r@[j])@ == v@[j]@,
        decreases v@.len() - i,
    {
        r.push(copy_usizes(&v[i]));
        i += 1;
    }
    r
}

/// Demanded computation graph for layout phases: graph metrics (`M`), rank
/// assignments, per-rank orderings and the final layout (`L`), each cached
/// with a dirty flag. An IR change dirties every phase; a config change
/// dirties orderings and layout only.
pub struct LayoutDcg<M, L> {
    ir_fingerprint: u64,
    config_fingerprint: u64,
    graph_metrics: Option<M>,
    ranks: Option<Vec<usize>>,
    orderings: Option<Vec<Vec<usize>>>,
    layout: Option<L>,
    dirty: DirtyFlags,
    stats: LayoutDcgStats,
}

impl<M: Copy, L: Clone> LayoutDcg<M, L> {
    /// Current dirty flags.
    pub closed spec fn flags(&self) -> DirtyFlags {
        self.dirty
    }

    /// Current statistics.
    pub closed spec fn stats_view(&self) -> LayoutDcgStats {
        self.stats
    }

    /// Current IR fingerprint.
    pub closed spec fn ir_fp(&self) -> u64 {
        self.ir_fingerprint
    }

    /// Current config fingerprint.
    pub closed spec fn config_fp(&self) -> u64 {
        self.config_fingerprint
    }

    /// Cached metrics.
    pub closed spec fn metrics_cache(&self) -> Option<M> {
        self.graph_metrics
    }

    /// Cached ranks.
    pub closed spec fn ranks_cache(&self) -> Option<Seq<usize>> {
        match self.ranks {
            Some(r) => Some(r@),
            None => None,
        }
    }

    /// Cached orderings.
    pub closed spec fn orderings_cache(&self) -> Option<Seq<Seq<usize>>> {
        match self.orderings {
            Some(o) => Some(o@.map_values(|v: Vec<usize>| v@)),
            None => None,
        }
    }

    /// Cached layout.
    pub closed spec fn layout_cache(&self) -> Option<L> {
        self.layout
    }

    /// Create a cache with zero fingerprints, nothing cached and everything dirty.
    pub fn new() -> (d: Self)
        ensures
            d.flags().graph_metrics && d.flags().ranks && d.flags().orderings && d.flags().layout,
            d.ir_fp() == 0,
            d.config_fp() == 0,
            d.stats_view().is_zero(),
            d.metrics_cache() is None,
            d.ranks_cache() is None,
            d.orderings_cache() is None,
            d.layout_cache() is None,
    {
        LayoutDcg {
            ir_fingerprint: 0,
            config_fingerprint: 0,
            graph_metrics: None,
            ranks: None,
            orderings: None,
            layout: None,
            dirty: DirtyFlags::all(),
            stats: LayoutDcgStats::zero(),
        }
    }

    /// Set the IR fingerprint; a change dirties every phase and counts one input change.
    pub fn set_ir_fingerprint(&mut self, fingerprint: u64)
        requires
            old(self).stats_view().input_changes < usize::MAX,
        ensures
            final(self).ir_fp() == fingerprint,
            final(self).config_fp() == old(self).config_fp(),
            final(self).metrics_cache() == old(self).metrics_cache(),
            final(self).ranks_cache() == old(self).ranks_cache(),
            final(self).orderings_cache() == old(self).orderings_cache(),
            final(self).layout_cache() == old(self).layout_cache(),
            if old(self).ir_fp() == fingerprint {
                final(self).flags() == old(self).flags() && final(self).stats_view() == old(self).stats_view()
            } else {
                final(self).flags() == DirtyFlags { graph_metrics: true, ranks: true, orderings: true, layout: true }
                    && final(self).stats_view() == (LayoutDcgStats {
                    input_changes: (old(self).stats_view().input_changes + 1) as usize,
                    ..old(self).stats_view()
                })
            },
    {
        if self.ir_fingerprint == fingerprint {
            return;
        }
        self.ir_fingerprint = fingerprint;
        self.stats.input_changes = self.stats.input_changes + 1;
        self.dirty = DirtyFlags::all();
    }

    /// The IR fingerprint.
    pub fn ir_fingerprint(&self) -> (f: u64)
        ensures
            f == self.ir_fp(),
    {
        self.ir_fingerprint
    }

    /// Set the config fingerprint; a change dirties orderings and layout
    /// (not metrics or ranks) and counts one input change.
    pub fn set_config_fingerprint(&mut self, fingerprint: u64)
        requires
            old(self).stats_view().input_changes < usize::MAX,
        ensures
            final(self).config_fp() == fingerprint,
            final(self).ir_fp() == old(self).ir_fp(),
            final(self).metrics_cache() == old(self).metrics_cache(),
            final(self).ranks_cache() == old(self).ranks_cache(),
            final(self).orderings_cache() == old(self).orderings_cache(),
            final(self).layout_cache() == old(self).layout_cache(),
            if old(self).config_fp() == fingerprint {
                final(self).flags() == old(self).flags() && final(self).stats_view() == old(self).stats_view()
            } else {
                final(self).flags() == (DirtyFlags { orderings: true, layout: true, ..old(self).flags() })
                    && final(self).stats_view() == (LayoutDcgStats {
                    input_changes: (old(self).stats_view().input_changes + 1) as usize,
                    ..old(self).stats_view()
                })
            },
    {
        if self.config_fingerprint == fingerprint {
            return;
        }
        self.config_fingerprint = fingerprint;
        self.stats.input_changes = self.stats.input_changes + 1;
        self.dirty.orderings = true;
        self.dirty.layout = true;
    }

    /// The config fingerprint.
    pub fn config_fingerprint(&self) -> (f: u64)
        ensures
            f == self.config_fp(),
    {
        self.config_fingerprint
    }

    /// Whether graph metrics need recomputation.
    pub fn metrics_dirty(&self) -> (b: bool)
        ensures
            b == self.flags().graph_metrics,
    {
        self.dirty.graph_metrics
    }

    /// Record computed metrics: cache them, clear their flag, count a recompute.
    pub fn set_metrics(&mut self, metrics: M)
        requires
            old(self).stats_view().metrics_recomputes < usize::MAX,
        ensures
            final(self).metrics_cache() == Some(metrics),
            final(self).flags() == (DirtyFlags { graph_metrics: false, ..old(self).flags() }),
            final(self).stats_view() == (LayoutDcgStats {
                metrics_recomputes: (old(self).stats_view().metrics_recomputes + 1) as usize,
                ..old(self).stats_view()
            }),
            final(self).ir_fp() == old(self).ir_fp(),
            final(self).config_fp() == old(self).config_fp(),
            final(self).ranks_cache() == old(self).ranks_cache(),
            final(self).orderings_cache() == old(self).orderings_cache(),
            final(self).layout_cache() == old(self).layout_cache(),
    {
        self.graph_metrics = Some(metrics);
        self.dirty.graph_metrics = false;
        self.stats.metrics_recomputes = self.stats.metrics_recomputes + 1;
    }

    /// Cached metrics when clean (counting a hit), otherwise `None`.
    pub fn get_metrics(&mut self) -> (r: Option<M>)
        requires
            old(self).stats_view().metrics_hits < usize::MAX,
        ensures
            r == if old(self).flags().graph_metrics { None } else { old(self).metrics_cache() },
            final(self).stats_view() == if old(self).flags().graph_metrics {
                old(self).stats_view()
            } else {
                LayoutDcgStats { metrics_hits: (old(self).stats_view().metrics_hits + 1) as usize, ..old(self).stats_view() }
            },
            final(self).flags() == old(self).flags(),
            final(self).ir_fp() == old(self).ir_fp(),
            final(self).config_fp() == old(self).config_fp(),
            final(self).metrics_cache() == old(self).metrics_cache(),
            final(self).ranks_cache() == old(self).ranks_cache(),
            final(self).orderings_cache() == old(self).orderings_cache(),
            final(self).layout_cache() == old(self).layout_cache(),
    {
        if self.dirty.graph_metrics {
            return None;
        }
        self.stats.metrics_hits = self.stats.metrics_hits + 1;
        self.graph_metrics
    }

    /// Whether ranks need recomputation.
    pub fn ranks_dirty(&self) -> (b: bool)
        ensures
            b == self.flags().ranks,
    {
        self.dirty.ranks
    }

    /// Record computed ranks.
    pub fn set_ranks(&mut self, ranks: Vec<usize>)
        requires
            old(self).stats_view().rank_recomputes < usize::MAX,
        ensures
            final(self).ranks_cache() == Some(ranks@),
            final(self).flags() == (DirtyFlags { ranks: false, ..old(self).flags() }),
            final(self).stats_view() == (LayoutDcgStats {
                rank_recomputes: (old(self).stats_view().rank_recomputes + 1) as usize,
                ..old(self).stats_view()
            }),
            final(self).ir_fp() == old(self).ir_fp(),
            final(self).config_fp() == old(self).config_fp(),
            final(self).metrics_cache() == old(self).metrics_cache(),
            final(self).orderings_cache() == old(self).orderings_cache(),
            final(self).layout_cache() == old(self).layout_cache(),
    {
        self.ranks = Some(ranks);
        self.dirty.ranks = false;
        self.stats.rank_recomputes = self.stats.rank_recomputes + 1;
    }

    /// Cached ranks when clean (counting a hit), otherwise `None`.
    pub fn get_ranks(&mut self) -> (r: Option<Vec<usize>>)
        requires
            old(self).stats_view().rank_hits < usize::MAX,
        ensures
            match r {
                Some(v) => !old(self).flags().ranks && old(self).ranks_cache() == Some(v@),
                None => old(self).flags().ranks || old(self).ranks_cache() is None,
            },
            final(self).stats_view() == if old(self).flags().ranks {
                old(self).stats_view()
            } else {
                LayoutDcgStats { rank_hits: (old(self).stats_view().rank_hits + 1) as usize, ..old(self).stats_view() }
            },
            final(self).flags() == old(self).flags(),
            final(self).ranks_cache() == old(self).ranks_cache(),
            final(self).metrics_cache() == old(self).metrics_cache(),
            final(self).orderings_cache() == old(self).orderings_cache(),
            final(self).layout_cache() == old(self).layout_cache(),
    {
        if self.dirty.ranks {
            return None;
        }
        self.stats.rank_hits = self.stats.rank_hits + 1;
        match &self.ranks {
            Some(v) => Some(copy_usizes(v)),
            None => None,
        }
    }

    /// Whether orderings need recomputation.
    pub fn orderings_dirty(&self) -> (b: bool)
        ensures
            b == self.flags().orderings,
    {
        self.dirty.orderings
    }

    /// Record computed orderings.
    pub fn set_orderings(&mut self, orderings: Vec<Vec<usize>>)
        requires
            old(self).stats_view().ordering_recomputes < usize::MAX,
        ensures
            final(self).orderings_cache() == Some(orderings@.map_values(|v: Vec<usize>| v@)),
            final(self).flags() == (DirtyFlags { orderings: false, ..old(self).flags() }),
            final(self).stats_view() == (LayoutDcgStats {
                ordering_recomputes: (old(self).stats_view().ordering_recomputes + 1) as usize,
                ..old(self).stats_view()
            }),
            final(self).ir_fp() == old(self).ir_fp(),
            final(self).config_fp() == old(self).config_fp(),
            final(self).metrics_cache() == old(self).metrics_cache(),
            final(self).ranks_cache() == old(self).ranks_cache(),
            final(self).layout_cache() == old(self).layout_cache(),
    {
        self.orderings = Some(orderings);
        self.dirty.orderings = false;
        self.stats.ordering_recomputes = self.stats.ordering_recomputes + 1;
    }

    /// Cached orderings when clean (counting a hit), otherwise `None`.
    pub fn get_orderings(&mut self) -> (r: Option<Vec<Vec<usize>>>)
        requires
            old(self).stats_view().ordering_hits < usize::MAX,
        ensures
            match r {
                Some(v) => !old(self).flags().orderings && old(self).orderings_cache() == Some(v@.map_values(|x: Vec<usize>| x@)),
                None => old(self).flags().orderings || old(self).orderings_cache() is None,
            },
            final(self).stats_view() == if old(self).flags().orderings {
                old(self).stats_view()
            } else {
                LayoutDcgStats { ordering_hits: (old(self).stats_view().ordering_hits + 1) as usize, ..old(self).stats_view() }
            },
            final(self).flags() == old(self).flags(),
            final(self).orderings_cache() == old(self).orderings_cache(),
            final(self).metrics_cache() == old(self).metrics_cache(),
            final(self).ranks_cache() == old(self).ranks_cache(),
            final(self).layout_cache() == old(self).layout_cache(),
    {
        if self.dirty.orderings {
            return None;
        }
        self.stats.ordering_hits = self.stats.ordering_hits + 1;
        match &self.orderings {
            Some(v) => {
                let c = copy_orderings(v);
                proof {
                    assert(c@.map_values(|x: Vec<usize>| x@) =~= v@.map_values(|x: Vec<usize>| x@));
                }
                Some(c)
            },
            None => None,
        }
    }

    /// Whether the layout needs recomputation.
    pub fn layout_dirty(&self) -> (b: bool)
        ensures
            b == self.flags().layout,
    {
        self.dirty.layout
    }

    /// Record a computed layout.
    pub fn set_layout(&mut self, layout: L)
        requires
            old(self).stats_view().layout_recomputes < usize::MAX,
        ensures
            final(self).layout_cache() == Some(layout),
            final(self).flags() == (DirtyFlags { layout: false, ..old(self).flags() }),
            final(self).stats_view() == (LayoutDcgStats {
                layout_recomputes: (old(self).stats_view().layout_recomputes + 1) as usize,
                ..old(self).stats_view()
            }),
            final(self).ir_fp() == old(self).ir_fp(),
            final(self).config_fp() == old(self).config_fp(),
            final(self).metrics_cache() == old(self).metrics_cache(),
            final(self).ranks_cache() == old(self).ranks_cache(),
            final(self).orderings_cache() == old(self).orderings_cache(),
    {
        self.layout = Some(layout);
        self.dirty.layout = false;
        self.stats.layout_recomputes = self.stats.layout_recomputes + 1;
    }

    /// A clone of the cached layout when clean (counting a hit), otherwise `None`.
    pub fn get_layout(&mut self) -> (r: Option<L>)
        requires
            old(self).stats_view().layout_hits < usize::MAX,
        ensures
            match r {
                Some(v) => !old(self).flags().layout && (old(self).layout_cache() matches Some(c) && cloned::<L>(c, v)),
                None => old(self).flags().layout || old(self).layout_cache() is None,
            },
            final(self).stats_view() == if old(self).flags().layout {
                old(self).stats_view()
            } else {
                LayoutDcgStats { layout_hits: (old(self).stats_view().layout_hits + 1) as usize, ..old(self).stats_view() }
            },
            final(self).flags() == old(self).flags(),
            final(self).layout_cache() == old(self).layout_cache(),
    {
        if self.dirty.layout {
            return None;
        }
        self.stats.layout_hits = self.stats.layout_hits + 1;
        match &self.layout {
            Some(l) => Some(l.clone()),
            None => None,
        }
    }

    /// Current statistics.
    pub fn stats(&self) -> (s: LayoutDcgStats)
        ensures
            s == self.stats_view(),
    {
        self.stats
    }

    /// Zero the statistics.
    pub fn reset_stats(&mut self)
        ensures
            final(self).stats_view().is_zero(),
            final(self).flags() == old(self).flags(),
    {
        self.stats = LayoutDcgStats::zero();
    }

    /// Drop every cached value and dirty every phase.
    pub fn invalidate_all(&mut self)
        ensures
            final(self).flags() == DirtyFlags::all_spec(),
            final(self).metrics_cache() is None,
            final(self).ranks_cache() is None,
            final(self).orderings_cache() is None,
            final(self).layout_cache() is None,
            final(self).stats_view() == old(self).stats_view(),
            final(self).ir_fp() == old(self).ir_fp(),
            final(self).config_fp() == old(self).config_fp(),
    {
        self.graph_metrics = None;
        self.ranks = None;
        self.orderings = None;
        self.layout = None;
        self.dirty = DirtyFlags::all();
    }

    /// Whether any phase is dirty.
    pub fn any_dirty(&self) -> (b: bool)
        ensures
            b == (self.flags().graph_metrics || self.flags().ranks || self.flags().orderings || self.flags().layout),
    {
        self.dirty.graph_metrics || self.dirty.ranks || self.dirty.orderings || self.dirty.layout
    }

    /// Whether every phase is clean.
    pub fn fully_cached(&self) -> (b: bool)
        ensures
            b == !(self.flags().graph_metrics || self.flags().ranks || self.flags().orderings || self.flags().layout),
    {
        !self.any_dirty()
    }

    /// Comma-separated names of the dirty phases, or "clean".
    pub fn dirty_summary(&self) -> (s: String)
        ensures
            s@ == summary_text(self.flags()),
    {
        let d = self.dirty;
        let mut out = String::new();
        let mut any = false;
        let ghost mut names: Seq<Seq<char>> = Seq::empty();
        if d.graph_metrics {
            proof { lemma_join_push(names, "metrics"@); }
            out.append("metrics");
            any = true;
            proof { names = names.push("metrics"@); }
        }
        if d.ranks {
            proof { lemma_join_push(names, "ranks"@); }
            if any {
                out.append(", ");
            }
            out.append("ranks");
            any = true;
            proof { names = names.push("ranks"@); }
        }
        if d.orderings {
            proof { lemma_join_push(names, "orderings"@); }
            if any {
                out.append(", ");
            }
            out.append("orderings");
            any = true;
            proof { names = names.push("orderings"@); }
        }
        if d.layout {
            proof { lemma_join_push(names, "layout"@); }
            if any {
                out.append(", ");
            }
            out.append("layout");
            any = true;
            proof { names = names.push("layout"@); }
        }
        assert(names == dirty_names(d));
        if !any {
            return String::from_str("clean");
        }
        out
    }
}

impl DirtyFlags {
    /// Everything dirty.
    pub open spec fn all_spec() -> Self {
        DirtyFlags { graph_metrics: true, ranks: true, orderings: true, layout: true }
    }
}

/// `parts` joined with ", ".
pub open spec fn join_names(parts: Seq<Seq<char>>) -> Seq<char>
    decreases parts.len(),
{
    if parts.len() == 0 {
        Seq::empty()
    } else if parts.len() == 1 {
        parts[0]
    } else {
        join_names(parts.drop_last()) + ", "@ + parts.last()
    }
}

proof fn lemma_join_push(names: Seq<Seq<char>>, x: Seq<char>)
    ensures
        names.len() == 0 ==> join_names(names.push(x)) == x,
        names.len() > 0 ==> join_names(names.push(x)) == join_names(names) + ", "@ + x,
{
    assert(names.push(x).drop_last() =~= names);
    if names.len() == 0 {
        assert(join_names(names) =~= Seq::<char>::empty());
    }
}

/// Names of the dirty phases in pipeline order.
pub open spec fn dirty_names(d: DirtyFlags) -> Seq<Seq<char>> {
    let a = if d.graph_metrics { seq!["metrics"@] } else { Seq::empty() };
    let b = if d.ranks { a.push("ranks"@) } else { a };
    let c = if d.orderings { b.push("orderings"@) } else { b };
    if d.layout { c.push("layout"@) } else { c }
}

/// The dirty summary: the joined dirty-phase names, or "clean".
pub open spec fn summary_text(d: DirtyFlags) -> Seq<char> {
    if dirty_names(d).len() == 0 {
        "clean"@
    } else {
        join_names(dirty_names(d))
    }
}

} // verus!

verus! {

/// What a metrics read gives on a cache in this state.
pub open spec fn metrics_read<M: Copy, L: Clone>(d: LayoutDcg<M, L>) -> Option<M> {
    if d.flags().graph_metrics { None } else { d.metrics_cache() }
}

/// Metrics read back after being recorded are the recorded metrics; after an IR change
/// to a new fingerprint the read misses until metrics are recorded again; a config
/// change does not disturb them.
pub proof fn law_metrics_read_back<M: Copy, L: Clone>(
    recorded: LayoutDcg<M, L>,
    after_ir: LayoutDcg<M, L>,
    after_config: LayoutDcg<M, L>,
    m: M,
)
    requires
        recorded.metrics_cache() == Some(m),
        !recorded.flags().graph_metrics,
        after_ir.flags() == (DirtyFlags { graph_metrics: true, ranks: true, orderings: true, layout: true }),
        after_config.flags() == (DirtyFlags { orderings: true, layout: true, ..recorded.flags() }),
        after_config.metrics_cache() == recorded.metrics_cache(),
    ensures
        metrics_read(recorded) == Some(m),
        metrics_read(after_ir) is None,
        metrics_read(after_config) == Some(m),
{
}

/// A step that keeps the cached metrics and does not dirty them: any of
/// `set_config_fingerprint`, `set_ir_fingerprint` to the current fingerprint,
/// the reads, and the recording of the other phases.
pub open spec fn keeps_metrics<M: Copy, L: Clone>(before: LayoutDcg<M, L>, after: LayoutDcg<M, L>) -> bool {
    &&& after.metrics_cache() == before.metrics_cache()
    &&& !before.flags().graph_metrics ==> !after.flags().graph_metrics
}

/// Recorded metrics come back from every read until they are invalidated:
/// along any run of steps that keep them, the read gives the recorded value.
pub proof fn law_metrics_persist<M: Copy, L: Clone>(run: Seq<LayoutDcg<M, L>>, m: M)
    requires
        run.len() > 0,
        run[0].metrics_cache() == Some(m),
        !run[0].flags().graph_metrics,
        forall|i: int| 0 <= i < run.len() - 1 ==> keeps_metrics(#[trigger] run[i], run[i + 1]),
    ensures
        forall|i: int| 0 <= i < run.len() ==> metrics_read(#[trigger] run[i]) == Some(m),
    decreases run.len(),
{
    if run.len() > 1 {
        let prefix = run.drop_last();
        assert forall|i: int| 0 <= i < prefix.len() - 1 implies keeps_metrics(#[trigger] prefix[i], prefix[i + 1]) by {
            assert(keeps_metrics(run[i], run[i + 1]));
        }
        law_metrics_persist(prefix, m);
        assert forall|i: int| 0 <= i < run.len() implies metrics_read(#[trigger] run[i]) == Some(m) by {
            if i < run.len() - 1 {
                assert(metrics_read(prefix[i]) == Some(m));
            } else {
                assert(metrics_read(prefix[i - 1]) == Some(m));
                assert(keeps_metrics(run[i - 1], run[i]));
            }
        }
    }
}

} // verus!
