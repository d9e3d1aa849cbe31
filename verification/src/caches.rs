//! Derived state kept on a workbook between recalculations: the dependency
//! graph with its evaluation order, the spill-anchor rectangles, and the
//! authored-cell index, each held until a mutation could change it and then
//! dropped; plus the pre-image count of the last incremental recalc.
//!
//! An entry is immutable once stored (invalidation replaces it, never edits
//! it), which is what makes sharing it across clones of a workbook sound.
//! Each cache counts how many entries it has stored.

use std::sync::Arc;

use vstd::prelude::*;

use crate::authored_index::AuthoredCellIndex;
use crate::depgraph::{cell_views, CellKey, CellRef, DependencyGraph};
use crate::spill::SpillRect;

verus! {

/// `Arc::clone`: another pointer to the same allocation, so the same value.
#[verifier::external_body]
fn share<T>(a: &Arc<T>) -> (r: Arc<T>)
    ensures
        r == *a,
{
    Arc::clone(a)
}

/// A built dependency graph together with the evaluation order derived from
/// it.
#[derive(Debug)]
pub struct CachedGraph {
    pub(crate) graph: DependencyGraph,
    /// The order that leaves out the cycle set, for this exact graph.
    pub(crate) order: Vec<CellRef>,
    /// The cycle set from the same pass.
    pub(crate) cycle: Vec<CellRef>,
}

impl CachedGraph {
    /// The cached graph.
    pub closed spec fn spec_graph(self) -> DependencyGraph {
        self.graph
    }

    /// The cached evaluation order.
    pub closed spec fn spec_order(self) -> Seq<CellRef> {
        self.order@
    }

    /// The cached cycle set.
    pub closed spec fn spec_cycle(self) -> Seq<CellRef> {
        self.cycle@
    }

    /// Derives the cycle set and the evaluation order of `graph`: the cells
    /// on a cycle, and the topological order of every cell not on or after a
    /// cycle.
    pub fn new(graph: DependencyGraph) -> (c: CachedGraph)
        requires
            graph.wf(),
        ensures
            c.spec_graph() == graph,
            crate::depgraph::strictly_sorted(cell_views(c.spec_cycle())),
            forall|k: CellKey| #[trigger] cell_views(c.spec_cycle()).contains(k) <==> exists|i: int|
                0 <= i < graph.keys().len() && graph.keys()[i] == k && graph.on_cycle_at(i),
            cell_views(c.spec_order()) == graph.cells_at(graph.kahn_positions(graph.cycle_excluded(cell_views(c.spec_cycle())))),
    {
        let cycle = graph.cycle_cells();
        let order = graph.acyclic_order_excluding(&cycle);
        CachedGraph { graph, order, cycle }
    }

    /// The dependency graph this entry caches.
    pub fn graph(&self) -> (g: &DependencyGraph)
        ensures
            *g == self.spec_graph(),
    {
        &self.graph
    }
}

/// The workbook's dependency-graph cache slot.
#[derive(Debug, Clone, Default)]
pub struct GraphCache {
    entry: Option<Arc<CachedGraph>>,
    builds: u64,
}

impl GraphCache {
    /// The cached entry, if any.
    pub closed spec fn spec_entry(self) -> Option<Arc<CachedGraph>> {
        self.entry
    }

    /// A cold cache that has stored nothing.
    pub fn new() -> (c: GraphCache)
        ensures
            c.spec_entry() is None,
            c.spec_builds() == 0,
    {
        GraphCache { entry: None, builds: 0 }
    }

    /// How many entries have been stored.
    pub closed spec fn spec_builds(self) -> u64 {
        self.builds
    }

    /// The cached entry, if warm.
    pub fn get(&self) -> (r: Option<Arc<CachedGraph>>)
        ensures
            r == self.spec_entry(),
    {
        match &self.entry {
            Some(a) => Some(share(a)),
            None => None,
        }
    }

    /// Stores a freshly built entry and counts the build.
    pub fn store(&mut self, entry: Arc<CachedGraph>)
        requires
            old(self).spec_builds() < u64::MAX,
        ensures
            final(self).spec_entry() == Some(entry),
            final(self).spec_builds() == old(self).spec_builds() + 1,
    {
        self.entry = Some(entry);
        self.builds = self.builds + 1;
    }

    /// Drops the entry; the next use rebuilds.
    pub fn invalidate(&mut self)
        ensures
            final(self).spec_entry() is None,
            final(self).spec_builds() == old(self).spec_builds(),
    {
        self.entry = None;
    }

    /// How many entries have been stored.
    pub fn builds(&self) -> (n: u64)
        ensures
            n == self.spec_builds(),
    {
        self.builds
    }

    /// Whether an entry is cached.
    pub fn is_warm(&self) -> (b: bool)
        ensures
            b == self.spec_entry() is Some,
    {
        self.entry.is_some()
    }
}

/// The workbook's spill-anchor cache slot: anchor → rectangle.
#[derive(Debug, Clone, Default)]
pub struct SpillAnchorCache {
    entry: Option<Arc<Vec<(CellRef, SpillRect)>>>,
    builds: u64,
}

impl SpillAnchorCache {
    /// The cached entry, if any.
    pub closed spec fn spec_entry(self) -> Option<Arc<Vec<(CellRef, SpillRect)>>> {
        self.entry
    }

    /// How many entries have been stored.
    pub closed spec fn spec_builds(self) -> u64 {
        self.builds
    }

    /// The cached entry, if warm.
    pub fn get(&self) -> (r: Option<Arc<Vec<(CellRef, SpillRect)>>>)
        ensures
            r == self.spec_entry(),
    {
        match &self.entry {
            Some(a) => Some(share(a)),
            None => None,
        }
    }

    /// Stores a freshly built entry and counts the build.
    pub fn store(&mut self, entry: Arc<Vec<(CellRef, SpillRect)>>)
        requires
            old(self).spec_builds() < u64::MAX,
        ensures
            final(self).spec_entry() == Some(entry),
            final(self).spec_builds() == old(self).spec_builds() + 1,
    {
        self.entry = Some(entry);
        self.builds = self.builds + 1;
    }

    /// Drops the entry; the next use rebuilds.
    pub fn invalidate(&mut self)
        ensures
            final(self).spec_entry() is None,
            final(self).spec_builds() == old(self).spec_builds(),
    {
        self.entry = None;
    }

    /// How many entries have been stored.
    pub fn builds(&self) -> (n: u64)
        ensures
            n == self.spec_builds(),
    {
        self.builds
    }

    /// Whether an entry is cached.
    pub fn is_warm(&self) -> (b: bool)
        ensures
            b == self.spec_entry() is Some,
    {
        self.entry.is_some()
    }
}

/// The workbook's authored-cell-index cache slot.
#[derive(Clone, Default)]
pub struct AuthoredCellIndexCache {
    entry: Option<Arc<AuthoredCellIndex>>,
    builds: u64,
}

impl AuthoredCellIndexCache {
    /// The cached entry, if any.
    pub closed spec fn spec_entry(self) -> Option<Arc<AuthoredCellIndex>> {
        self.entry
    }

    /// How many entries have been stored.
    pub closed spec fn spec_builds(self) -> u64 {
        self.builds
    }

    /// The cached entry, if warm.
    pub fn get(&self) -> (r: Option<Arc<AuthoredCellIndex>>)
        ensures
            r == self.spec_entry(),
    {
        match &self.entry {
            Some(a) => Some(share(a)),
            None => None,
        }
    }

    /// Stores a freshly built entry and counts the build.
    pub fn store(&mut self, entry: Arc<AuthoredCellIndex>)
        requires
            old(self).spec_builds() < u64::MAX,
        ensures
            final(self).spec_entry() == Some(entry),
            final(self).spec_builds() == old(self).spec_builds() + 1,
    {
        self.entry = Some(entry);
        self.builds = self.builds + 1;
    }

    /// Drops the entry; the next use rebuilds.
    pub fn invalidate(&mut self)
        ensures
            final(self).spec_entry() is None,
            final(self).spec_builds() == old(self).spec_builds(),
    {
        self.entry = None;
    }

    /// How many entries have been stored.
    pub fn builds(&self) -> (n: u64)
        ensures
            n == self.spec_builds(),
    {
        self.builds
    }

    /// Whether an entry is cached.
    pub fn is_warm(&self) -> (b: bool)
        ensures
            b == self.spec_entry() is Some,
    {
        self.entry.is_some()
    }
}

/// The workbook's pre-image-count slot: how many cells the last incremental
/// recalc recorded a pre-image for.
#[derive(Debug, Clone, Default)]
pub struct PreImageStats {
    count: u64,
}

impl PreImageStats {
    /// The recorded count.
    pub closed spec fn spec_count(self) -> u64 {
        self.count
    }

    /// Records `count` as the last incremental call's pre-image count.
    pub fn record(&mut self, count: usize)
        ensures
            final(self).spec_count() == count,
    {
        self.count = count as u64;
    }

    /// How many cells the last incremental recalc recorded a pre-image for.
    pub fn count(&self) -> (n: u64)
        ensures
            n == self.spec_count(),
    {
        self.count
    }
}

} // verus!
