//! Placing an anchor's array during a recalculation: the array spills into
//! the rectangle below and right of its anchor unless that rectangle leaves
//! the grid or one of its other cells is taken, by an authored cell, by a
//! cell computed in this recalculation, or by an earlier anchor's spill.

use vstd::prelude::*;

use crate::address::Address;
use crate::authored_index::{spec_has_unauthored, AuthoredCellIndex};
use crate::depgraph::{
    cell_views, insert_sorted, prec_views, strictly_sorted, CellKey, CellRef, DependencyGraph, Precedent, PrecedentView,
    RangeRef,
};
use crate::recalc_util::{rect_overlaps_range, spec_rect_overlaps_range};
use crate::grid_spills::spec_spill_rect;
use crate::spill::{spill_rect, SpillRect};
use crate::text::str_equal;

verus! {

/// The placed spills' rectangles, in order.
pub open spec fn placed_rects(placed: Seq<(CellRef, SpillRect)>) -> Seq<SpillRect> {
    Seq::new(placed.len(), |j: int| placed[j].1)
}

/// Cell `a` of a rectangle anchored at `anchor` is taken: it is in
/// `occupied` (on the anchor's sheet), or it lies in the rectangle of an
/// earlier spill with another anchor address.
pub open spec fn taken(anchor: CellKey, a: Address, occupied: Seq<CellKey>, placed: Seq<SpillRect>) -> bool {
    ||| occupied.contains((anchor.0, a))
    ||| exists|j: int| 0 <= j < placed.len() && placed[j].anchor != anchor.1 && #[trigger] placed[j].spec_contains(a)
}

/// The spill `rect` of `anchor` is blocked: one of its cells other than the
/// anchor is taken.
pub open spec fn spec_spill_blocked(anchor: CellKey, rect: SpillRect, occupied: Seq<CellKey>, placed: Seq<SpillRect>) -> bool {
    exists|a: Address| rect.spec_contains(a) && a != rect.anchor && #[trigger] taken(anchor, a, occupied, placed)
}

/// Whether `cells` holds the cell `(sheet, addr)`.
fn holds(cells: &[CellRef], sheet: &str, addr: Address) -> (b: bool)
    ensures
        b == cell_views(cells@).contains((sheet@, addr)),
{
    let mut i: usize = 0;
    while i < cells.len()
        invariant
            i <= cells@.len(),
            forall|j: int| 0 <= j < i ==> cell_views(cells@)[j] != (sheet@, addr),
        decreases cells@.len() - i,
    {
        if cells[i].addr == addr && str_equal(cells[i].sheet.as_str(), sheet) {
            proof {
                assert(cell_views(cells@)[i as int] == (sheet@, addr));
            }
            return true;
        }
        i = i + 1;
    }
    false
}

/// Every placed rectangle lies inside the grid.
pub open spec fn placed_wf(placed: Seq<(CellRef, SpillRect)>) -> bool {
    forall|j: int| 0 <= j < placed.len() ==> (#[trigger] placed[j]).1.wf()
}

/// Whether cell `addr` of the rectangle anchored at `cell` is taken.
fn is_taken(cell: &CellRef, addr: Address, occupied: &[CellRef], placed: &[(CellRef, SpillRect)]) -> (b: bool)
    requires
        placed_wf(placed@),
    ensures
        b == taken(cell@, addr, cell_views(occupied@), placed_rects(placed@)),
{
    if holds(occupied, cell.sheet.as_str(), addr) {
        return true;
    }
    let mut j: usize = 0;
    while j < placed.len()
        invariant
            j <= placed@.len(),
            placed_wf(placed@),
            !cell_views(occupied@).contains((cell.sheet@, addr)),
            forall|j2: int|
                0 <= j2 < j ==> !(placed_rects(placed@)[j2].anchor != cell.addr && #[trigger] placed_rects(
                    placed@,
                )[j2].spec_contains(addr)),
        decreases placed@.len() - j,
    {
        let r = placed[j].1;
        if r.anchor != cell.addr && r.contains(addr) {
            proof {
                assert(placed_rects(placed@)[j as int] == r);
            }
            return true;
        }
        proof {
            assert(placed_rects(placed@)[j as int] == r);
        }
        j = j + 1;
    }
    false
}

/// Whether the spill `rect` anchored at `cell` is blocked: a cell of the
/// rectangle other than the anchor is in `occupied` (authored, or computed
/// in this recalculation) or in an earlier placed spill.
pub fn spill_blocked(cell: &CellRef, rect: &SpillRect, occupied: &[CellRef], placed: &[(CellRef, SpillRect)]) -> (b: bool)
    requires
        rect.wf(),
        placed_wf(placed@),
    ensures
        b == spec_spill_blocked(cell@, *rect, cell_views(occupied@), placed_rects(placed@)),
{
    let cells = rect.spilled_cells();
    assert forall|a: Address| #[trigger] cells@.contains(a) <==> (rect.spec_contains(a) && a != rect.anchor) by {
        if cells@.contains(a) {
            assert(rect.spec_contains(a));
        }
    }
    let ghost occ = cell_views(occupied@);
    let ghost pl = placed_rects(placed@);
    let mut i: usize = 0;
    while i < cells.len()
        invariant
            i <= cells@.len(),
            occ == cell_views(occupied@),
            pl == placed_rects(placed@),
            placed_wf(placed@),
            forall|a: Address| #[trigger] cells@.contains(a) <==> (rect.spec_contains(a) && a != rect.anchor),
            forall|k: int| 0 <= k < i ==> !#[trigger] taken(cell@, cells@[k], occ, pl),
        decreases cells@.len() - i,
    {
        if is_taken(cell, cells[i], occupied, placed) {
            proof {
                assert(cells@.contains(cells@[i as int]));
                assert(taken(cell@, cells@[i as int], occ, pl));
            }
            return true;
        }
        i = i + 1;
    }
    proof {
        assert forall|a: Address| rect.spec_contains(a) && a != rect.anchor implies !#[trigger] taken(cell@, a, occ, pl) by {
            assert(cells@.contains(a));
            let k = choose|k: int| 0 <= k < cells@.len() && cells@[k] == a;
        }
    }
    false
}

/// What placing an anchor's result did.
#[derive(Debug, Clone, Copy, PartialEq, Eq, Structural)]
pub enum SpillPlacement {
    /// The result is a scalar: nothing to place.
    Scalar,
    /// The array cannot spill: its rectangle leaves the grid or is blocked.
    /// The anchor takes the blocked-spill error.
    Blocked,
    /// The array spills into this rectangle.
    Placed(SpillRect),
}

/// The outcome of placing a result of shape `shape` (rows, columns of an
/// array; `None` for a scalar) at `cell`.
pub open spec fn placement(cell: CellKey, shape: Option<(usize, usize)>, occupied: Seq<CellKey>, placed: Seq<SpillRect>) -> SpillPlacement {
    match shape {
        None => SpillPlacement::Scalar,
        Some((rows, cols)) => match spec_spill_rect(cell.1, rows, cols) {
            None => SpillPlacement::Blocked,
            Some(rect) => if spec_spill_blocked(cell, rect, occupied, placed) {
                SpillPlacement::Blocked
            } else {
                SpillPlacement::Placed(rect)
            },
        },
    }
}

/// The placed spills after `cell`'s spill `rect` is recorded: its entry
/// replaced when `cell` already has one, else added at the end.
pub open spec fn record_spill(placed: Seq<(CellRef, SpillRect)>, cell: CellRef, rect: SpillRect) -> Seq<(CellRef, SpillRect)> {
    if exists|j: int| 0 <= j < placed.len() && placed[j].0@ == cell@ {
        let j = choose|j: int| 0 <= j < placed.len() && placed[j].0@ == cell@;
        placed.update(j, (placed[j].0, rect))
    } else {
        placed.push((cell, rect))
    }
}

/// Places the result of anchor `cell`, of shape `shape` (`None` for a
/// scalar; an array is at least one row by one column): a scalar is left
/// alone; an array whose rectangle leaves the grid or is blocked is refused;
/// otherwise its rectangle is recorded in `placed`, replacing an earlier
/// entry for the same cell.
pub fn place_spill(
    cell: &CellRef,
    shape: Option<(usize, usize)>,
    occupied: &[CellRef],
    placed: &mut Vec<(CellRef, SpillRect)>,
) -> (r: SpillPlacement)
    requires
        cell.addr.wf(),
        shape matches Some((rows, cols)) ==> rows >= 1 && cols >= 1,
        placed_wf(old(placed)@),
        forall|i: int, j: int| 0 <= i < j < old(placed)@.len() ==> old(placed)@[i].0@ != old(placed)@[j].0@,
    ensures
        placed_wf(final(placed)@),
        r == placement(cell@, shape, cell_views(occupied@), placed_rects(old(placed)@)),
        match r {
            SpillPlacement::Placed(rect) => placed_rects(final(placed)@) == placed_rects(record_spill(old(placed)@, *cell, rect))
                && cell_views(Seq::new(final(placed)@.len(), |j: int| final(placed)@[j].0)) == cell_views(
                Seq::new(record_spill(old(placed)@, *cell, rect).len(), |j: int| record_spill(old(placed)@, *cell, rect)[j].0),
            ),
            _ => final(placed)@ == old(placed)@,
        },
{
    let (rows, cols) = match shape {
        None => {
            return SpillPlacement::Scalar;
        },
        Some(s) => s,
    };
    let rect = match spill_rect(cell.addr, rows, cols) {
        None => {
            return SpillPlacement::Blocked;
        },
        Some(r) => r,
    };
    if spill_blocked(cell, &rect, occupied, placed.as_slice()) {
        return SpillPlacement::Blocked;
    }
    let ghost before = placed@;
    let mut j: usize = 0;
    while j < placed.len()
        invariant
            j <= placed@.len(),
            placed@ == before,
            before == old(placed)@,
            placed_wf(before),
            rect.wf(),
            shape == Some((rows, cols)),
            spec_spill_rect(cell.addr, rows, cols) == Some(rect),
            !spec_spill_blocked(cell@, rect, cell_views(occupied@), placed_rects(before)),
            forall|i: int, i2: int| 0 <= i < i2 < before.len() ==> before[i].0@ != before[i2].0@,
            forall|k: int| 0 <= k < j ==> before[k].0@ != cell@,
        decreases placed@.len() - j,
    {
        if placed[j].0.addr == cell.addr && str_equal(placed[j].0.sheet.as_str(), cell.sheet.as_str()) {
            let key = crate::depgraph::copy_cell(&placed[j].0);
            placed.set(j, (key, rect));
            proof {
                assert(before[j as int].0@ == cell@);
                let c = choose|c: int| 0 <= c < before.len() && before[c].0@ == cell@;
                if c < j as int {
                    assert(before[c].0@ != cell@);
                } else if c > j as int {
                    assert(before[j as int].0@ != before[c].0@);
                }
                assert(c == j as int);
                assert(placed_rects(placed@) =~= placed_rects(record_spill(before, *cell, rect)));
                assert(cell_views(Seq::new(placed@.len(), |t: int| placed@[t].0)) =~= cell_views(
                    Seq::new(record_spill(before, *cell, rect).len(), |t: int| record_spill(before, *cell, rect)[t].0),
                ));
            }
            return SpillPlacement::Placed(rect);
        }
        j = j + 1;
    }
    let key = crate::depgraph::copy_cell(cell);
    placed.push((key, rect));
    proof {
        assert(placed_rects(placed@) =~= placed_rects(record_spill(before, *cell, rect)));
        assert(cell_views(Seq::new(placed@.len(), |t: int| placed@[t].0)) =~= cell_views(
            Seq::new(record_spill(before, *cell, rect).len(), |t: int| record_spill(before, *cell, rect)[t].0),
        ));
    }
    SpillPlacement::Placed(rect)
}


/// A precedent whose value a spill could change: an unauthored cell (empty
/// or spilled today, either may flip), a range that overlaps a current
/// spill rectangle on its sheet or holds an unauthored cell, and any named
/// range (treated conservatively). An unresolved reference never is.
pub open spec fn spec_spill_sensitive(p: PrecedentView, rects: Seq<(CellRef, SpillRect)>, authored: AuthoredCellIndex) -> bool {
    match p {
        PrecedentView::Cell(c) => spec_has_unauthored(authored, (c.0, c.1, c.1)),
        PrecedentView::Range(r) => (exists|j: int|
            0 <= j < rects.len() && rects[j].0.sheet@ == r.0 && #[trigger] spec_rect_overlaps_range(rects[j].1, r))
            || spec_has_unauthored(authored, r),
        PrecedentView::Name(_) => true,
        PrecedentView::Unresolved(_) => false,
    }
}

/// Whether precedent `p` is spill-sensitive, given the current spill
/// rectangles `rects` and the authored cells.
pub fn precedent_is_spill_sensitive(p: &Precedent, rects: &[(CellRef, SpillRect)], authored: &AuthoredCellIndex) -> (b: bool)
    requires
        authored.wf(),
        placed_wf(rects@),
    ensures
        b == spec_spill_sensitive(p@, rects@, *authored),
{
    match p {
        Precedent::Cell(c) => {
            let r = RangeRef { sheet: crate::text::string_of(c.sheet.as_str()), start: c.addr, end: c.addr };
            authored.range_has_unauthored_cell(&r)
        },
        Precedent::Range(r) => {
            let mut j: usize = 0;
            while j < rects.len()
                invariant
                    j <= rects@.len(),
                    placed_wf(rects@),
                    p@ == PrecedentView::Range(r@),
                    forall|j2: int|
                        0 <= j2 < j ==> !(rects@[j2].0.sheet@ == r@.0 && #[trigger] spec_rect_overlaps_range(rects@[j2].1, r@)),
                decreases rects@.len() - j,
            {
                if str_equal(rects[j].0.sheet.as_str(), r.sheet.as_str()) && rect_overlaps_range(&rects[j].1, r) {
                    proof {
                        assert(rects@[j as int].0.sheet@ == r@.0 && spec_rect_overlaps_range(rects@[j as int].1, r@));
                    }
                    return true;
                }
                j = j + 1;
            }
            authored.range_has_unauthored_cell(r)
        },
        Precedent::Name(_) => true,
        Precedent::Unresolved(_) => false,
    }
}

/// Whether formula cell `c` must be recomputed because a spill could change
/// what it holds or reads: it is a spill cell itself (its stored value is
/// an array or the blocked-spill error), or one of its precedents is
/// spill-sensitive.
pub open spec fn spill_seeded(
    graph: DependencyGraph,
    spill_cells: Seq<CellKey>,
    rects: Seq<(CellRef, SpillRect)>,
    authored: AuthoredCellIndex,
    c: CellKey,
) -> bool {
    match graph.lookup(c) {
        Some(ps) => spill_cells.contains(c) || exists|q: int| 0 <= q < ps.len() && #[trigger] spec_spill_sensitive(ps[q], rects, authored),
        None => false,
    }
}

/// Whether any of `ps` is spill-sensitive.
fn any_spill_sensitive(ps: &[Precedent], rects: &[(CellRef, SpillRect)], authored: &AuthoredCellIndex) -> (b: bool)
    requires
        authored.wf(),
        placed_wf(rects@),
    ensures
        b == exists|q: int| 0 <= q < ps@.len() && #[trigger] spec_spill_sensitive(prec_views(ps@)[q], rects@, *authored),
{
    let mut q: usize = 0;
    while q < ps.len()
        invariant
            q <= ps@.len(),
            authored.wf(),
            placed_wf(rects@),
            forall|q2: int| 0 <= q2 < q ==> !#[trigger] spec_spill_sensitive(prec_views(ps@)[q2], rects@, *authored),
        decreases ps@.len() - q,
    {
        if precedent_is_spill_sensitive(&ps[q], rects, authored) {
            proof {
                assert(prec_views(ps@)[q as int] == ps@[q as int]@);
            }
            return true;
        }
        proof {
            assert(prec_views(ps@)[q as int] == ps@[q as int]@);
        }
        q = q + 1;
    }
    false
}

/// Adds to `dirty` every formula cell a spill could change (see
/// [`spill_seeded`]): the anchors of arrays and of blocked spills, the
/// readers of an unauthored cell, and the readers of a range that overlaps
/// a current spill rectangle or holds an unauthored cell. `spill_cells`
/// lists the cells whose stored value is an array or the blocked-spill
/// error; `rects` the current spill rectangles.
pub fn seed_spill_sensitive(
    graph: &DependencyGraph,
    spill_cells: &[CellRef],
    rects: &[(CellRef, SpillRect)],
    authored: &AuthoredCellIndex,
    dirty: &mut Vec<CellRef>,
)
    requires
        graph.wf(),
        authored.wf(),
        placed_wf(rects@),
        strictly_sorted(cell_views(old(dirty)@)),
    ensures
        strictly_sorted(cell_views(final(dirty)@)),
        forall|k: CellKey| #[trigger] cell_views(final(dirty)@).contains(k) <==> (cell_views(old(dirty)@).contains(k)
            || spill_seeded(*graph, cell_views(spill_cells@), rects@, *authored, k)),
{
    let ghost start = cell_views(dirty@);
    let cells = graph.formula_cells();
    let mut i: usize = 0;
    while i < cells.len()
        invariant
            i <= cells@.len(),
            graph.wf(),
            authored.wf(),
            placed_wf(rects@),
            cell_views(cells@) == graph.keys(),
            strictly_sorted(cell_views(dirty@)),
            forall|k: CellKey| #[trigger] cell_views(dirty@).contains(k) <==> (start.contains(k) || (cell_views(cells@).take(
                i as int,
            ).contains(k) && spill_seeded(*graph, cell_views(spill_cells@), rects@, *authored, k))),
        decreases cells@.len() - i,
    {
        let c = &cells[i];
        let ghost cv = c@;
        proof {
            assert(cell_views(cells@)[i as int] == cv);
            assert(graph.keys().contains(cv));
            graph.lemma_lookup_iff_key(cv);
        }
        let mut seed = holds(spill_cells, c.sheet.as_str(), c.addr);
        proof {
            assert(cv == (c.sheet@, c.addr));
        }
        if !seed {
            match graph.precedents_of(c) {
                Some(ps) => {
                    seed = any_spill_sensitive(ps, rects, authored);
                    proof {
                        assert(graph.lookup(cv) == Some(prec_views(ps@)));
                    }
                },
                None => {},
            }
        }
        proof {
            assert(graph.lookup(cv) is Some);
            let ps = graph.lookup(cv)->0;
            if cell_views(spill_cells@).contains(cv) {
                assert(seed);
            } else {
                assert(seed == exists|q: int| 0 <= q < ps.len() && #[trigger] spec_spill_sensitive(ps[q], rects@, *authored));
            }
            assert(seed == spill_seeded(*graph, cell_views(spill_cells@), rects@, *authored, cv));
        }
        let ghost prev = cell_views(dirty@);
        if seed {
            insert_sorted(dirty, crate::depgraph::copy_cell(c));
        }
        proof {
            assert(cell_views(cells@).take(i as int + 1) =~= cell_views(cells@).take(i as int).push(cv));
            assert forall|k: CellKey| #[trigger] cell_views(dirty@).contains(k) <==> (start.contains(k) || (cell_views(
                cells@,
            ).take(i as int + 1).contains(k) && spill_seeded(*graph, cell_views(spill_cells@), rects@, *authored, k))) by {
                if cell_views(cells@).take(i as int + 1).contains(k) && k != cv {
                    let t = choose|t: int| 0 <= t < i + 1 && #[trigger] cell_views(cells@).take(i as int + 1)[t] == k;
                    assert(cell_views(cells@).take(i as int)[t] == k);
                }
                if cell_views(cells@).take(i as int).contains(k) {
                    let t = choose|t: int| 0 <= t < i && #[trigger] cell_views(cells@).take(i as int)[t] == k;
                    assert(cell_views(cells@).take(i as int + 1)[t] == k);
                }
                if k == cv {
                    assert(cell_views(cells@).take(i as int + 1)[i as int] == k);
                }
            }
        }
        i = i + 1;
    }
    proof {
        assert(cell_views(cells@).take(i as int) =~= graph.keys());
        assert forall|k: CellKey| #[trigger] cell_views(dirty@).contains(k) <==> (start.contains(k) || spill_seeded(
            *graph,
            cell_views(spill_cells@),
            rects@,
            *authored,
            k,
        )) by {
            graph.lemma_lookup_iff_key(k);
        }
    }
}

} // verus!
