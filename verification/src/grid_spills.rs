//! An index of the spill anchors on the stored grid, grouped by folded sheet
//! name, so that resolving a read of an empty cell examines only the sheet's
//! real anchors rather than every cell on it.
//!
//! An anchor that is being recomputed is left out: its stored array is stale
//! until the recompute is applied, so its stored rectangle must never be
//! resolved through.

use vstd::prelude::*;

use crate::address::Address;
use crate::casefold::{folded, simple_fold};
use crate::depgraph::{cell_views, CellKey, CellRef};
use crate::spill::{spill_rect, SpillRect};
use crate::text::str_equal;

verus! {

/// A stored cell as the index reads it: its address, and the shape
/// `(rows, columns)` of its stored value when that value is an array.
#[derive(Debug, Clone, Copy, PartialEq, Eq)]
pub struct StoredCell {
    /// The cell's address.
    pub addr: Address,
    /// The stored array's shape, `None` for any other value.
    pub array: Option<(usize, usize)>,
}

/// A stored sheet: its name as authored, and its cells in stored-grid order.
#[derive(Debug, Clone)]
pub struct StoredSheet {
    /// The sheet's name as authored.
    pub name: String,
    /// The sheet's cells, in stored-grid (canonical key) order.
    pub cells: Vec<StoredCell>,
}

/// Every stored array is non-empty: at least one row and one column.
pub open spec fn arrays_non_empty(sheets: Seq<StoredSheet>) -> bool {
    forall|i: int, j: int|
        0 <= i < sheets.len() && 0 <= j < sheets[i].cells@.len() ==> match #[trigger] sheets[i].cells@[j].array {
            Some((rows, cols)) => rows >= 1 && cols >= 1,
            None => true,
        }
}

/// The in-bounds spill rectangle of a `rows × cols` array at `anchor`.
pub open spec fn spec_spill_rect(anchor: Address, rows: usize, cols: usize) -> Option<SpillRect> {
    if anchor.row + rows - 1 <= crate::limits::MAX_ROW && anchor.column + cols - 1 <= crate::limits::MAX_COLUMN {
        Some(SpillRect { anchor, rows: rows as u32, cols: cols as u32 })
    } else {
        None
    }
}

/// The anchors of one sheet (folded name `sheet`), in stored-grid order: the
/// cells holding an array whose rectangle stays in bounds, except those in
/// `recomputed`.
pub open spec fn sheet_anchors(cells: Seq<StoredCell>, sheet: Seq<char>, recomputed: Seq<CellKey>) -> Seq<
    (Address, SpillRect),
>
    decreases cells.len(),
{
    if cells.len() == 0 {
        Seq::empty()
    } else {
        let prev = sheet_anchors(cells.drop_last(), sheet, recomputed);
        let c = cells.last();
        match c.array {
            None => prev,
            Some((rows, cols)) => match spec_spill_rect(c.addr, rows, cols) {
                None => prev,
                Some(rect) => if recomputed.contains((sheet, c.addr)) {
                    prev
                } else {
                    prev.push((c.addr, rect))
                },
            },
        }
    }
}

/// The anchors indexed under folded sheet name `key`: those of the last
/// sheet with that folded name that has any.
pub open spec fn indexed_anchors(sheets: Seq<StoredSheet>, key: Seq<char>, recomputed: Seq<CellKey>) -> Seq<
    (Address, SpillRect),
>
    decreases sheets.len(),
{
    if sheets.len() == 0 {
        Seq::empty()
    } else {
        let s = sheets.last();
        let a = sheet_anchors(s.cells@, folded(s.name@), recomputed);
        if folded(s.name@) == key && a.len() > 0 {
            a
        } else {
            indexed_anchors(sheets.drop_last(), key, recomputed)
        }
    }
}

/// The stored grid's spill anchors, grouped by folded sheet name.
pub struct GridSpillIndex {
    by_sheet: Vec<(String, Vec<(Address, SpillRect)>)>,
}

/// The anchors of the last entry named `key`.
pub open spec fn entry_anchors(entries: Seq<(String, Vec<(Address, SpillRect)>)>, key: Seq<char>) -> Seq<
    (Address, SpillRect),
>
    decreases entries.len(),
{
    if entries.len() == 0 {
        Seq::empty()
    } else if entries.last().0@ == key {
        entries.last().1@
    } else {
        entry_anchors(entries.drop_last(), key)
    }
}

/// Whether `cells` holds the cell `(sheet, addr)`.
fn holds_cell(cells: &[CellRef], sheet: &str, addr: Address) -> (b: bool)
    ensures
        b == cell_views(cells@).contains((sheet@, addr)),
{
    let mut i: usize = 0;
    while i < cells.len()
        invariant
            i <= cells@.len(),
            forall|j: int| 0 <= j < i ==> cell_views(cells@)[j] != (sheet@, addr),
        decreases cells@.len() - i,
    {
        if cells[i].addr == addr && str_equal(cells[i].sheet.as_str(), sheet) {
            proof {
                assert(cell_views(cells@)[i as int] == (sheet@, addr));
            }
            return true;
        }
        i = i + 1;
    }
    false
}

impl GridSpillIndex {
    /// The anchors indexed under folded sheet name `key`.
    pub closed spec fn anchors_of(self, key: Seq<char>) -> Seq<(Address, SpillRect)> {
        entry_anchors(self.by_sheet@, key)
    }

    /// Every indexed rectangle lies inside the grid and is anchored at its
    /// anchor.
    pub closed spec fn wf(self) -> bool {
        forall|e: int, j: int|
            0 <= e < self.by_sheet@.len() && 0 <= j < self.by_sheet@[e].1@.len() ==> (#[trigger] self.by_sheet@[e].1@[j]).1.wf()
                && self.by_sheet@[e].1@[j].1.anchor == self.by_sheet@[e].1@[j].0
    }

    /// The anchors of one sheet, in stored-grid order.
    fn anchors_on(cells: &Vec<StoredCell>, sheet: &str, recomputed: &[CellRef]) -> (r: Vec<(Address, SpillRect)>)
        requires
            forall|j: int| 0 <= j < cells@.len() ==> (#[trigger] cells@[j]).addr.wf() && match cells@[j].array {
                Some((rows, cols)) => rows >= 1 && cols >= 1,
                None => true,
            },
        ensures
            r@ == sheet_anchors(cells@, sheet@, cell_views(recomputed@)),
    {
        let mut r: Vec<(Address, SpillRect)> = Vec::new();
        let mut i: usize = 0;
        while i < cells.len()
            invariant
                i <= cells@.len(),
                forall|j: int| 0 <= j < cells@.len() ==> (#[trigger] cells@[j]).addr.wf() && match cells@[j].array {
                    Some((rows, cols)) => rows >= 1 && cols >= 1,
                    None => true,
                },
                r@ == sheet_anchors(cells@.take(i as int), sheet@, cell_views(recomputed@)),
            decreases cells@.len() - i,
        {
            let c = cells[i];
            proof {
                assert(cells@.take(i as int + 1).drop_last() =~= cells@.take(i as int));
                assert(cells@.take(i as int + 1).last() == cells@[i as int]);
            }
            if let Some((rows, cols)) = c.array {
                if let Some(rect) = spill_rect(c.addr, rows, cols) {
                    if !holds_cell(recomputed, sheet, c.addr) {
                        r.push((c.addr, rect));
                    }
                }
            }
            i = i + 1;
        }
        proof {
            assert(cells@.take(i as int) =~= cells@);
        }
        r
    }

    /// Indexes every in-bounds spill anchor of the stored sheets, leaving out
    /// the anchors in `recomputed` (their stored arrays are stale).
    pub fn build(sheets: &[StoredSheet], recomputed: &[CellRef]) -> (idx: GridSpillIndex)
        requires
            arrays_non_empty(sheets@),
            forall|i: int, j: int|
                0 <= i < sheets@.len() && 0 <= j < sheets@[i].cells@.len() ==> (#[trigger] sheets@[i].cells@[j]).addr.wf(),
        ensures
            idx.wf(),
            forall|key: Seq<char>| #[trigger]
                idx.anchors_of(key) == indexed_anchors(sheets@, key, cell_views(recomputed@)),
    {
        let ghost rec = cell_views(recomputed@);
        let mut by_sheet: Vec<(String, Vec<(Address, SpillRect)>)> = Vec::new();
        let mut i: usize = 0;
        while i < sheets.len()
            invariant
                i <= sheets@.len(),
                rec == cell_views(recomputed@),
                arrays_non_empty(sheets@),
                forall|i2: int, j: int|
                    0 <= i2 < sheets@.len() && 0 <= j < sheets@[i2].cells@.len() ==> (#[trigger] sheets@[i2].cells@[j]).addr.wf(),
                forall|key: Seq<char>| #[trigger]
                    entry_anchors(by_sheet@, key) == indexed_anchors(sheets@.take(i as int), key, rec),
                forall|e: int, j: int|
                    0 <= e < by_sheet@.len() && 0 <= j < by_sheet@[e].1@.len() ==> (#[trigger] by_sheet@[e].1@[j]).1.wf()
                        && by_sheet@[e].1@[j].1.anchor == by_sheet@[e].1@[j].0,
            decreases sheets@.len() - i,
        {
            let sheet = &sheets[i];
            let f = simple_fold(sheet.name.as_str());
            proof {
                assert forall|j: int| 0 <= j < sheet.cells@.len() implies (#[trigger] sheet.cells@[j]).addr.wf()
                    && match sheet.cells@[j].array {
                    Some((rows, cols)) => rows >= 1 && cols >= 1,
                    None => true,
                } by {
                    assert(sheets@[i as int].cells@[j] == sheet.cells@[j]);
                }
            }
            let anchors = Self::anchors_on(&sheet.cells, f.as_str(), recomputed);
            proof {
                lemma_sheet_anchors_wf(sheet.cells@, f@, rec);
            }
            let ghost before = by_sheet@;
            let nonempty = anchors.len() > 0;
            if nonempty {
                by_sheet.push((f, anchors));
            }
            proof {
                assert(sheets@.take(i as int + 1).drop_last() =~= sheets@.take(i as int));
                assert(sheets@.take(i as int + 1).last() == sheets@[i as int]);
                assert forall|key: Seq<char>| #[trigger]
                    entry_anchors(by_sheet@, key) == indexed_anchors(sheets@.take(i as int + 1), key, rec) by {
                    let s = sheets@[i as int];
                    assert(anchors@ == sheet_anchors(s.cells@, folded(s.name@), rec));
                    assert(entry_anchors(before, key) == indexed_anchors(sheets@.take(i as int), key, rec));
                    if nonempty {
                        assert(by_sheet@.drop_last() =~= before);
                        assert(by_sheet@.last().0@ == folded(s.name@));
                        assert(by_sheet@.last().1@ == anchors@);
                    } else {
                        assert(by_sheet@ == before);
                    }
                }
            }
            i = i + 1;
        }
        proof {
            assert(sheets@.take(i as int) =~= sheets@);
        }
        let idx = GridSpillIndex { by_sheet };
        proof {
            assert forall|e: int, j: int| 0 <= e < idx.by_sheet@.len() && 0 <= j < idx.by_sheet@[e].1@.len() implies (
            #[trigger] idx.by_sheet@[e].1@[j]).1.wf() && idx.by_sheet@[e].1@[j].1.anchor == idx.by_sheet@[e].1@[j].0 by {}
        }
        idx
    }

    /// The anchors on the sheet whose folded name is `sheet_folded`, in
    /// stored-grid order; empty for a sheet without spills or an unknown
    /// sheet.
    pub fn anchors(&self, sheet_folded: &str) -> (r: &[(Address, SpillRect)])
        ensures
            r@ == self.anchors_of(sheet_folded@),
            self.wf() ==> forall|j: int| 0 <= j < r@.len() ==> (#[trigger] r@[j]).1.wf() && r@[j].1.anchor == r@[j].0,
    {
        let mut i: usize = self.by_sheet.len();
        proof {
            assert(self.by_sheet@.take(i as int) =~= self.by_sheet@);
        }
        while i > 0
            invariant
                i <= self.by_sheet@.len(),
                entry_anchors(self.by_sheet@, sheet_folded@) == entry_anchors(self.by_sheet@.take(i as int), sheet_folded@),
            decreases i,
        {
            proof {
                assert(self.by_sheet@.take(i as int).drop_last() =~= self.by_sheet@.take(i as int - 1));
                assert(self.by_sheet@.take(i as int).last() == self.by_sheet@[i as int - 1]);
            }
            if str_equal(self.by_sheet[i - 1].0.as_str(), sheet_folded) {
                proof {
                    if self.wf() {
                        assert forall|j: int| 0 <= j < self.by_sheet@[i as int - 1].1@.len() implies (#[trigger] self.by_sheet@[i
                            as int - 1].1@[j]).1.wf() && self.by_sheet@[i as int - 1].1@[j].1.anchor == self.by_sheet@[i as int
                            - 1].1@[j].0 by {}
                    }
                }
                return self.by_sheet[i - 1].1.as_slice();
            }
            i = i - 1;
        }
        &[]
    }
}

/// One sheet's anchors keyed by their cell: folded sheet name `sheet` and
/// anchor address.
pub open spec fn keyed(sheet: Seq<char>, anchors: Seq<(Address, SpillRect)>) -> Seq<(CellKey, SpillRect)> {
    anchors.map_values(|a: (Address, SpillRect)| ((sheet, a.0), a.1))
}

/// Every in-bounds spill rectangle on the stored grid, keyed by its anchor
/// cell: sheet by sheet, each sheet's in stored-grid order.
pub open spec fn grid_rects(sheets: Seq<StoredSheet>) -> Seq<(CellKey, SpillRect)>
    decreases sheets.len(),
{
    if sheets.len() == 0 {
        Seq::empty()
    } else {
        let s = sheets.last();
        grid_rects(sheets.drop_last()) + keyed(folded(s.name@), sheet_anchors(s.cells@, folded(s.name@), Seq::empty()))
    }
}

/// The keys and rectangles of anchor → rectangle entries.
pub open spec fn rect_views(s: Seq<(CellRef, SpillRect)>) -> Seq<(CellKey, SpillRect)> {
    s.map_values(|e: (CellRef, SpillRect)| (e.0@, e.1))
}

/// Every anchor a sheet indexes has a rectangle inside the grid.
proof fn lemma_sheet_anchors_wf(cells: Seq<StoredCell>, sheet: Seq<char>, recomputed: Seq<CellKey>)
    requires
        forall|j: int| 0 <= j < cells.len() ==> (#[trigger] cells[j]).addr.wf() && match cells[j].array {
            Some((rows, cols)) => rows >= 1 && cols >= 1,
            None => true,
        },
    ensures
        forall|j: int| 0 <= j < sheet_anchors(cells, sheet, recomputed).len() ==> (#[trigger] sheet_anchors(cells, sheet, recomputed)[j]).1.wf()
            && sheet_anchors(cells, sheet, recomputed)[j].1.anchor == sheet_anchors(cells, sheet, recomputed)[j].0,
    decreases cells.len(),
{
    if cells.len() > 0 {
        let c = cells.last();
        assert(c == cells[cells.len() - 1]);
        lemma_sheet_anchors_wf(cells.drop_last(), sheet, recomputed);
        let prev = sheet_anchors(cells.drop_last(), sheet, recomputed);
        let all = sheet_anchors(cells, sheet, recomputed);
        if let Some((rows, cols)) = c.array {
            if let Some(rect) = spec_spill_rect(c.addr, rows, cols) {
                assert(rows as u32 == rows && cols as u32 == cols) by {
                    assert(c.addr.row + rows - 1 <= crate::limits::MAX_ROW);
                    assert(c.addr.column + cols - 1 <= crate::limits::MAX_COLUMN);
                }
                assert(rect.wf());
                assert forall|j: int| 0 <= j < all.len() implies (#[trigger] all[j]).1.wf() && all[j].1.anchor == all[j].0 by {
                    if j < prev.len() {
                        assert(all[j] == prev[j]);
                    }
                }
            }
        }
    }
}

/// Every spill rectangle on the stored grid, keyed by its anchor cell
/// (folded sheet name and address): the rectangles of the stored arrays
/// that stay inside the grid, sheet by sheet in stored order.
pub fn anchor_rectangles(sheets: &[StoredSheet]) -> (r: Vec<(CellRef, SpillRect)>)
    requires
        arrays_non_empty(sheets@),
        forall|i: int, j: int|
            0 <= i < sheets@.len() && 0 <= j < sheets@[i].cells@.len() ==> (#[trigger] sheets@[i].cells@[j]).addr.wf(),
    ensures
        rect_views(r@) == grid_rects(sheets@),
        forall|j: int| 0 <= j < r@.len() ==> (#[trigger] r@[j]).1.wf(),
{
    let mut r: Vec<(CellRef, SpillRect)> = Vec::new();
    let none: Vec<CellRef> = Vec::new();
    proof {
        assert(cell_views(none@) =~= Seq::<CellKey>::empty());
    }
    let mut i: usize = 0;
    while i < sheets.len()
        invariant
            i <= sheets@.len(),
            none@.len() == 0,
            cell_views(none@) == Seq::<CellKey>::empty(),
            arrays_non_empty(sheets@),
            forall|i2: int, j: int|
                0 <= i2 < sheets@.len() && 0 <= j < sheets@[i2].cells@.len() ==> (#[trigger] sheets@[i2].cells@[j]).addr.wf(),
            rect_views(r@) == grid_rects(sheets@.take(i as int)),
            forall|j: int| 0 <= j < r@.len() ==> (#[trigger] r@[j]).1.wf(),
        decreases sheets@.len() - i,
    {
        let sheet = &sheets[i];
        let f = simple_fold(sheet.name.as_str());
        proof {
            assert forall|j: int| 0 <= j < sheet.cells@.len() implies (#[trigger] sheet.cells@[j]).addr.wf()
                && match sheet.cells@[j].array {
                Some((rows, cols)) => rows >= 1 && cols >= 1,
                None => true,
            } by {
                assert(sheets@[i as int].cells@[j] == sheet.cells@[j]);
            }
            lemma_sheet_anchors_wf(sheet.cells@, f@, Seq::empty());
        }
        let anchors = GridSpillIndex::anchors_on(&sheet.cells, f.as_str(), none.as_slice());
        let ghost start = r@;
        let mut t: usize = 0;
        while t < anchors.len()
            invariant
                t <= anchors@.len(),
                anchors@ == sheet_anchors(sheet.cells@, f@, Seq::empty()),
                forall|j: int| 0 <= j < anchors@.len() ==> (#[trigger] anchors@[j]).1.wf(),
                rect_views(r@) == rect_views(start) + keyed(f@, anchors@.take(t as int)),
                forall|j: int| 0 <= j < r@.len() ==> (#[trigger] r@[j]).1.wf(),
            decreases anchors@.len() - t,
        {
            let key = CellRef { sheet: crate::text::string_of(f.as_str()), addr: anchors[t].0 };
            let ghost prev = r@;
            r.push((key, anchors[t].1));
            proof {
                assert(anchors@.take(t as int + 1) =~= anchors@.take(t as int).push(anchors@[t as int]));
                assert(rect_views(r@) =~= rect_views(prev).push((key@, anchors@[t as int].1)));
                assert(keyed(f@, anchors@.take(t as int + 1)) =~= keyed(f@, anchors@.take(t as int)).push(
                    ((f@, anchors@[t as int].0), anchors@[t as int].1),
                ));
                assert(rect_views(r@) =~= rect_views(start) + keyed(f@, anchors@.take(t as int + 1)));
            }
            t = t + 1;
        }
        proof {
            assert(anchors@.take(t as int) =~= anchors@);
            let s = sheets@[i as int];
            assert(sheets@.take(i as int + 1).drop_last() =~= sheets@.take(i as int));
            assert(sheets@.take(i as int + 1).last() == s);
            assert(f@ == folded(s.name@));
        }
        i = i + 1;
    }
    proof {
        assert(sheets@.take(i as int) =~= sheets@);
    }
    r
}

} // verus!
