//! How a read of one cell resolves while a recalculation is in progress. A
//! cell on a dependency cycle reads as the reference error; otherwise the
//! first of these that has a value wins: this pass's result for the cell,
//! the stored authored cell, the element a spill placed this pass puts
//! there, the element a spill of the previous pass puts there, the previous
//! pass's result for the cell, and the element a spill still on the stored
//! grid puts there. A cell none of them reaches is empty.

use vstd::prelude::*;

use crate::address::Address;
use crate::casefold::{folded, simple_fold};
use crate::cell::Cell;
use crate::depgraph::{CellKey, CellRef};
use crate::document::first_fold_match;
use crate::grid_spills::GridSpillIndex;
use crate::registry::lemma_first_fold_match;
use crate::spill::SpillRect;
use crate::spill_place::placed_wf;
use crate::text::{str_equal, string_of};
use crate::value::CellValue;
use crate::depgraph::{NameTarget, TargetView};
use crate::registry::entry_names;
use crate::resolve::{
    opt_string, opt_text, resolve_name_ref, spec_cells_at, spec_name_target, spec_table_target, table_cells_at,
    table_target, FormulaRef, TableCells, TableCellsView, WorkbookFacts,
};
use crate::casefold::fold_chars;
use crate::text::{chars_equal, chars_of};
use crate::workbook::Workbook;
use crate::worksheet::Worksheet;

verus! {

/// What a recalculation pass has computed so far.
pub struct PassState {
    /// This pass's results, by formula cell.
    pub new_values: Vec<(CellRef, CellValue)>,
    /// The spills placed this pass: anchor and rectangle.
    pub spills: Vec<(CellRef, SpillRect)>,
    /// The previous pass's results.
    pub prev_values: Vec<(CellRef, CellValue)>,
    /// The previous pass's spills.
    pub prev_spills: Vec<(CellRef, SpillRect)>,
    /// The cells on a dependency cycle.
    pub cycle: Vec<CellRef>,
}

/// What a read of one cell gives.
#[derive(Debug, PartialEq)]
pub enum Read<'a> {
    /// The reference error `#REF!`: a cell on a dependency cycle, or an
    /// address outside the grid.
    RefError,
    /// A value.
    Value(&'a CellValue),
    /// Nothing: an empty cell.
    Empty,
}

/// [`Read`] as a value.
pub enum ReadView {
    RefError,
    Value(CellValue),
    Empty,
}

impl View for Read<'_> {
    type V = ReadView;

    open spec fn view(&self) -> ReadView {
        match self {
            Read::RefError => ReadView::RefError,
            Read::Value(v) => ReadView::Value(**v),
            Read::Empty => ReadView::Empty,
        }
    }
}

/// The value the first entry keyed `k` holds.
pub open spec fn value_for(values: Seq<(CellRef, CellValue)>, k: CellKey) -> Option<CellValue>
    decreases values.len(),
{
    if values.len() == 0 {
        None
    } else if values[0].0@ == k {
        Some(values[0].1)
    } else {
        value_for(values.drop_first(), k)
    }
}

/// The element at row `i`, column `j` of an array value, if there is one.
pub open spec fn element(v: CellValue, i: int, j: int) -> Option<CellValue> {
    match v {
        CellValue::Array(rows) => if 0 <= i < rows@.len() && 0 <= j < rows@[i]@.len() {
            Some(rows@[i]@[j])
        } else {
            None
        },
        _ => None,
    }
}

/// The spill among `spills` that puts a value on `(sheet, addr)`: the first
/// one on that sheet, anchored elsewhere, whose rectangle covers `addr` and
/// whose anchor holds an array in `values`; with the element it puts there
/// (`None` when the array has no element at that offset).
pub open spec fn spill_hit(
    spills: Seq<(CellRef, SpillRect)>,
    values: Seq<(CellRef, CellValue)>,
    sheet: Seq<char>,
    addr: Address,
) -> Option<Option<CellValue>>
    decreases spills.len(),
{
    if spills.len() == 0 {
        None
    } else {
        let (a, r) = spills[0];
        if a.sheet@ == sheet && a.addr != addr && r.spec_contains(addr) && value_for(values, a@) matches Some(
            CellValue::Array(_),
        ) {
            Some(element(value_for(values, a@)->0, addr.row - r.anchor.row, addr.column - r.anchor.column))
        } else {
            spill_hit(spills.drop_first(), values, sheet, addr)
        }
    }
}

/// The anchor among `anchors` (of sheet `ws`) whose stored array puts a
/// value on `addr`: the first anchored elsewhere whose rectangle covers
/// `addr` and that holds an array; with the element it puts there.
pub open spec fn grid_hit(anchors: Seq<(Address, SpillRect)>, ws: Worksheet, addr: Address) -> Option<Option<CellValue>>
    decreases anchors.len(),
{
    if anchors.len() == 0 {
        None
    } else {
        let (a, r) = anchors[0];
        if a != addr && r.spec_contains(addr) && ws@.contains_key(a) && ws@[a].spec_value() is Array {
            Some(element(ws@[a].spec_value(), addr.row - r.anchor.row, addr.column - r.anchor.column))
        } else {
            grid_hit(anchors.drop_first(), ws, addr)
        }
    }
}

/// The value the stored grid spills onto `addr` of the sheet whose folded
/// name is `sheet`, through the anchors `grid` indexes for it.
pub open spec fn grid_spilled(wb: Workbook, grid: GridSpillIndex, sheet: Seq<char>, addr: Address) -> Option<CellValue> {
    let i = first_fold_match(wb.sheet_names(), sheet);
    if grid.anchors_of(sheet).len() == 0 || i < 0 {
        None
    } else {
        match grid_hit(grid.anchors_of(sheet), wb.spec_sheets()[i], addr) {
            Some(e) => e,
            None => None,
        }
    }
}

/// The flattened result of a spill lookup.
pub open spec fn hit_value(h: Option<Option<CellValue>>) -> Option<CellValue> {
    match h {
        Some(e) => e,
        None => None,
    }
}

impl PassState {
    /// The cycle's cells.
    pub open spec fn cycle_keys(self) -> Seq<CellKey> {
        crate::depgraph::cell_views(self.cycle@)
    }

    /// What a read of `(sheet, addr)` gives (`sheet` folded); see the
    /// module documentation for the order.
    pub open spec fn spec_read(self, wb: Workbook, grid: GridSpillIndex, sheet: Seq<char>, addr: Address) -> ReadView {
        let k = (sheet, addr);
        let i = first_fold_match(wb.sheet_names(), sheet);
        if self.cycle_keys().contains(k) {
            ReadView::RefError
        } else if value_for(self.new_values@, k) is Some {
            ReadView::Value(value_for(self.new_values@, k)->0)
        } else if i >= 0 && wb.spec_sheets()[i]@.contains_key(addr) {
            ReadView::Value(wb.spec_sheets()[i]@[addr].spec_value())
        } else if hit_value(spill_hit(self.spills@, self.new_values@, sheet, addr)) is Some {
            ReadView::Value(hit_value(spill_hit(self.spills@, self.new_values@, sheet, addr))->0)
        } else if hit_value(spill_hit(self.prev_spills@, self.prev_values@, sheet, addr)) is Some {
            ReadView::Value(hit_value(spill_hit(self.prev_spills@, self.prev_values@, sheet, addr))->0)
        } else if value_for(self.prev_values@, k) is Some {
            ReadView::Value(value_for(self.prev_values@, k)->0)
        } else if grid_spilled(wb, grid, sheet, addr) is Some {
            ReadView::Value(grid_spilled(wb, grid, sheet, addr)->0)
        } else {
            ReadView::Empty
        }
    }

    /// The rectangles of this pass's and the previous pass's spills lie
    /// inside the grid.
    pub open spec fn wf(self) -> bool {
        placed_wf(self.spills@) && placed_wf(self.prev_spills@)
    }

    /// Resolves a read of `addr` on the sheet whose folded name is `sheet`.
    pub fn cell_value<'a>(&'a self, wb: &'a Workbook, grid: &GridSpillIndex, sheet: &str, addr: Address) -> (r: Read<'a>)
        requires
            self.wf(),
            wb.wf(),
            grid.wf(),
            addr.wf(),
        ensures
            r@ == self.spec_read(*wb, *grid, sheet@, addr),
    {
        if holds(&self.cycle, sheet, addr) {
            return Read::RefError;
        }
        match value_in(&self.new_values, sheet, addr) {
            Some(v) => {
                return Read::Value(v);
            },
            None => {},
        }
        match wb.sheet_index_folded(sheet) {
            Some(i) => {
                proof {
                    lemma_first_fold_match(wb.sheet_names(), sheet@);
                }
                match wb.sheets()[i].get(addr) {
                    Some(c) => {
                        return Read::Value(c.value());
                    },
                    None => {},
                }
            },
            None => {},
        }
        match spilled_value(&self.spills, &self.new_values, sheet, addr) {
            Some(v) => {
                return Read::Value(v);
            },
            None => {},
        }
        match spilled_value(&self.prev_spills, &self.prev_values, sheet, addr) {
            Some(v) => {
                return Read::Value(v);
            },
            None => {},
        }
        match value_in(&self.prev_values, sheet, addr) {
            Some(v) => {
                return Read::Value(v);
            },
            None => {},
        }
        match grid_spilled_value(wb, grid, sheet, addr) {
            Some(v) => Read::Value(v),
            None => Read::Empty,
        }
    }
}

/// Whether `cells` holds `(sheet, addr)`.
fn holds(cells: &Vec<CellRef>, sheet: &str, addr: Address) -> (b: bool)
    ensures
        b == crate::depgraph::cell_views(cells@).contains((sheet@, addr)),
{
    let mut i: usize = 0;
    while i < cells.len()
        invariant
            i <= cells@.len(),
            forall|j: int| 0 <= j < i ==> crate::depgraph::cell_views(cells@)[j] != (sheet@, addr),
        decreases cells@.len() - i,
    {
        if cells[i].addr == addr && str_equal(cells[i].sheet.as_str(), sheet) {
            proof {
                assert(crate::depgraph::cell_views(cells@)[i as int] == (sheet@, addr));
            }
            return true;
        }
        i = i + 1;
    }
    false
}

/// The value the first entry keyed `(sheet, addr)` holds.
pub fn value_in<'a>(values: &'a Vec<(CellRef, CellValue)>, sheet: &str, addr: Address) -> (r: Option<&'a CellValue>)
    ensures
        match r {
            Some(v) => value_for(values@, (sheet@, addr)) == Some(*v),
            None => value_for(values@, (sheet@, addr)) is None,
        },
{
    let ghost k = (sheet@, addr);
    let mut i: usize = 0;
    proof {
        assert(values@.skip(0) =~= values@);
    }
    while i < values.len()
        invariant
            i <= values@.len(),
            k == (sheet@, addr),
            value_for(values@, k) == value_for(values@.skip(i as int), k),
        decreases values@.len() - i,
    {
        proof {
            assert(values@.skip(i as int)[0] == values@[i as int]);
            assert(values@.skip(i as int).drop_first() =~= values@.skip(i as int + 1));
        }
        if values[i].0.addr == addr && str_equal(values[i].0.sheet.as_str(), sheet) {
            return Some(&values[i].1);
        }
        i = i + 1;
    }
    None
}

/// The element at `(i, j)` of an array value, if there is one.
fn element_at(v: &CellValue, i: usize, j: usize) -> (r: Option<&CellValue>)
    ensures
        match r {
            Some(e) => element(*v, i as int, j as int) == Some(*e),
            None => element(*v, i as int, j as int) is None,
        },
{
    match v {
        CellValue::Array(rows) => {
            if i < rows.len() && j < rows[i].len() {
                Some(&rows[i][j])
            } else {
                None
            }
        },
        _ => None,
    }
}

/// The value a spill among `spills`, backed by the anchor values `values`,
/// puts on `addr` of the sheet whose folded name is `sheet` (see
/// [`spill_hit`]).
pub fn spilled_value<'a>(
    spills: &Vec<(CellRef, SpillRect)>,
    values: &'a Vec<(CellRef, CellValue)>,
    sheet: &str,
    addr: Address,
) -> (r: Option<&'a CellValue>)
    requires
        placed_wf(spills@),
    ensures
        match r {
            Some(v) => hit_value(spill_hit(spills@, values@, sheet@, addr)) == Some(*v),
            None => hit_value(spill_hit(spills@, values@, sheet@, addr)) is None,
        },
{
    let mut i: usize = 0;
    proof {
        assert(spills@.skip(0) =~= spills@);
    }
    while i < spills.len()
        invariant
            i <= spills@.len(),
            placed_wf(spills@),
            spill_hit(spills@, values@, sheet@, addr) == spill_hit(spills@.skip(i as int), values@, sheet@, addr),
        decreases spills@.len() - i,
    {
        proof {
            assert(spills@.skip(i as int)[0] == spills@[i as int]);
            assert(spills@.skip(i as int).drop_first() =~= spills@.skip(i as int + 1));
        }
        let anchor = &spills[i].0;
        let rect = &spills[i].1;
        if str_equal(anchor.sheet.as_str(), sheet) && anchor.addr != addr {
            match rect.offset_of(addr) {
                Some((oi, oj)) => {
                    match value_in(values, anchor.sheet.as_str(), anchor.addr) {
                        Some(v) => {
                            if let CellValue::Array(_) = v {
                                return element_at(v, oi, oj);
                            }
                        },
                        None => {},
                    }
                },
                None => {},
            }
        }
        i = i + 1;
    }
    None
}

/// The value the stored grid spills onto `addr` of the sheet whose folded
/// name is `sheet`, through the anchors `grid` indexes for that sheet (see
/// [`grid_hit`]).
pub fn grid_spilled_value<'a>(wb: &'a Workbook, grid: &GridSpillIndex, sheet: &str, addr: Address) -> (r: Option<&'a CellValue>)
    requires
        wb.wf(),
        grid.wf(),
        addr.wf(),
    ensures
        match r {
            Some(v) => grid_spilled(*wb, *grid, sheet@, addr) == Some(*v),
            None => grid_spilled(*wb, *grid, sheet@, addr) is None,
        },
{
    let anchors = grid.anchors(sheet);
    if anchors.len() == 0 {
        return None;
    }
    let si = match wb.sheet_index_folded(sheet) {
        Some(si) => si,
        None => return None,
    };
    proof {
        lemma_first_fold_match(wb.sheet_names(), sheet@);
    }
    let ws = &wb.sheets()[si];
    let mut i: usize = 0;
    proof {
        assert(anchors@.skip(0) =~= anchors@);
    }
    while i < anchors.len()
        invariant
            i <= anchors@.len(),
            ws.wf(),
            anchors@ == grid.anchors_of(sheet@),
            anchors@.len() > 0,
            0 <= si < wb.spec_sheets().len(),
            first_fold_match(wb.sheet_names(), sheet@) == si as int,
            *ws == wb.spec_sheets()[si as int],
            forall|j: int| 0 <= j < anchors@.len() ==> (#[trigger] anchors@[j]).1.wf() && anchors@[j].1.anchor == anchors@[j].0,
            grid_hit(anchors@, *ws, addr) == grid_hit(anchors@.skip(i as int), *ws, addr),
        decreases anchors@.len() - i,
    {
        proof {
            assert(anchors@.skip(i as int)[0] == anchors@[i as int]);
            assert(anchors@.skip(i as int).drop_first() =~= anchors@.skip(i as int + 1));
        }
        let (a, rect) = anchors[i];
        if a != addr {
            match rect.offset_of(addr) {
                Some((oi, oj)) => {
                    match ws.get(a) {
                        Some(c) => {
                            if let CellValue::Array(_) = c.value() {
                                return element_at(c.value(), oi, oj);
                            }
                        },
                        None => {},
                    }
                },
                None => {},
            }
        }
        i = i + 1;
    }
    None
}

/// The folded name of the sheet a reference reads: the formula's own sheet
/// (`own_sheet`, folded) when unqualified, else the named sheet's folded
/// name; `None` when the named sheet does not exist.
pub fn target_sheet(wb: &Workbook, own_sheet: &str, sheet: Option<&str>) -> (r: Option<String>)
    ensures
        match sheet {
            None => r matches Some(t) && t@ == own_sheet@,
            Some(n) => {
                let i = first_fold_match(wb.sheet_names(), folded(n@));
                match r {
                    Some(t) => i >= 0 && t@ == folded(wb.sheet_names()[i]),
                    None => i < 0,
                }
            },
        },
{
    match sheet {
        None => Some(string_of(own_sheet)),
        Some(n) => match wb.sheet(n) {
            Some(ws) => {
                proof {
                    lemma_first_fold_match(wb.sheet_names(), folded(n@));
                }
                Some(simple_fold(ws.name()))
            },
            None => None,
        },
    }
}

/// A read as one element of a range: an array (a spill anchor holds its
/// whole array) gives its first element, or nothing when it has none.
pub open spec fn scalar_of(r: ReadView) -> ReadView {
    match r {
        ReadView::Value(CellValue::Array(rows)) => if rows@.len() > 0 && rows@[0]@.len() > 0 {
            ReadView::Value(rows@[0]@[0])
        } else {
            ReadView::Empty
        },
        other => other,
    }
}

/// The views of a list of reads.
pub open spec fn read_views(s: Seq<Read>) -> Seq<ReadView> {
    Seq::new(s.len(), |k: int| s[k]@)
}

/// A range's materialized cells: each read as one element, in reading order,
/// and whether it is a single column of several rows (whose elements a
/// formula sees one per row).
pub struct RangeRead<'a> {
    /// A single column spanning more than one row.
    pub vertical: bool,
    /// The cells, row by row.
    pub cells: Vec<Read<'a>>,
}

impl PassState {
    /// The element for row `r`, column `c` of a range on sheet `sheet`: the
    /// reference error outside the grid.
    pub open spec fn range_elem(self, wb: Workbook, grid: GridSpillIndex, sheet: Seq<char>, r: int, c: int) -> ReadView {
        if crate::address::in_bounds(r, c) {
            scalar_of(self.spec_read(wb, grid, sheet, Address { row: r as u32, column: c as u32 }))
        } else {
            ReadView::RefError
        }
    }

    /// The elements of row `r`, columns `c0` to `c0 + w - 1`.
    pub open spec fn row_elems(self, wb: Workbook, grid: GridSpillIndex, sheet: Seq<char>, r: int, c0: int, w: int) -> Seq<
        ReadView,
    > {
        Seq::new(w as nat, |j: int| self.range_elem(wb, grid, sheet, r, c0 + j))
    }

    /// The elements of rows `r0` to `r0 + m - 1`, columns `c0` to
    /// `c0 + w - 1`, row by row.
    pub open spec fn block_elems(
        self,
        wb: Workbook,
        grid: GridSpillIndex,
        sheet: Seq<char>,
        r0: int,
        c0: int,
        m: nat,
        w: int,
    ) -> Seq<ReadView>
        decreases m,
    {
        if m == 0 {
            Seq::empty()
        } else {
            self.block_elems(wb, grid, sheet, r0, c0, (m - 1) as nat, w) + self.row_elems(wb, grid, sheet, r0 + m - 1, c0, w)
        }
    }

    /// A read as one range element.
    fn scalar<'a>(r: Read<'a>) -> (s: Read<'a>)
        ensures
            s@ == scalar_of(r@),
    {
        match r {
            Read::Value(v) => match v {
                CellValue::Array(rows) => {
                    if rows.len() > 0 && rows[0].len() > 0 {
                        Read::Value(&rows[0][0])
                    } else {
                        Read::Empty
                    }
                },
                _ => Read::Value(v),
            },
            other => other,
        }
    }

    /// Materializes the range with corners `(row_a, col_a)` and
    /// `(row_b, col_b)` (in either order) on the sheet whose folded name is
    /// `sheet`: every cell of the rectangle in reading order, each read as
    /// one element; an address outside the grid reads as the reference
    /// error.
    pub fn resolve_range<'a>(
        &'a self,
        wb: &'a Workbook,
        grid: &GridSpillIndex,
        sheet: &str,
        row_a: u32,
        col_a: u32,
        row_b: u32,
        col_b: u32,
    ) -> (r: RangeRead<'a>)
        requires
            self.wf(),
            wb.wf(),
            grid.wf(),
        ensures
            ({
                let r0 = if row_a <= row_b { row_a } else { row_b };
                let r1 = if row_a <= row_b { row_b } else { row_a };
                let c0 = if col_a <= col_b { col_a } else { col_b };
                let c1 = if col_a <= col_b { col_b } else { col_a };
                &&& r.vertical == (r1 > r0 && c0 == c1)
                &&& read_views(r.cells@) == self.block_elems(
                    *wb,
                    *grid,
                    sheet@,
                    r0 as int,
                    c0 as int,
                    (r1 - r0 + 1) as nat,
                    c1 - c0 + 1,
                )
            }),
    {
        let r0: u32 = if row_a <= row_b { row_a } else { row_b };
        let r1: u32 = if row_a <= row_b { row_b } else { row_a };
        let c0: u32 = if col_a <= col_b { col_a } else { col_b };
        let c1: u32 = if col_a <= col_b { col_b } else { col_a };
        let vertical = r1 > r0 && c0 == c1;
        let ghost w: int = c1 - c0 + 1;
        let mut cells: Vec<Read<'a>> = Vec::new();
        let mut r: u64 = r0 as u64;
        proof {
            assert(read_views(cells@) =~= self.block_elems(*wb, *grid, sheet@, r0 as int, c0 as int, 0, w));
        }
        while r <= r1 as u64
            invariant
                self.wf(),
                wb.wf(),
                grid.wf(),
                r0 <= r <= r1 as u64 + 1,
                c0 <= c1,
                w == c1 - c0 + 1,
                read_views(cells@) == self.block_elems(*wb, *grid, sheet@, r0 as int, c0 as int, (r - r0) as nat, w),
            decreases r1 as u64 + 1 - r,
        {
            let ghost before = read_views(cells@);
            let mut c: u64 = c0 as u64;
            proof {
                assert(read_views(cells@) =~= before + self.row_elems(*wb, *grid, sheet@, r as int, c0 as int, 0));
            }
            while c <= c1 as u64
                invariant
                    self.wf(),
                    wb.wf(),
                    grid.wf(),
                    r0 <= r <= r1,
                    c0 <= c <= c1 as u64 + 1,
                    w == c1 - c0 + 1,
                    read_views(cells@) == before + self.row_elems(*wb, *grid, sheet@, r as int, c0 as int, c - c0),
                decreases c1 as u64 + 1 - c,
            {
                let ghost prev = read_views(cells@);
                let e = match Address::new(r as u32, c as u32) {
                    Some(a) => Self::scalar(self.cell_value(wb, grid, sheet, a)),
                    None => Read::RefError,
                };
                cells.push(e);
                proof {
                    assert(read_views(cells@) =~= prev.push(e@));
                    assert(self.row_elems(*wb, *grid, sheet@, r as int, c0 as int, c - c0 + 1) =~= self.row_elems(
                        *wb,
                        *grid,
                        sheet@,
                        r as int,
                        c0 as int,
                        c - c0,
                    ).push(self.range_elem(*wb, *grid, sheet@, r as int, c as int)));
                }
                c = c + 1;
            }
            proof {
                assert(self.block_elems(*wb, *grid, sheet@, r0 as int, c0 as int, (r + 1 - r0) as nat, w) == self.block_elems(
                    *wb,
                    *grid,
                    sheet@,
                    r0 as int,
                    c0 as int,
                    (r - r0) as nat,
                    w,
                ) + self.row_elems(*wb, *grid, sheet@, r as int, c0 as int, w));
            }
            r = r + 1;
        }
        RangeRead { vertical, cells }
    }
}

/// What a reference reads.
pub enum RefValue<'a> {
    /// One cell's read.
    One(Read<'a>),
    /// The materialized cells of a range or a table column.
    Many(RangeRead<'a>),
    /// `#REF!`: a missing sheet, an address outside the grid, a named range
    /// whose `ref` does not resolve, or a structured reference that names no
    /// cell.
    RefError,
    /// `#NAME?`: a name no named range has.
    NameError,
}

/// [`RefValue`] as a value.
pub enum RefValueView {
    One(ReadView),
    Many(bool, Seq<ReadView>),
    RefError,
    NameError,
}

impl View for RefValue<'_> {
    type V = RefValueView;

    open spec fn view(&self) -> RefValueView {
        match self {
            RefValue::One(r) => RefValueView::One(r@),
            RefValue::Many(m) => RefValueView::Many(m.vertical, read_views(m.cells@)),
            RefValue::RefError => RefValueView::RefError,
            RefValue::NameError => RefValueView::NameError,
        }
    }
}

/// The folded name of the sheet a reference reads (see [`target_sheet`]).
pub open spec fn spec_target_sheet(wb: Workbook, own_sheet: Seq<char>, sheet: Option<Seq<char>>) -> Option<Seq<char>> {
    match sheet {
        None => Some(own_sheet),
        Some(n) => {
            let i = first_fold_match(wb.sheet_names(), folded(n));
            if i < 0 {
                None
            } else {
                Some(folded(wb.sheet_names()[i]))
            }
        },
    }
}

/// Whether a range with these corners is one column of several rows.
pub open spec fn is_vertical(row_a: u32, col_a: u32, row_b: u32, col_b: u32) -> bool {
    row_a != row_b && col_a == col_b
}

impl PassState {
    /// The first column from `c` to `end` of row `row` on sheet `sheet`
    /// (folded) whose cell reads, this pass, as a text that folds to `key`.
    pub open spec fn header_read_col_from(
        self,
        wb: Workbook,
        grid: GridSpillIndex,
        sheet: Seq<char>,
        row: u32,
        c: int,
        end: int,
        key: Seq<char>,
    ) -> Option<u32>
        decreases end + 1 - c,
    {
        if c > end {
            None
        } else if crate::address::in_bounds(row as int, c) && (self.spec_read(
            wb,
            grid,
            sheet,
            Address { row, column: c as u32 },
        ) matches ReadView::Value(CellValue::Text(h)) && folded(h@) == key) {
            Some(c as u32)
        } else {
            self.header_read_col_from(wb, grid, sheet, row, c + 1, end, key)
        }
    }

    /// The cells a structured reference reads during this pass, evaluated in
    /// cell `current`, or `None` where it evaluates to a reference error: the
    /// table as [`spec_table_target`] finds it, its column the first whose
    /// header cell reads, this pass, as a text that folds to `column`, and
    /// the cells as [`spec_cells_at`] gives them.
    pub open spec fn spec_pass_table_cells(
        self,
        wb: Workbook,
        grid: GridSpillIndex,
        facts: WorkbookFacts,
        table: Option<Seq<char>>,
        column: Seq<char>,
        this_row: bool,
        current: Option<CellKey>,
    ) -> Option<TableCellsView> {
        match spec_table_target(facts, table, current) {
            None => None,
            Some(b) => match self.header_read_col_from(wb, grid, folded(b.0), b.1, b.3 as int, b.4 as int, folded(column)) {
                None => None,
                Some(col) => spec_cells_at(b, col, this_row, current),
            },
        }
    }

    /// The first column from `start` to `end` of row `row` on sheet `sheet`
    /// (folded) whose cell reads, this pass, as a text that folds to `key`.
    fn header_read_column(
        &self,
        wb: &Workbook,
        grid: &GridSpillIndex,
        sheet: &str,
        row: u32,
        start: u32,
        end: u32,
        key: &Vec<char>,
    ) -> (r: Option<u32>)
        requires
            self.wf(),
            wb.wf(),
            grid.wf(),
            end < u32::MAX,
        ensures
            r == self.header_read_col_from(*wb, *grid, sheet@, row, start as int, end as int, key@),
    {
        let mut c: u32 = start;
        while c <= end
            invariant
                self.wf(),
                wb.wf(),
                grid.wf(),
                end < u32::MAX,
                start <= c,
                c <= end + 1 || c == start,
                self.header_read_col_from(*wb, *grid, sheet@, row, start as int, end as int, key@)
                    == self.header_read_col_from(*wb, *grid, sheet@, row, c as int, end as int, key@),
            decreases end + 1 - c,
        {
            let hit = match Address::new(row, c) {
                Some(a) => match self.cell_value(wb, grid, sheet, a) {
                    Read::Value(CellValue::Text(h)) => {
                        let hf = fold_chars(chars_of(h.as_str()).as_slice());
                        chars_equal(hf.as_slice(), key.as_slice())
                    },
                    _ => false,
                },
                None => false,
            };
            if hit {
                return Some(c);
            }
            c = c + 1;
        }
        None
    }

    /// Resolves a structured table reference during this pass, evaluated in
    /// cell `current`, to the cells it reads; `None` is a reference error
    /// (see [`spec_pass_table_cells`](Self::spec_pass_table_cells)). The
    /// column is found by what the header row's cells read this pass, so a
    /// header computed or spilled earlier in the pass counts.
    pub fn table_cells(
        &self,
        wb: &Workbook,
        grid: &GridSpillIndex,
        facts: &WorkbookFacts,
        table: Option<&str>,
        column: &str,
        this_row: bool,
        current: Option<(&str, Address)>,
    ) -> (r: Option<TableCells>)
        requires
            self.wf(),
            wb.wf(),
            grid.wf(),
        ensures
            match r {
                Some(c) => self.spec_pass_table_cells(*wb, *grid, *facts, opt_text(table), column@, this_row, crate::resolve::opt_cell(current))
                    == Some(c@),
                None => self.spec_pass_table_cells(*wb, *grid, *facts, opt_text(table), column@, this_row, crate::resolve::opt_cell(current)) is None,
            },
    {
        let b = match table_target(facts, table, current) {
            Some(b) => b,
            None => return None,
        };
        let sf = simple_fold(b.sheet.as_str());
        let key = fold_chars(chars_of(column).as_slice());
        let col = match self.header_read_column(wb, grid, sf.as_str(), b.row_start, b.col_start, b.col_end, &key) {
            Some(c) => c,
            None => return None,
        };
        table_cells_at(&b, col, this_row, current)
    }
}

impl PassState {
    /// The cells of the range with corners `(row_a, col_a)`, `(row_b, col_b)`
    /// on sheet `sheet`, in reading order.
    pub open spec fn range_view(
        self,
        wb: Workbook,
        grid: GridSpillIndex,
        sheet: Seq<char>,
        row_a: u32,
        col_a: u32,
        row_b: u32,
        col_b: u32,
    ) -> Seq<ReadView> {
        let r0 = if row_a <= row_b { row_a } else { row_b };
        let r1 = if row_a <= row_b { row_b } else { row_a };
        let c0 = if col_a <= col_b { col_a } else { col_b };
        let c1 = if col_a <= col_b { col_b } else { col_a };
        self.block_elems(wb, grid, sheet, r0 as int, c0 as int, (r1 - r0 + 1) as nat, c1 - c0 + 1)
    }

    /// What reference `r`, in a formula on sheet `own_sheet` (folded)
    /// evaluated in cell `current`, reads.
    pub open spec fn spec_ref_value(
        self,
        wb: Workbook,
        grid: GridSpillIndex,
        facts: WorkbookFacts,
        own_sheet: Seq<char>,
        current: Option<CellKey>,
        r: FormulaRef,
    ) -> RefValueView {
        match r {
            FormulaRef::Cell { sheet, row, col, .. } => match spec_target_sheet(wb, own_sheet, opt_string(sheet)) {
                None => RefValueView::RefError,
                Some(t) => if crate::address::in_bounds(row as int, col as int) {
                    RefValueView::One(self.spec_read(wb, grid, t, Address { row, column: col }))
                } else {
                    RefValueView::RefError
                },
            },
            FormulaRef::Range { sheet, start_row, start_col, end_row, end_col, .. } => match spec_target_sheet(
                wb,
                own_sheet,
                opt_string(sheet),
            ) {
                None => RefValueView::RefError,
                Some(t) => RefValueView::Many(
                    is_vertical(start_row, start_col, end_row, end_col),
                    self.range_view(wb, grid, t, start_row, start_col, end_row, end_col),
                ),
            },
            FormulaRef::Name(n) => {
                let names = wb.spec_registry().spec_names();
                let i = first_fold_match(entry_names(names), folded(n@));
                if i < 0 {
                    RefValueView::NameError
                } else {
                    match spec_name_target(facts.folded_sheets(), names[i].1) {
                        None => RefValueView::RefError,
                        Some(TargetView::Cell((s, a))) => RefValueView::One(self.spec_read(wb, grid, s, a)),
                        Some(TargetView::Range((s, a, b))) => RefValueView::Many(
                            is_vertical(a.row, a.column, b.row, b.column),
                            self.range_view(wb, grid, s, a.row, a.column, b.row, b.column),
                        ),
                    }
                }
            },
            FormulaRef::Table { table, column, this_row } => match self.spec_pass_table_cells(
                wb,
                grid,
                facts,
                opt_string(table),
                column@,
                this_row,
                current,
            ) {
                None => RefValueView::RefError,
                Some(TableCellsView::Cell((s, a))) => RefValueView::One(self.spec_read(wb, grid, s, a)),
                Some(TableCellsView::Column(s, col, first, last)) => RefValueView::Many(
                    true,
                    self.block_elems(wb, grid, s, first as int, col as int, if last >= first { (last - first + 1) as nat } else { 0 }, 1),
                ),
            },
        }
    }

    /// Resolves what reference `r` reads, in a formula on the sheet whose
    /// folded name is `own_sheet`, evaluated in cell `current` (folded sheet
    /// and address). A cell reads as [`cell_value`](Self::cell_value)
    /// gives it; a range, or a named range that names one, reads as
    /// [`resolve_range`](Self::resolve_range) materializes it; a table column
    /// reads its data rows one element per row, the table found through
    /// `facts` and its column by what its header row reads this pass (see
    /// [`table_cells`](Self::table_cells)), a table's `[@column]` the one cell
    /// of the current row.
    pub fn resolve<'a>(
        &'a self,
        wb: &'a Workbook,
        grid: &GridSpillIndex,
        facts: &WorkbookFacts,
        own_sheet: &str,
        current: Option<(&str, Address)>,
        r: &FormulaRef,
    ) -> (v: RefValue<'a>)
        requires
            self.wf(),
            wb.wf(),
            grid.wf(),
            facts.wf(),
        ensures
            v@ == self.spec_ref_value(*wb, *grid, *facts, own_sheet@, crate::resolve::opt_cell(current), *r),
    {
        match r {
            FormulaRef::Cell { sheet, row, col, .. } => {
                let target = match sheet {
                    Some(n) => target_sheet(wb, own_sheet, Some(n.as_str())),
                    None => target_sheet(wb, own_sheet, None),
                };
                proof {
                    match sheet {
                        Some(n) => lemma_first_fold_match(wb.sheet_names(), folded(n@)),
                        None => {},
                    }
                }
                match target {
                    None => RefValue::RefError,
                    Some(t) => match Address::new(*row, *col) {
                        Some(a) => RefValue::One(self.cell_value(wb, grid, t.as_str(), a)),
                        None => RefValue::RefError,
                    },
                }
            },
            FormulaRef::Range { sheet, start_row, start_col, end_row, end_col, .. } => {
                let target = match sheet {
                    Some(n) => target_sheet(wb, own_sheet, Some(n.as_str())),
                    None => target_sheet(wb, own_sheet, None),
                };
                proof {
                    match sheet {
                        Some(n) => lemma_first_fold_match(wb.sheet_names(), folded(n@)),
                        None => {},
                    }
                }
                match target {
                    None => RefValue::RefError,
                    Some(t) => RefValue::Many(
                        self.resolve_range(wb, grid, t.as_str(), *start_row, *start_col, *end_row, *end_col),
                    ),
                }
            },
            FormulaRef::Name(n) => match wb.name(n.as_str()) {
                None => RefValue::NameError,
                Some(nr) => match resolve_name_ref(nr.reference.as_str(), facts) {
                    None => RefValue::RefError,
                    Some(NameTarget::Cell(c)) => RefValue::One(self.cell_value(wb, grid, c.sheet.as_str(), c.addr)),
                    Some(NameTarget::Range(rr)) => RefValue::Many(
                        self.resolve_range(
                            wb,
                            grid,
                            rr.sheet.as_str(),
                            rr.start.row,
                            rr.start.column,
                            rr.end.row,
                            rr.end.column,
                        ),
                    ),
                },
            },
            FormulaRef::Table { table, column, this_row } => {
                let cells = match table {
                    Some(t) => self.table_cells(wb, grid, facts, Some(t.as_str()), column.as_str(), *this_row, current),
                    None => self.table_cells(wb, grid, facts, None, column.as_str(), *this_row, current),
                };
                match cells {
                    None => RefValue::RefError,
                    Some(TableCells::Cell(c)) => RefValue::One(self.cell_value(wb, grid, c.sheet.as_str(), c.addr)),
                    Some(TableCells::Column { sheet, column, first_row, last_row }) => {
                        let m = if first_row <= last_row {
                            let m0 = self.resolve_range(wb, grid, sheet.as_str(), first_row, column, last_row, column);
                            RangeRead { vertical: true, cells: m0.cells }
                        } else {
                            let m1 = RangeRead { vertical: true, cells: Vec::new() };
                            proof {
                                assert(read_views(m1.cells@) =~= self.block_elems(*wb, *grid, sheet@, first_row as int, column as int, 0, 1));
                            }
                            m1
                        };
                        RefValue::Many(m)
                    },
                }
            },
        }
    }
}

} // verus!
