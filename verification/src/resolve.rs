//! Resolving the references a parsed formula names into dependency-graph
//! precedents, and building the graph of a workbook from its formula cells.
//!
//! A bare reference resolves against the formula's own sheet; a qualified one
//! against the named sheet, which must exist. A name resolves to a name node
//! if the workbook defines it; a structured table reference resolves to the
//! one column (or, for `[@column]`, the one cell of the formula's own row) it
//! reads. A reference that cannot be resolved becomes an unresolved
//! precedent that keeps its text and carries no edge.

use vstd::prelude::*;

use crate::address::{in_bounds, parse_a1_seq, parsed_a1, Address};
use crate::casefold::{fold_chars, folded, simple_fold};
use crate::depgraph::{
    dedup_first, prec_views, CellKey, CellRef, DependencyGraph, NameTarget, Precedent, PrecedentView, RangeRef,
    TargetView,
};
use crate::named_range::{NamedRange, Table};
use crate::named_ref::{lemma_canonical_ref_unique, parse_canonical_ref, spec_canonical_ref};
use crate::sheet_index::{first_at, SheetIndex};
use crate::table_ref::{
    first_index_of, first_position, last_index_of, last_position, lemma_range_bounds_in_grid,
    parsed_range_bounds, spec_range_bounds, BoundsView, ParsedRangeBounds,
};
use crate::text::{chars_equal, chars_of, string_from_chars, string_of, sub_chars};

verus! {

/// What resolution reads from a workbook: its sheets (in tab order), named
/// ranges, tables, and the cells that hold text (a table's header row is
/// read from them).
pub struct WorkbookFacts {
    /// The sheets, in tab order.
    pub sheets: SheetIndex,
    /// The named ranges, in workbook order.
    pub names: Vec<NamedRange>,
    /// The tables, in workbook order.
    pub tables: Vec<Table>,
    /// Each text-valued cell: tab position, address, text.
    pub texts: Vec<(usize, Address, String)>,
}

/// The sheet a canonical reference names, if `r` is canonical.
pub open spec fn canonical_sheet(r: Seq<char>) -> Option<Seq<char>> {
    if exists|s: Seq<char>| spec_canonical_ref(r, s) {
        Some(choose|s: Seq<char>| spec_canonical_ref(r, s))
    } else {
        None
    }
}

/// The cell part of a reference: what follows its last `!` (all of it when
/// there is none).
pub open spec fn a1_part_of(r: Seq<char>) -> Seq<char> {
    if last_index_of(r, '!') < 0 {
        r
    } else {
        r.subrange(last_index_of(r, '!') + 1, r.len() as int)
    }
}

/// The target a named range's `ref` resolves to: the named sheet must exist;
/// the cell part is one address or a `start:end` pair.
pub open spec fn spec_name_target(sheets: Seq<Seq<char>>, r: Seq<char>) -> Option<TargetView> {
    match canonical_sheet(r) {
        None => None,
        Some(s) => if !sheets.contains(folded(s)) {
            None
        } else {
            let a1 = a1_part_of(r);
            let c = first_index_of(a1, ':');
            if c < 0 {
                match parsed_a1(a1) {
                    Some(a) => Some(TargetView::Cell((folded(s), a))),
                    None => None,
                }
            } else {
                match (parsed_a1(a1.take(c)), parsed_a1(a1.subrange(c + 1, a1.len() as int))) {
                    (Some(st), Some(en)) => Some(TargetView::Range((folded(s), st, en))),
                    _ => None,
                }
            }
        },
    }
}

impl WorkbookFacts {
    /// The folded sheet names, by tab position.
    pub open spec fn folded_sheets(self) -> Seq<Seq<char>> {
        self.sheets.folded_names()
    }

    /// The sheet index is consistent.
    pub open spec fn wf(self) -> bool {
        self.sheets.wf()
    }
}

/// Parses a canonical reference's sheet, stated over [`canonical_sheet`].
fn canonical_sheet_of(r: &str) -> (res: Option<String>)
    ensures
        match res {
            Some(s) => canonical_sheet(r@) == Some(s@),
            None => canonical_sheet(r@) is None,
        },
{
    match parse_canonical_ref(r) {
        Ok(p) => {
            proof {
                let c = choose|s: Seq<char>| spec_canonical_ref(r@, s);
                lemma_canonical_ref_unique(r@, c, p.sheet@);
            }
            Some(p.sheet)
        },
        Err(_) => None,
    }
}

/// Resolves a named range's canonical `ref` to its target, requiring the
/// target sheet to exist. `None` when the ref is malformed or names a missing
/// sheet.
pub fn resolve_name_ref(r: &str, facts: &WorkbookFacts) -> (res: Option<NameTarget>)
    requires
        facts.wf(),
    ensures
        match res {
            Some(t) => spec_name_target(facts.folded_sheets(), r@) == Some(t@),
            None => spec_name_target(facts.folded_sheets(), r@) is None,
        },
{
    let sheet = match canonical_sheet_of(r) {
        Some(s) => s,
        None => return None,
    };
    let sheet_folded = match facts.sheets.folded_of_name(sheet.as_str()) {
        Some(f) => string_of(f),
        None => return None,
    };
    let v = chars_of(r);
    assert(v@.len() == v.len());
    let a1 = match last_position(v.as_slice(), '!') {
        Some(b) => sub_chars(v.as_slice(), b + 1, v.len()),
        None => sub_chars(v.as_slice(), 0, v.len()),
    };
    proof {
        assert(a1@ == a1_part_of(r@));
    }
    match first_position(a1.as_slice(), ':') {
        None => match parse_a1_seq(a1.as_slice()) {
            Some(a) => Some(NameTarget::Cell(CellRef { sheet: sheet_folded, addr: a })),
            None => None,
        },
        Some(c) => {
            let s_raw = sub_chars(a1.as_slice(), 0, c);
            let e_raw = sub_chars(a1.as_slice(), c + 1, a1.len());
            proof {
                assert(s_raw@ =~= a1@.take(c as int));
            }
            match (parse_a1_seq(s_raw.as_slice()), parse_a1_seq(e_raw.as_slice())) {
                (Some(st), Some(en)) => Some(NameTarget::Range(RangeRef { sheet: sheet_folded, start: st, end: en })),
                _ => None,
            }
        },
    }
}

/// The first position of `x` in `s`, if any.
pub open spec fn first_sheet(s: Seq<Seq<char>>, x: Seq<char>) -> Option<int> {
    if s.contains(x) {
        Some(choose|i: int| first_at(s, x, i))
    } else {
        None
    }
}

proof fn lemma_first_sheet(s: Seq<Seq<char>>, x: Seq<char>, i: int)
    requires
        first_at(s, x, i),
    ensures
        first_sheet(s, x) == Some(i),
{
    assert(s[i] == x);
    assert(s.contains(x));
    let j = choose|j: int| first_at(s, x, j);
    if j < i {
        assert(s[j] != x);
    }
    if i < j {
        assert(s[i] != x);
    }
}

/// The bounds of a table's canonical range `ref`.
pub open spec fn table_bounds(r: Seq<char>) -> Option<BoundsView> {
    match canonical_sheet(r) {
        Some(s) => spec_range_bounds(r, s),
        None => None,
    }
}

/// The formula cell `(own_sheet, own)` lies in the data rows (below the
/// header row) of the range with bounds `b`.
pub open spec fn in_data_rows(b: BoundsView, own_sheet: Seq<char>, own: Address) -> bool {
    &&& folded(b.0) == own_sheet
    &&& b.1 < own.row <= b.2
    &&& b.3 <= own.column <= b.4
}

/// The first table at or after position `i` whose folded name is `key`.
pub open spec fn table_named_from(tables: Seq<Table>, key: Seq<char>, i: int) -> Option<int>
    decreases tables.len() - i,
{
    if i < 0 || i >= tables.len() {
        None
    } else if folded(tables[i].name@) == key {
        Some(i)
    } else {
        table_named_from(tables, key, i + 1)
    }
}

/// The first table at or after position `i` whose data rows hold the cell.
pub open spec fn table_containing_from(tables: Seq<Table>, own_sheet: Seq<char>, own: Address, i: int) -> Option<int>
    decreases tables.len() - i,
{
    if i < 0 || i >= tables.len() {
        None
    } else if table_bounds(tables[i].reference@) matches Some(b) && in_data_rows(b, own_sheet, own) {
        Some(i)
    } else {
        table_containing_from(tables, own_sheet, own, i + 1)
    }
}

/// The text of the first text cell at or after position `i` at tab `tab`,
/// address `a`.
pub open spec fn text_at_from(texts: Seq<(usize, Address, String)>, tab: int, a: Address, i: int) -> Option<Seq<char>>
    decreases texts.len() - i,
{
    if i < 0 || i >= texts.len() {
        None
    } else if texts[i].0 == tab && texts[i].1 == a {
        Some(texts[i].2@)
    } else {
        text_at_from(texts, tab, a, i + 1)
    }
}

/// Whether the header cell of column `c` in row `row` of sheet `tab` holds a
/// text that folds to `key`.
pub open spec fn header_matches(texts: Seq<(usize, Address, String)>, tab: Option<int>, row: u32, c: int, key: Seq<char>) -> bool {
    &&& in_bounds(row as int, c)
    &&& tab is Some
    &&& text_at_from(texts, tab->0, Address { row, column: c as u32 }, 0) matches Some(h) && folded(h) == key
}

/// The first column from `c` to `end` whose header matches `key`.
pub open spec fn header_col_from(texts: Seq<(usize, Address, String)>, tab: Option<int>, row: u32, c: int, end: int, key: Seq<char>) -> Option<u32>
    decreases end + 1 - c,
{
    if c > end {
        None
    } else if header_matches(texts, tab, row, c, key) {
        Some(c as u32)
    } else {
        header_col_from(texts, tab, row, c + 1, end, key)
    }
}

proof fn lemma_table_named_in_range(tables: Seq<Table>, key: Seq<char>, i: int)
    ensures
        table_named_from(tables, key, i) matches Some(t) ==> i <= t < tables.len(),
    decreases tables.len() - i,
{
    if 0 <= i < tables.len() && folded(tables[i].name@) != key {
        lemma_table_named_in_range(tables, key, i + 1);
    }
}

proof fn lemma_table_containing_in_range(tables: Seq<Table>, own_sheet: Seq<char>, own: Address, i: int)
    ensures
        table_containing_from(tables, own_sheet, own, i) matches Some(t) ==> i <= t < tables.len(),
    decreases tables.len() - i,
{
    if 0 <= i < tables.len() {
        lemma_table_containing_in_range(tables, own_sheet, own, i + 1);
    }
}

impl WorkbookFacts {
    /// The first table whose name folds to `key`.
    fn find_table_named(&self, key: &Vec<char>) -> (r: Option<usize>)
        ensures
            match r {
                Some(t) => table_named_from(self.tables@, key@, 0) == Some(t as int),
                None => table_named_from(self.tables@, key@, 0) is None,
            },
    {
        let mut i: usize = 0;
        while i < self.tables.len()
            invariant
                i <= self.tables@.len(),
                table_named_from(self.tables@, key@, 0) == table_named_from(self.tables@, key@, i as int),
            decreases self.tables@.len() - i,
        {
            let f = fold_chars(chars_of(self.tables[i].name.as_str()).as_slice());
            if chars_equal(f.as_slice(), key.as_slice()) {
                return Some(i);
            }
            i = i + 1;
        }
        None
    }

    /// The first table whose data rows hold `(own_sheet, own)`.
    fn find_table_containing(&self, own_sheet: &Vec<char>, own: Address) -> (r: Option<usize>)
        ensures
            match r {
                Some(t) => table_containing_from(self.tables@, own_sheet@, own, 0) == Some(t as int),
                None => table_containing_from(self.tables@, own_sheet@, own, 0) is None,
            },
    {
        let mut i: usize = 0;
        while i < self.tables.len()
            invariant
                i <= self.tables@.len(),
                table_containing_from(self.tables@, own_sheet@, own, 0) == table_containing_from(self.tables@, own_sheet@, own, i as int),
            decreases self.tables@.len() - i,
        {
            let r = self.tables[i].reference.as_str();
            let hit = match canonical_sheet_of(r) {
                Some(s) => {
                    let p = crate::named_ref::ParsedRef { sheet: s };
                    match parsed_range_bounds(r, &p) {
                        Some(b) => {
                            let f = simple_fold(b.sheet.as_str());
                            let fc = chars_of(f.as_str());
                            chars_equal(fc.as_slice(), own_sheet.as_slice()) && b.row_start < own.row && own.row <= b.row_end
                                && b.col_start <= own.column && own.column <= b.col_end
                        },
                        None => false,
                    }
                },
                None => false,
            };
            if hit {
                return Some(i);
            }
            i = i + 1;
        }
        None
    }

    /// The text at `(tab, a)`, if that cell holds text.
    fn text_at(&self, tab: usize, a: Address) -> (r: Option<&String>)
        ensures
            match r {
                Some(t) => text_at_from(self.texts@, tab as int, a, 0) == Some(t@),
                None => text_at_from(self.texts@, tab as int, a, 0) is None,
            },
    {
        let mut i: usize = 0;
        while i < self.texts.len()
            invariant
                i <= self.texts@.len(),
                text_at_from(self.texts@, tab as int, a, 0) == text_at_from(self.texts@, tab as int, a, i as int),
            decreases self.texts@.len() - i,
        {
            if self.texts[i].0 == tab && self.texts[i].1 == a {
                return Some(&self.texts[i].2);
            }
            i = i + 1;
        }
        None
    }
}

/// The text of an unresolved structured reference: `Table[column]` or
/// `Table[@column]` (no table name when the reference had none).
pub open spec fn table_ref_text(table: Option<Seq<char>>, column: Seq<char>, this_row: bool) -> Seq<char> {
    (match table {
        Some(t) => t,
        None => Seq::empty(),
    }) + "["@ + (if this_row {
        "@"@
    } else {
        Seq::empty()
    }) + column + "]"@
}

/// The precedent of a structured table reference read from the formula cell
/// `(own_sheet, own)`: a qualified reference names its table, an unqualified
/// one is the table whose data rows hold the formula cell; the column is found
/// by its header text (up to case); `[@column]` is the formula's own row of
/// that column, else the whole column from the header row down.
pub open spec fn spec_table_precedent(
    facts: WorkbookFacts,
    table: Option<Seq<char>>,
    column: Seq<char>,
    this_row: bool,
    own_sheet: Seq<char>,
    own: Address,
) -> PrecedentView {
    let target = match table {
        Some(n) => table_named_from(facts.tables@, folded(n), 0),
        None => table_containing_from(facts.tables@, own_sheet, own, 0),
    };
    match target {
        None => PrecedentView::Unresolved(table_ref_text(table, column, this_row)),
        Some(t) => {
            let r = facts.tables@[t].reference@;
            match canonical_sheet(r) {
                None => PrecedentView::Unresolved(r),
                Some(s) => match spec_range_bounds(r, s) {
                    None => PrecedentView::Unresolved(r),
                    Some(b) => {
                        let sf = folded(b.0);
                        let tab = first_sheet(facts.folded_sheets(), folded(b.0));
                        match header_col_from(facts.texts@, tab, b.1, b.3 as int, b.4 as int, folded(column)) {
                            None => PrecedentView::Unresolved(r),
                            Some(col) => if this_row {
                                if own_sheet != sf || own.row <= b.1 || own.row > b.2 {
                                    PrecedentView::Unresolved(r)
                                } else if in_bounds(own.row as int, col as int) {
                                    PrecedentView::Cell((sf, Address { row: own.row, column: col }))
                                } else {
                                    PrecedentView::Unresolved(r)
                                }
                            } else {
                                PrecedentView::Range((sf, Address { row: b.1, column: col }, Address { row: b.2, column: col }))
                            },
                        }
                    },
                },
            }
        },
    }
}

impl WorkbookFacts {
    /// The first column from `start` to `end` of row `row` whose header cell
    /// on sheet `tab` holds a text that folds to `key`.
    fn header_column(&self, tab: Option<usize>, row: u32, start: u32, end: u32, key: &Vec<char>) -> (r: Option<u32>)
        requires
            end < u32::MAX,
        ensures
            r == header_col_from(
                self.texts@,
                match tab {
                    Some(t) => Some(t as int),
                    None => None,
                },
                row,
                start as int,
                end as int,
                key@,
            ),
    {
        let ghost tb = match tab {
            Some(t) => Some(t as int),
            None => None::<int>,
        };
        let mut c: u32 = start;
        while c <= end
            invariant
                end < u32::MAX,
                start <= c,
                c <= end + 1 || c == start,
                header_col_from(self.texts@, tb, row, start as int, end as int, key@) == header_col_from(
                    self.texts@,
                    tb,
                    row,
                    c as int,
                    end as int,
                    key@,
                ),
                tb == match tab {
                    Some(t) => Some(t as int),
                    None => None,
                },
            decreases end + 1 - c,
        {
            let hit = match Address::new(row, c) {
                Some(a) => match tab {
                    Some(t) => match self.text_at(t, a) {
                        Some(h) => {
                            let hf = fold_chars(chars_of(h.as_str()).as_slice());
                            chars_equal(hf.as_slice(), key.as_slice())
                        },
                        None => false,
                    },
                    None => false,
                },
                None => false,
            };
            proof {
                assert(hit == header_matches(self.texts@, tb, row, c as int, key@));
            }
            if hit {
                return Some(c);
            }
            c = c + 1;
        }
        None
    }
}

/// The characters of an optional string.
pub open spec fn opt_text(t: Option<&str>) -> Option<Seq<char>> {
    match t {
        Some(x) => Some(x@),
        None => None,
    }
}

/// The text of an unresolved structured reference.
fn table_ref_string(table: Option<&str>, column: &str, this_row: bool) -> (s: String)
    ensures
        s@ == table_ref_text(opt_text(table), column@, this_row),
{
    let mut s = String::new();
    match table {
        Some(t) => crate::text::push_str(&mut s, t),
        None => {},
    }
    crate::text::push_str(&mut s, "[");
    if this_row {
        crate::text::push_str(&mut s, "@");
    }
    crate::text::push_str(&mut s, column);
    crate::text::push_str(&mut s, "]");
    assert(s@ =~= table_ref_text(opt_text(table), column@, this_row));
    s
}

/// Resolves a structured table reference read from the formula cell
/// `(own_sheet, own_addr)` (`own_sheet` folded) to its precedent.
///
/// A whole-column reference is the one column from the header row to the
/// last data row, never the whole table, so a formula that reads another
/// column of its own table is not its own precedent. `[@column]` is the one
/// cell of that column in the formula's own row, and only resolves when the
/// formula sits in the table's data rows on the table's sheet.
pub fn resolve_table_precedent(
    facts: &WorkbookFacts,
    table: Option<&str>,
    column: &str,
    this_row: bool,
    own_sheet: &str,
    own_addr: Address,
) -> (p: Precedent)
    requires
        facts.wf(),
    ensures
        p@ == spec_table_precedent(*facts, opt_text(table), column@, this_row, own_sheet@, own_addr),
{
    let target = match table {
        Some(n) => {
            let key = fold_chars(chars_of(n).as_slice());
            facts.find_table_named(&key)
        },
        None => {
            let own = chars_of(own_sheet);
            facts.find_table_containing(&own, own_addr)
        },
    };
    let t = match target {
        Some(t) => t,
        None => return Precedent::Unresolved(table_ref_string(table, column, this_row)),
    };
    proof {
        match table {
            Some(n) => lemma_table_named_in_range(facts.tables@, folded(n@), 0),
            None => lemma_table_containing_in_range(facts.tables@, own_sheet@, own_addr, 0),
        }
    }
    let r = facts.tables[t].reference.as_str();
    let s = match canonical_sheet_of(r) {
        Some(s) => s,
        None => return Precedent::Unresolved(string_of(r)),
    };
    let ghost sv = s@;
    let p = crate::named_ref::ParsedRef { sheet: s };
    let b = match parsed_range_bounds(r, &p) {
        Some(b) => b,
        None => return Precedent::Unresolved(string_of(r)),
    };
    proof {
        lemma_range_bounds_in_grid(r@, sv);
    }
    let sf = simple_fold(b.sheet.as_str());
    let tab = facts.sheets.index_of_name(b.sheet.as_str());
    proof {
        match tab {
            Some(i) => lemma_first_sheet(facts.folded_sheets(), folded(b.sheet@), i as int),
            None => {},
        }
    }
    let key = fold_chars(chars_of(column).as_slice());
    let col = match facts.header_column(tab, b.row_start, b.col_start, b.col_end, &key) {
        Some(c) => c,
        None => return Precedent::Unresolved(string_of(r)),
    };
    if this_row {
        let own = chars_of(own_sheet);
        let sfc = chars_of(sf.as_str());
        if !chars_equal(own.as_slice(), sfc.as_slice()) || own_addr.row <= b.row_start || own_addr.row > b.row_end {
            return Precedent::Unresolved(string_of(r));
        }
        match Address::new(own_addr.row, col) {
            Some(a) => Precedent::Cell(CellRef { sheet: sf, addr: a }),
            None => Precedent::Unresolved(string_of(r)),
        }
    } else {
        Precedent::Range(
            RangeRef {
                sheet: sf,
                start: Address { row: b.row_start, column: col },
                end: Address { row: b.row_end, column: col },
            },
        )
    }
}

/// Where a structured reference reads its values during a recalculation.
#[derive(Debug, PartialEq, Eq)]
pub enum TableCells {
    /// `[@column]`: the one cell of the column in the formula's own row.
    Cell(CellRef),
    /// `[column]`: the data rows `first_row..=last_row` of one column (none
    /// when the table is only a header row), on the sheet with that folded
    /// name.
    Column { sheet: String, column: u32, first_row: u32, last_row: u32 },
}

/// [`TableCells`] as a value.
pub enum TableCellsView {
    Cell(CellKey),
    Column(Seq<char>, u32, u32, u32),
}

impl View for TableCells {
    type V = TableCellsView;

    open spec fn view(&self) -> TableCellsView {
        match self {
            TableCells::Cell(c) => TableCellsView::Cell(c@),
            TableCells::Column { sheet, column, first_row, last_row } => TableCellsView::Column(
                sheet@,
                *column,
                *first_row,
                *last_row,
            ),
        }
    }
}

/// The range of the table a structured reference names, evaluated in cell
/// `current` (folded sheet and address; `None` outside any cell): a
/// qualified reference names its table, an unqualified one is the first
/// table whose data rows hold `current`. `None` when there is no such table
/// or its `ref` is not canonical.
pub open spec fn spec_table_target(facts: WorkbookFacts, table: Option<Seq<char>>, current: Option<CellKey>) -> Option<
    BoundsView,
> {
    let target = match table {
        Some(n) => table_named_from(facts.tables@, folded(n), 0),
        None => match current {
            Some(c) => table_containing_from(facts.tables@, c.0, c.1, 0),
            None => None,
        },
    };
    match target {
        None => None,
        Some(t) => {
            let r = facts.tables@[t].reference@;
            match canonical_sheet(r) {
                None => None,
                Some(s) => spec_range_bounds(r, s),
            }
        },
    }
}

/// The cells that column `col` of the table over `b` gives a structured
/// reference evaluated in `current`: `[@column]` the one cell of the current
/// row (a reference error outside the table's data rows), else the data
/// rows of the column, the header row excluded.
pub open spec fn spec_cells_at(b: BoundsView, col: u32, this_row: bool, current: Option<CellKey>) -> Option<TableCellsView> {
    let sf = folded(b.0);
    if this_row {
        match current {
            None => None,
            Some(c) => if c.0 != sf || c.1.row <= b.1 || c.1.row > b.2 {
                None
            } else if in_bounds(c.1.row as int, col as int) {
                Some(TableCellsView::Cell((sf, Address { row: c.1.row, column: col })))
            } else {
                None
            },
        }
    } else {
        Some(TableCellsView::Column(sf, col, (b.1 + 1) as u32, b.2))
    }
}

/// The cells a structured reference reads on the stored grid, evaluated in
/// cell `current`, or `None` where it evaluates to a reference error: no
/// such table (see [`spec_table_target`]), no header in the table's header
/// row whose stored text folds to `column`, or `[@column]` read from outside
/// the table's data rows.
pub open spec fn spec_table_cells(
    facts: WorkbookFacts,
    table: Option<Seq<char>>,
    column: Seq<char>,
    this_row: bool,
    current: Option<CellKey>,
) -> Option<TableCellsView> {
    match spec_table_target(facts, table, current) {
        None => None,
        Some(b) => match header_col_from(
            facts.texts@,
            first_sheet(facts.folded_sheets(), folded(b.0)),
            b.1,
            b.3 as int,
            b.4 as int,
            folded(column),
        ) {
            None => None,
            Some(col) => spec_cells_at(b, col, this_row, current),
        },
    }
}

/// The folded sheet and address of an optional current cell.
pub open spec fn opt_cell(current: Option<(&str, Address)>) -> Option<CellKey> {
    match current {
        Some((s, a)) => Some((s@, a)),
        None => None,
    }
}

/// The range of the table a structured reference names, evaluated in cell
/// `current` (see [`spec_table_target`]).
pub fn table_target(facts: &WorkbookFacts, table: Option<&str>, current: Option<(&str, Address)>) -> (r: Option<
    ParsedRangeBounds,
>)
    ensures
        match r {
            Some(b) => spec_table_target(*facts, opt_text(table), opt_cell(current)) == Some(b@) && in_bounds(
                b.row_start as int,
                b.col_start as int,
            ) && in_bounds(b.row_end as int, b.col_end as int),
            None => spec_table_target(*facts, opt_text(table), opt_cell(current)) is None,
        },
{
    let target = match table {
        Some(n) => {
            let key = fold_chars(chars_of(n).as_slice());
            facts.find_table_named(&key)
        },
        None => match current {
            Some((s, a)) => {
                let own = chars_of(s);
                facts.find_table_containing(&own, a)
            },
            None => None,
        },
    };
    let t = match target {
        Some(t) => t,
        None => return None,
    };
    proof {
        match table {
            Some(n) => lemma_table_named_in_range(facts.tables@, folded(n@), 0),
            None => match current {
                Some((s, a)) => lemma_table_containing_in_range(facts.tables@, s@, a, 0),
                None => {},
            },
        }
    }
    let r = facts.tables[t].reference.as_str();
    let s = match canonical_sheet_of(r) {
        Some(s) => s,
        None => return None,
    };
    let ghost sv = s@;
    let p = crate::named_ref::ParsedRef { sheet: s };
    let b = parsed_range_bounds(r, &p);
    proof {
        if b is Some {
            lemma_range_bounds_in_grid(r@, sv);
        }
    }
    b
}

/// The cells column `col` of the table over `b` gives a structured
/// reference evaluated in `current` (see [`spec_cells_at`]).
pub fn table_cells_at(b: &ParsedRangeBounds, col: u32, this_row: bool, current: Option<(&str, Address)>) -> (r: Option<
    TableCells,
>)
    requires
        in_bounds(b.row_start as int, b.col_start as int),
    ensures
        match r {
            Some(c) => spec_cells_at(b@, col, this_row, opt_cell(current)) == Some(c@),
            None => spec_cells_at(b@, col, this_row, opt_cell(current)) is None,
        },
{
    let sf = simple_fold(b.sheet.as_str());
    if this_row {
        let (cs, ca) = match current {
            Some(c) => c,
            None => return None,
        };
        let own = chars_of(cs);
        let sfc = chars_of(sf.as_str());
        if !chars_equal(own.as_slice(), sfc.as_slice()) || ca.row <= b.row_start || ca.row > b.row_end {
            return None;
        }
        match Address::new(ca.row, col) {
            Some(a) => Some(TableCells::Cell(CellRef { sheet: sf, addr: a })),
            None => None,
        }
    } else {
        Some(TableCells::Column { sheet: sf, column: col, first_row: b.row_start + 1, last_row: b.row_end })
    }
}

/// Resolves a structured table reference on the stored grid, evaluated in
/// cell `current`, to the cells it reads; `None` is a reference error (see
/// [`spec_table_cells`]). The column is found by the stored text of the
/// table's header row; a whole-column reference reads the data rows only,
/// the header row excluded.
pub fn resolve_table_ref(
    facts: &WorkbookFacts,
    table: Option<&str>,
    column: &str,
    this_row: bool,
    current: Option<(&str, Address)>,
) -> (r: Option<TableCells>)
    requires
        facts.wf(),
    ensures
        match r {
            Some(c) => spec_table_cells(*facts, opt_text(table), column@, this_row, opt_cell(current)) == Some(c@),
            None => spec_table_cells(*facts, opt_text(table), column@, this_row, opt_cell(current)) is None,
        },
{
    let b = match table_target(facts, table, current) {
        Some(b) => b,
        None => return None,
    };
    let tab = facts.sheets.index_of_name(b.sheet.as_str());
    proof {
        match tab {
            Some(i) => lemma_first_sheet(facts.folded_sheets(), folded(b.sheet@), i as int),
            None => {},
        }
    }
    let key = fold_chars(chars_of(column).as_slice());
    let col = match facts.header_column(tab, b.row_start, b.col_start, b.col_end, &key) {
        Some(c) => c,
        None => return None,
    };
    table_cells_at(&b, col, this_row, current)
}

/// A reference as a parsed formula names it, before resolution.
pub enum FormulaRef {
    /// A single cell, optionally sheet-qualified. `display` is the
    /// reference's text with `$` anchors dropped.
    Cell { sheet: Option<String>, row: u32, col: u32, display: String },
    /// A rectangular range, corners in either order, optionally
    /// sheet-qualified. `display` is its text with `$` anchors dropped.
    Range { sheet: Option<String>, start_row: u32, start_col: u32, end_row: u32, end_col: u32, display: String },
    /// A bare name.
    Name(String),
    /// A structured reference `Table[column]`, `[column]` or `[@column]`.
    Table { table: Option<String>, column: String, this_row: bool },
}

/// The characters of an optional owned string.
pub open spec fn opt_string(t: Option<String>) -> Option<Seq<char>> {
    match t {
        Some(x) => Some(x@),
        None => None,
    }
}

/// The folded sheet a reference targets: its own sheet when unqualified,
/// else the named sheet when the workbook has it.
pub open spec fn target_sheet(sheets: Seq<Seq<char>>, sheet: Option<Seq<char>>, own_sheet: Seq<char>) -> Option<Seq<char>> {
    match sheet {
        None => Some(own_sheet),
        Some(n) => if sheets.contains(folded(n)) {
            Some(folded(n))
        } else {
            None
        },
    }
}

pub open spec fn min_u32(a: u32, b: u32) -> u32 {
    if a <= b {
        a
    } else {
        b
    }
}

pub open spec fn max_u32(a: u32, b: u32) -> u32 {
    if a >= b {
        a
    } else {
        b
    }
}

/// The precedent a reference resolves to, read from formula cell
/// `(own_sheet, own)`.
pub open spec fn spec_resolve(facts: WorkbookFacts, r: FormulaRef, own_sheet: Seq<char>, own: Address) -> PrecedentView {
    match r {
        FormulaRef::Cell { sheet, row, col, display } => match target_sheet(facts.folded_sheets(), opt_string(sheet), own_sheet) {
            None => PrecedentView::Unresolved(display@),
            Some(sf) => if in_bounds(row as int, col as int) {
                PrecedentView::Cell((sf, Address { row, column: col }))
            } else {
                PrecedentView::Unresolved(display@)
            },
        },
        FormulaRef::Range { sheet, start_row, start_col, end_row, end_col, display } => match target_sheet(
            facts.folded_sheets(),
            opt_string(sheet),
            own_sheet,
        ) {
            None => PrecedentView::Unresolved(display@),
            Some(sf) => {
                let top = Address { row: min_u32(start_row, end_row), column: min_u32(start_col, end_col) };
                let bottom = Address { row: max_u32(start_row, end_row), column: max_u32(start_col, end_col) };
                if top.wf() && bottom.wf() {
                    PrecedentView::Range((sf, top, bottom))
                } else {
                    PrecedentView::Unresolved(display@)
                }
            },
        },
        FormulaRef::Name(n) => if exists|i: int| 0 <= i < facts.names@.len() && #[trigger] folded(facts.names@[i].name@) == folded(n@) {
            PrecedentView::Name(folded(n@))
        } else {
            PrecedentView::Unresolved(n@)
        },
        FormulaRef::Table { table, column, this_row } => spec_table_precedent(
            facts,
            opt_string(table),
            column@,
            this_row,
            own_sheet,
            own,
        ),
    }
}

/// The folded sheet a possibly qualified reference targets.
fn sheet_target(facts: &WorkbookFacts, sheet: &Option<String>, own_sheet: &str) -> (r: Option<String>)
    requires
        facts.wf(),
    ensures
        match r {
            Some(x) => target_sheet(facts.folded_sheets(), opt_string(*sheet), own_sheet@) == Some(x@),
            None => target_sheet(facts.folded_sheets(), opt_string(*sheet), own_sheet@) is None,
        },
{
    match sheet {
        None => Some(string_of(own_sheet)),
        Some(name) => match facts.sheets.index_of_name(name.as_str()) {
            Some(_) => Some(simple_fold(name.as_str())),
            None => None,
        },
    }
}

/// Whether the workbook defines a named range whose name folds to `key`.
fn defines_name(facts: &WorkbookFacts, key: &Vec<char>) -> (b: bool)
    ensures
        b == exists|i: int| 0 <= i < facts.names@.len() && #[trigger] folded(facts.names@[i].name@) == key@,
{
    let mut i: usize = 0;
    while i < facts.names.len()
        invariant
            i <= facts.names@.len(),
            forall|j: int| 0 <= j < i ==> #[trigger] folded(facts.names@[j].name@) != key@,
        decreases facts.names@.len() - i,
    {
        let f = fold_chars(chars_of(facts.names[i].name.as_str()).as_slice());
        if chars_equal(f.as_slice(), key.as_slice()) {
            return true;
        }
        i = i + 1;
    }
    false
}

/// Resolves one reference read from the formula cell `(own_sheet,
/// own_addr)` (`own_sheet` folded). A bare cell or range resolves against
/// the formula's own sheet, a qualified one against the named sheet, which
/// must exist; a range's corners are normalized top-left first; an address
/// off the grid, an unknown sheet or an undefined name is unresolved.
pub fn resolve_ref(r: &FormulaRef, own_sheet: &str, own_addr: Address, facts: &WorkbookFacts) -> (p: Precedent)
    requires
        facts.wf(),
    ensures
        p@ == spec_resolve(*facts, *r, own_sheet@, own_addr),
{
    match r {
        FormulaRef::Cell { sheet, row, col, display } => match sheet_target(facts, sheet, own_sheet) {
            None => Precedent::Unresolved(string_of(display.as_str())),
            Some(sf) => match Address::new(*row, *col) {
                Some(a) => Precedent::Cell(CellRef { sheet: sf, addr: a }),
                None => Precedent::Unresolved(string_of(display.as_str())),
            },
        },
        FormulaRef::Range { sheet, start_row, start_col, end_row, end_col, display } => match sheet_target(
            facts,
            sheet,
            own_sheet,
        ) {
            None => Precedent::Unresolved(string_of(display.as_str())),
            Some(sf) => {
                let top_row = if *start_row <= *end_row { *start_row } else { *end_row };
                let top_col = if *start_col <= *end_col { *start_col } else { *end_col };
                let bottom_row = if *start_row >= *end_row { *start_row } else { *end_row };
                let bottom_col = if *start_col >= *end_col { *start_col } else { *end_col };
                match (Address::new(top_row, top_col), Address::new(bottom_row, bottom_col)) {
                    (Some(s), Some(e)) => Precedent::Range(RangeRef { sheet: sf, start: s, end: e }),
                    _ => Precedent::Unresolved(string_of(display.as_str())),
                }
            },
        },
        FormulaRef::Name(n) => {
            let key = fold_chars(chars_of(n.as_str()).as_slice());
            if defines_name(facts, &key) {
                Precedent::Name(string_from_chars(key.as_slice()))
            } else {
                Precedent::Unresolved(string_of(n.as_str()))
            }
        },
        FormulaRef::Table { table, column, this_row } => {
            let t: Option<&str> = match table {
                Some(x) => Some(x.as_str()),
                None => None,
            };
            resolve_table_precedent(facts, t, column.as_str(), *this_row, own_sheet, own_addr)
        },
    }
}

/// One formula cell as the formula parser hands it over.
pub struct FormulaCell {
    /// The tab position of the cell's sheet.
    pub sheet: usize,
    /// The cell's address.
    pub addr: Address,
    /// The formula text.
    pub formula: String,
    /// The references the parsed formula names, in formula order with
    /// repeats, or `None` when the formula does not parse.
    pub refs: Option<Vec<FormulaRef>>,
}

/// The named-range targets after resolving the first `n` named ranges in
/// order (a later name with the same fold replaces an earlier one; a name
/// whose `ref` does not resolve adds nothing).
pub open spec fn spec_name_targets(facts: WorkbookFacts, n: int) -> Map<Seq<char>, TargetView>
    decreases n,
{
    if n <= 0 {
        Map::empty()
    } else {
        let prev = spec_name_targets(facts, n - 1);
        match spec_name_target(facts.folded_sheets(), facts.names@[n - 1].reference@) {
            Some(t) => prev.insert(folded(facts.names@[n - 1].name@), t),
            None => prev,
        }
    }
}

/// The precedents of one formula cell before repeats are dropped: each
/// reference resolved, or the formula text alone when it does not parse.
pub open spec fn raw_precedents(facts: WorkbookFacts, f: FormulaCell) -> Seq<PrecedentView> {
    match f.refs {
        None => seq![PrecedentView::Unresolved(f.formula@)],
        Some(rs) => Seq::new(
            rs@.len(),
            |i: int| spec_resolve(facts, rs@[i], facts.folded_sheets()[f.sheet as int], f.addr),
        ),
    }
}

/// The cell a formula cell is recorded under.
pub open spec fn formula_key(facts: WorkbookFacts, f: FormulaCell) -> CellKey {
    (facts.folded_sheets()[f.sheet as int], f.addr)
}

/// The precedents recorded for cell `k` after the first `n` formula cells:
/// those of the last of them recorded under `k`.
pub open spec fn spec_formula_lookup(facts: WorkbookFacts, formulas: Seq<FormulaCell>, n: int, k: CellKey) -> Option<
    Seq<PrecedentView>,
>
    decreases n,
{
    if n <= 0 {
        None
    } else if formula_key(facts, formulas[n - 1]) == k {
        Some(dedup_first(raw_precedents(facts, formulas[n - 1])))
    } else {
        spec_formula_lookup(facts, formulas, n - 1, k)
    }
}

/// The resolved precedents of one formula cell, repeats kept.
fn precedents_of_cell(facts: &WorkbookFacts, f: &FormulaCell, own_sheet: &str) -> (v: Vec<Precedent>)
    requires
        facts.wf(),
        f.sheet < facts.folded_sheets().len(),
        own_sheet@ == facts.folded_sheets()[f.sheet as int],
    ensures
        prec_views(v@) == raw_precedents(*facts, *f),
{
    match &f.refs {
        None => {
            let mut v: Vec<Precedent> = Vec::new();
            v.push(Precedent::Unresolved(string_of(f.formula.as_str())));
            assert(prec_views(v@) =~= raw_precedents(*facts, *f));
            v
        },
        Some(rs) => {
            let mut v: Vec<Precedent> = Vec::new();
            let mut i: usize = 0;
            while i < rs.len()
                invariant
                    facts.wf(),
                    f.refs == Some(*rs),
                    own_sheet@ == facts.folded_sheets()[f.sheet as int],
                    i <= rs@.len(),
                    prec_views(v@) == raw_precedents(*facts, *f).take(i as int),
                decreases rs@.len() - i,
            {
                let p = resolve_ref(&rs[i], own_sheet, f.addr, facts);
                let ghost before = v@;
                v.push(p);
                proof {
                    assert(v@ == before.push(p));
                    assert(raw_precedents(*facts, *f)[i as int] == p@);
                    assert(raw_precedents(*facts, *f).len() == rs@.len());
                    assert(prec_views(v@) =~= prec_views(before).push(p@));
                    assert(raw_precedents(*facts, *f).take(i as int + 1) =~= raw_precedents(*facts, *f).take(i as int).push(p@));
                    assert(prec_views(v@) =~= raw_precedents(*facts, *f).take(i as int + 1));
                }
                i = i + 1;
            }
            proof {
                assert(raw_precedents(*facts, *f).take(i as int) =~= raw_precedents(*facts, *f));
            }
            v
        },
    }
}

/// The (tab position, address, formula text) of each formula cell.
pub open spec fn formula_sources(formulas: Seq<FormulaCell>) -> Seq<(usize, Address, String)> {
    Seq::new(formulas.len(), |i: int| (formulas[i].sheet, formulas[i].addr, formulas[i].formula))
}

/// `facts` is what resolution reads from workbook `wb`: its sheet names, its
/// named ranges and tables, and exactly its text-valued cells.
pub open spec fn facts_of(facts: WorkbookFacts, wb: crate::workbook::Workbook) -> bool {
    &&& facts.wf()
    &&& facts.sheets.names() == wb.sheet_names()
    &&& Seq::new(facts.names@.len(), |i: int| crate::registry::name_entry(facts.names@[i])) == wb.spec_registry().spec_names()
    &&& Seq::new(facts.tables@.len(), |i: int| crate::registry::table_entry(facts.tables@[i])) == wb.spec_registry().spec_tables()
    &&& forall|t: int| #![trigger facts.texts@[t]]
        0 <= t < facts.texts@.len() ==> {
            let (tab, a, x) = facts.texts@[t];
            &&& tab < wb.spec_sheets().len()
            &&& wb.spec_sheets()[tab as int]@.contains_key(a)
            &&& wb.spec_sheets()[tab as int]@[a].spec_value() matches crate::value::CellValue::Text(y) && y@ == x@
        }
    &&& forall|tab: int, a: Address|
        0 <= tab < wb.spec_sheets().len() && #[trigger] wb.spec_sheets()[tab]@.contains_key(a)
            && wb.spec_sheets()[tab]@[a].spec_value() is Text ==> exists|t: int|
            0 <= t < facts.texts@.len() && facts.texts@[t].0 == tab && facts.texts@[t].1 == a
}

/// A cell has precedents recorded after the first `n` formula cells exactly
/// when one of them is that cell.
proof fn lemma_formula_lookup_some(facts: WorkbookFacts, formulas: Seq<FormulaCell>, n: int, k: CellKey)
    requires
        0 <= n <= formulas.len(),
    ensures
        spec_formula_lookup(facts, formulas, n, k) is Some <==> exists|i: int| 0 <= i < n && #[trigger] formula_key(facts, formulas[i]) == k,
    decreases n,
{
    if n > 0 {
        lemma_formula_lookup_some(facts, formulas, n - 1, k);
        if spec_formula_lookup(facts, formulas, n, k) is Some {
            if formula_key(facts, formulas[n - 1]) != k {
                let i = choose|i: int| 0 <= i < n - 1 && #[trigger] formula_key(facts, formulas[i]) == k;
                assert(formula_key(facts, formulas[i]) == k);
            }
        } else {
            assert forall|i: int| 0 <= i < n implies #[trigger] formula_key(facts, formulas[i]) != k by {
                if i < n - 1 && formula_key(facts, formulas[i]) == k {
                    assert(exists|j: int| 0 <= j < n - 1 && #[trigger] formula_key(facts, formulas[j]) == k);
                }
            }
        }
    }
}

impl DependencyGraph {
    /// Builds the dependency graph of workbook `wb` from its formula cells,
    /// each with the references the formula parser found in it: `formulas`
    /// are exactly the cells that [`Workbook::formula_cells`] lists, in that
    /// order. Every formula cell of `wb` is a node, and nothing else is; the
    /// precedents are those [`build`](Self::build) resolves against what
    /// resolution reads from `wb`.
    ///
    /// [`Workbook::formula_cells`]: crate::workbook::Workbook::formula_cells
    pub fn of_workbook(wb: &crate::workbook::Workbook, formulas: &[FormulaCell]) -> (g: DependencyGraph)
        requires
            wb.wf(),
            crate::workbook::lists_formula_cells(wb.spec_sheets(), formula_sources(formulas@)),
        ensures
            g.wf(),
            exists|facts: WorkbookFacts| #[trigger] facts_of(facts, *wb) && g.targets() == spec_name_targets(
                facts,
                facts.names@.len() as int,
            ) && forall|k: CellKey| #[trigger] g.lookup(k) == spec_formula_lookup(facts, formulas@, formulas@.len() as int, k),
            forall|k: CellKey| #[trigger] g.lookup(k) is Some <==> exists|tab: int, a: Address|
                0 <= tab < wb.spec_sheets().len() && #[trigger] wb.spec_sheets()[tab]@.contains_key(a)
                    && wb.spec_sheets()[tab]@[a].formula_text() is Some && k == (folded(wb.sheet_names()[tab]), a),
    {
        let facts = WorkbookFacts::of(wb);
        let ghost src = formula_sources(formulas@);
        proof {
            facts.sheets.lemma_folded_names();
            assert(wb.sheet_names().len() == wb.spec_sheets().len());
            assert forall|i: int| 0 <= i < formulas@.len() implies #[trigger] formulas@[i].sheet < facts.folded_sheets().len() by {
                assert(src[i].0 == formulas@[i].sheet);
                assert(src[i] == src[i]);
            }
        }
        let g = Self::build(&facts, formulas);
        proof {
            assert(facts_of(facts, *wb));
            assert forall|k: CellKey| #[trigger] g.lookup(k) is Some <==> exists|tab: int, a: Address|
                0 <= tab < wb.spec_sheets().len() && #[trigger] wb.spec_sheets()[tab]@.contains_key(a)
                    && wb.spec_sheets()[tab]@[a].formula_text() is Some && k == (folded(wb.sheet_names()[tab]), a) by {
                lemma_formula_lookup_some(facts, formulas@, formulas@.len() as int, k);
                if g.lookup(k) is Some {
                    let i = choose|i: int| 0 <= i < formulas@.len() && #[trigger] formula_key(facts, formulas@[i]) == k;
                    assert(src[i] == src[i]);
                    let tab = formulas@[i].sheet as int;
                    assert(wb.spec_sheets()[tab]@.contains_key(formulas@[i].addr));
                    assert(facts.folded_sheets()[tab] == folded(wb.sheet_names()[tab]));
                }
                if exists|tab: int, a: Address|
                    0 <= tab < wb.spec_sheets().len() && #[trigger] wb.spec_sheets()[tab]@.contains_key(a)
                        && wb.spec_sheets()[tab]@[a].formula_text() is Some && k == (folded(wb.sheet_names()[tab]), a) {
                    let (tab, a) = choose|tab: int, a: Address|
                        0 <= tab < wb.spec_sheets().len() && #[trigger] wb.spec_sheets()[tab]@.contains_key(a)
                            && wb.spec_sheets()[tab]@[a].formula_text() is Some && k == (folded(wb.sheet_names()[tab]), a);
                    let t = choose|t: int| 0 <= t < src.len() && src[t].0 == tab && src[t].1 == a;
                    assert(src[t] == src[t]);
                    assert(formula_key(facts, formulas@[t]) == k);
                }
            }
        }
        g
    }

    /// Builds the dependency graph of a workbook from its named ranges and its
    /// formula cells (in sheet order, then cell order): named-range targets are
    /// resolved first, then each formula cell's references; a formula that does
    /// not parse reads only its own text, unresolved. Building never fails: an
    /// unresolvable reference becomes an unresolved precedent.
    pub fn build(facts: &WorkbookFacts, formulas: &[FormulaCell]) -> (g: DependencyGraph)
        requires
            facts.wf(),
            forall|i: int| 0 <= i < formulas@.len() ==> #[trigger] formulas@[i].sheet < facts.folded_sheets().len(),
        ensures
            g.wf(),
            g.targets() == spec_name_targets(*facts, facts.names@.len() as int),
            forall|k: CellKey| #[trigger] g.lookup(k) == spec_formula_lookup(*facts, formulas@, formulas@.len() as int, k),
    {
        let mut g = DependencyGraph::new();
        let mut i: usize = 0;
        while i < facts.names.len()
            invariant
                facts.wf(),
                i <= facts.names@.len(),
                g.wf(),
                g.targets() == spec_name_targets(*facts, i as int),
                forall|k: CellKey| #[trigger] g.lookup(k) is None,
            decreases facts.names@.len() - i,
        {
            let nr = &facts.names[i];
            match resolve_name_ref(nr.reference.as_str(), facts) {
                Some(t) => {
                    g.set_name_target(simple_fold(nr.name.as_str()), t);
                },
                None => {},
            }
            i = i + 1;
        }
        let mut j: usize = 0;
        while j < formulas.len()
            invariant
                facts.wf(),
                forall|t: int| 0 <= t < formulas@.len() ==> #[trigger] formulas@[t].sheet < facts.folded_sheets().len(),
                j <= formulas@.len(),
                g.wf(),
                g.targets() == spec_name_targets(*facts, facts.names@.len() as int),
                forall|k: CellKey| #[trigger] g.lookup(k) == spec_formula_lookup(*facts, formulas@, j as int, k),
            decreases formulas@.len() - j,
        {
            let f = &formulas[j];
            let own = facts.sheets.folded_name(f.sheet);
            let precs = precedents_of_cell(facts, f, own);
            let from = CellRef { sheet: string_of(own), addr: f.addr };
            g.insert_formula(from, precs);
            j = j + 1;
        }
        g
    }
}

/// A copy of a named range.
fn copy_named_range(n: &NamedRange) -> (r: NamedRange)
    ensures
        r == *n,
{
    NamedRange { name: n.name.clone(), reference: n.reference.clone() }
}

/// A copy of a table.
fn copy_table(t: &Table) -> (r: Table)
    ensures
        r == *t,
{
    Table { name: t.name.clone(), reference: t.reference.clone() }
}

impl WorkbookFacts {
    /// What resolution reads from workbook `wb`: its sheets, its named
    /// ranges and tables, and its text-valued cells (sheet by sheet, each in
    /// key order).
    pub fn of(wb: &crate::workbook::Workbook) -> (r: WorkbookFacts)
        requires
            wb.wf(),
        ensures
            r.wf(),
            r.sheets.names() == wb.sheet_names(),
            Seq::new(r.names@.len(), |i: int| crate::registry::name_entry(r.names@[i])) == wb.spec_registry().spec_names(),
            Seq::new(r.tables@.len(), |i: int| crate::registry::table_entry(r.tables@[i])) == wb.spec_registry().spec_tables(),
            forall|t: int| #![trigger r.texts@[t]]
                0 <= t < r.texts@.len() ==> {
                    let (tab, a, x) = r.texts@[t];
                    &&& tab < wb.spec_sheets().len()
                    &&& wb.spec_sheets()[tab as int]@.contains_key(a)
                    &&& wb.spec_sheets()[tab as int]@[a].spec_value() matches crate::value::CellValue::Text(y) && y@ == x@
                },
            forall|tab: int, a: Address|
                0 <= tab < wb.spec_sheets().len() && #[trigger] wb.spec_sheets()[tab]@.contains_key(a)
                    && wb.spec_sheets()[tab]@[a].spec_value() is Text ==> exists|t: int|
                    0 <= t < r.texts@.len() && r.texts@[t].0 == tab && r.texts@[t].1 == a,
    {
        let sheets = wb.sheets();
        let mut names: Vec<String> = Vec::new();
        let mut texts: Vec<(usize, Address, String)> = Vec::new();
        let mut i: usize = 0;
        while i < sheets.len()
            invariant
                wb.wf(),
                sheets@ == wb.spec_sheets(),
                i <= sheets@.len(),
                names@.len() == i,
                forall|k: int| 0 <= k < i ==> (#[trigger] names@[k])@ == wb.sheet_names()[k],
                forall|t: int| #![trigger texts@[t]]
                    0 <= t < texts@.len() ==> {
                        let (tab, a, x) = texts@[t];
                        &&& tab < i
                        &&& wb.spec_sheets()[tab as int]@.contains_key(a)
                        &&& wb.spec_sheets()[tab as int]@[a].spec_value() matches crate::value::CellValue::Text(y) && y@ == x@
                    },
                forall|tab: int, a: Address|
                    0 <= tab < i && #[trigger] wb.spec_sheets()[tab]@.contains_key(a) && wb.spec_sheets()[tab]@[a].spec_value() is Text
                        ==> exists|t: int| 0 <= t < texts@.len() && texts@[t].0 == tab && texts@[t].1 == a,
            decreases sheets@.len() - i,
        {
            let ws = &sheets[i];
            proof {
                assert(wb.spec_sheets()[i as int].wf());
            }
            names.push(string_of(ws.name()));
            let entries = ws.iter();
            let ghost start = texts@;
            let mut k: usize = 0;
            while k < entries.len()
                invariant
                    wb.wf(),
                    sheets@ == wb.spec_sheets(),
                    i < sheets@.len(),
                    *ws == wb.spec_sheets()[i as int],
                    k <= entries@.len(),
                    forall|e: int| 0 <= e < entries@.len() ==> (#[trigger] entries@[e]).0.wf() && ws@.contains_key(entries@[e].0)
                        && *entries@[e].1 == ws@[entries@[e].0],
                    forall|a: Address| #[trigger] ws@.contains_key(a) ==> exists|e: int| 0 <= e < entries@.len() && entries@[e].0 == a,
                    texts@.len() >= start.len(),
                    forall|t: int| 0 <= t < start.len() ==> #[trigger] texts@[t] == start[t],
                    forall|t: int| #![trigger texts@[t]]
                        0 <= t < texts@.len() ==> {
                            let (tab, a, x) = texts@[t];
                            &&& tab <= i
                            &&& wb.spec_sheets()[tab as int]@.contains_key(a)
                            &&& wb.spec_sheets()[tab as int]@[a].spec_value() matches crate::value::CellValue::Text(y) && y@ == x@
                        },
                    forall|t: int| start.len() <= t < texts@.len() ==> (#[trigger] texts@[t]).0 == i,
                    forall|e: int| 0 <= e < k && (#[trigger] entries@[e]).1.spec_value() is Text ==> exists|t: int|
                        0 <= t < texts@.len() && texts@[t].0 == i && texts@[t].1 == entries@[e].0,
                decreases entries@.len() - k,
            {
                let (a, c) = entries[k];
                match c.value() {
                    crate::value::CellValue::Text(x) => {
                        let ghost before = texts@;
                        texts.push((i, a, string_of(x.as_str())));
                        proof {
                            assert forall|e: int| 0 <= e < k + 1 && (#[trigger] entries@[e]).1.spec_value() is Text implies exists|t: int|
                                0 <= t < texts@.len() && texts@[t].0 == i && texts@[t].1 == entries@[e].0 by {
                                if e == k {
                                    assert(texts@[before.len() as int].1 == a);
                                } else {
                                    let t = choose|t: int| 0 <= t < before.len() && before[t].0 == i && before[t].1 == entries@[e].0;
                                    assert(texts@[t] == before[t]);
                                }
                            }
                        }
                    },
                    _ => {},
                }
                k = k + 1;
            }
            proof {
                assert forall|tab: int, a: Address|
                    0 <= tab < i + 1 && #[trigger] wb.spec_sheets()[tab]@.contains_key(a) && wb.spec_sheets()[tab]@[a].spec_value() is Text
                        implies exists|t: int| 0 <= t < texts@.len() && texts@[t].0 == tab && texts@[t].1 == a by {
                    if tab == i {
                        let e = choose|e: int| 0 <= e < entries@.len() && entries@[e].0 == a;
                        assert(entries@[e].1.spec_value() is Text);
                    } else {
                        let t = choose|t: int| 0 <= t < start.len() && start[t].0 == tab && start[t].1 == a;
                        assert(texts@[t] == start[t]);
                    }
                }
            }
            i = i + 1;
        }
        let index = SheetIndex::build(names.as_slice());
        proof {
            assert(Seq::new(names@.len(), |k: int| names@[k]@) =~= wb.sheet_names());
        }
        let ns = wb.names();
        let mut nv: Vec<NamedRange> = Vec::new();
        let mut j: usize = 0;
        while j < ns.len()
            invariant
                j <= ns@.len(),
                nv@ == ns@.take(j as int),
            decreases ns@.len() - j,
        {
            nv.push(copy_named_range(&ns[j]));
            proof {
                assert(ns@.take(j as int + 1) =~= ns@.take(j as int).push(ns@[j as int]));
            }
            j = j + 1;
        }
        let ts = wb.tables();
        let mut tv: Vec<Table> = Vec::new();
        let mut j: usize = 0;
        while j < ts.len()
            invariant
                j <= ts@.len(),
                tv@ == ts@.take(j as int),
            decreases ts@.len() - j,
        {
            tv.push(copy_table(&ts[j]));
            proof {
                assert(ts@.take(j as int + 1) =~= ts@.take(j as int).push(ts@[j as int]));
            }
            j = j + 1;
        }
        proof {
            assert(ns@.take(ns@.len() as int) =~= ns@);
            assert(ts@.take(ts@.len() as int) =~= ts@);
        }
        WorkbookFacts { sheets: index, names: nv, tables: tv, texts }
    }
}

} // verus!
