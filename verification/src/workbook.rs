//! A workbook: its engine flavor, fixed at creation, its worksheets in tab
//! order, its named ranges and tables, and its schema version. Sheets are
//! identified by name under simple case folding, and no two sheets share a
//! folded name.

use vstd::prelude::*;

use crate::address::Address;
use crate::casefold::folded;
use crate::cell::Cell;
use crate::document::{first_fold_match, texts};
use crate::error::{reports, ErrorKind, WorkbookError};
use crate::named_range::{EngineFlavor, NamedRange, Table};
use crate::registry::{
    dangling_refs_error, define_name_error, first_ref_problem, name_ref_problem, repointed, table_ref_problem, define_table_error, entry_names, folds_distinct, lemma_first_fold_match,
    name_entry, redefine_name_error, redefine_table_error, repointed_entries, sheet_index, table_entry, NameRegistry,
};
use crate::sheet_list::{check_insert_sheet, check_rename_sheet, insert_sheet_error, rename_sheet_check};
use crate::limits::{check_formula_limit, exceeds_cell_cap, MAX_CELLS_PER_WORKBOOK, MAX_FORMULA_LEN};
use crate::text::{decimal_digits, formula_too_long, push_str, string_of};
use crate::value::{check_value_limits, copy_value, lemma_same_value, same_value, value_limit_error, values_equal, CellValue};
use vstd::utf8::encode_utf8;
use crate::worksheet::Worksheet;
use crate::address::a1_text;
use crate::depgraph::{lemma_text_lt_trichotomy, text_lt};
use crate::grid_spills::{spec_spill_rect, StoredCell, StoredSheet};
use crate::depgraph::CellRef;
use crate::spill::{spill_rect, SpillRect};
use crate::caches::{CachedGraph, GraphCache};
use std::sync::Arc;

verus! {

/// An engine-locked spreadsheet workbook. The dependency-graph cache is no
/// part of the document: it is derived state kept between recalculations,
/// dropped by every mutation the graph could see.
#[derive(Debug)]
pub struct Workbook {
    engine: EngineFlavor,
    registry: NameRegistry,
    sheets: Vec<Worksheet>,
    version: String,
    graph_cache: GraphCache,
}

/// The document of `new` is that of `old`, and `new`'s graph cache is
/// `old`'s, emptied or not as `drop` says, its build count kept.
pub open spec fn cache_after(old: Workbook, new: Workbook, drop: bool) -> bool {
    &&& new.spec_graph_cache().spec_builds() == old.spec_graph_cache().spec_builds()
    &&& new.spec_graph_cache().spec_entry() == if drop {
        None
    } else {
        old.spec_graph_cache().spec_entry()
    }
}

/// The names of worksheets, in tab order.
pub open spec fn names_of(sheets: Seq<Worksheet>) -> Seq<Seq<char>> {
    sheets.map_values(|w: Worksheet| w.spec_name())
}

impl Workbook {
    /// The engine flavor every formula targets.
    pub closed spec fn spec_engine(self) -> EngineFlavor {
        self.engine
    }

    /// The schema version of the document.
    pub closed spec fn spec_version(self) -> Seq<char> {
        self.version@
    }

    /// The worksheets, in tab order.
    pub closed spec fn spec_sheets(self) -> Seq<Worksheet> {
        self.sheets@
    }

    /// The named ranges and tables.
    pub closed spec fn spec_registry(self) -> NameRegistry {
        self.registry
    }

    /// The dependency-graph cache.
    pub closed spec fn spec_graph_cache(self) -> GraphCache {
        self.graph_cache
    }

    /// The sheet names, in tab order.
    pub open spec fn sheet_names(self) -> Seq<Seq<char>> {
        names_of(self.spec_sheets())
    }

    /// Every sheet is well formed and no two sheets share a folded name.
    pub open spec fn wf(self) -> bool {
        &&& forall|i: int| 0 <= i < self.spec_sheets().len() ==> (#[trigger] self.spec_sheets()[i]).wf()
        &&& folds_distinct(self.sheet_names())
    }

    /// An empty workbook locked to `engine`, at the current schema version.
    pub fn new(engine: EngineFlavor) -> (w: Workbook)
        ensures
            w.wf(),
            w.spec_engine() == engine,
            w.spec_version() == "2"@,
            w.spec_sheets().len() == 0,
            w.spec_registry().spec_names().len() == 0,
            w.spec_registry().spec_tables().len() == 0,
            w.spec_graph_cache().spec_entry() is None,
            w.spec_graph_cache().spec_builds() == 0,
    {
        proof {
            reveal_strlit("2");
        }
        let w = Workbook {
            engine,
            registry: NameRegistry::new(),
            sheets: Vec::new(),
            version: string_of(crate::persist::SCHEMA_VERSION),
            graph_cache: GraphCache::new(),
        };
        assert(w.sheet_names() =~= Seq::<Seq<char>>::empty());
        w
    }

    /// The engine flavor every formula in this workbook targets.
    pub fn engine(&self) -> (e: EngineFlavor)
        ensures
            e == self.spec_engine(),
    {
        self.engine
    }

    /// The schema version of this workbook document.
    pub fn version(&self) -> (v: &str)
        ensures
            v@ == self.spec_version(),
    {
        self.version.as_str()
    }

    /// The worksheets, in tab order.
    pub fn sheets(&self) -> (s: &[Worksheet])
        ensures
            s@ == self.spec_sheets(),
    {
        self.sheets.as_slice()
    }

    /// The named ranges, in definition order.
    pub fn names(&self) -> (r: &[NamedRange])
        ensures
            Seq::new(r@.len(), |i: int| crate::registry::name_entry(r@[i])) == self.spec_registry().spec_names(),
    {
        self.registry.names()
    }

    /// The tables, in definition order.
    pub fn tables(&self) -> (r: &[Table])
        ensures
            Seq::new(r@.len(), |i: int| crate::registry::table_entry(r@[i])) == self.spec_registry().spec_tables(),
    {
        self.registry.tables()
    }

    /// The cached dependency graph and evaluation order, if the cache is
    /// warm.
    pub fn cached_graph_entry(&self) -> (r: Option<Arc<CachedGraph>>)
        ensures
            r == self.spec_graph_cache().spec_entry(),
    {
        self.graph_cache.get()
    }

    /// Records a freshly built graph as the cache entry, counting the build;
    /// the document is unchanged.
    pub fn store_cached_graph(&mut self, entry: Arc<CachedGraph>)
        requires
            old(self).spec_graph_cache().spec_builds() < u64::MAX,
        ensures
            final(self).spec_engine() == old(self).spec_engine(),
            final(self).spec_version() == old(self).spec_version(),
            final(self).spec_sheets() == old(self).spec_sheets(),
            final(self).spec_registry() == old(self).spec_registry(),
            final(self).spec_graph_cache().spec_entry() == Some(entry),
            final(self).spec_graph_cache().spec_builds() == old(self).spec_graph_cache().spec_builds() + 1,
    {
        self.graph_cache.store(entry);
    }

    /// Releases the cached dependency graph, if one is held; the document is
    /// unchanged and the next use rebuilds the graph.
    pub fn drop_derived_state(&mut self)
        ensures
            final(self).spec_engine() == old(self).spec_engine(),
            final(self).spec_version() == old(self).spec_version(),
            final(self).spec_sheets() == old(self).spec_sheets(),
            final(self).spec_registry() == old(self).spec_registry(),
            cache_after(*old(self), *final(self), true),
    {
        self.graph_cache.invalidate();
    }

    /// How many dependency graphs have been stored in the cache.
    pub fn graph_builds(&self) -> (n: u64)
        ensures
            n == self.spec_graph_cache().spec_builds(),
    {
        self.graph_cache.builds()
    }

    /// Whether the dependency-graph cache holds an entry.
    pub fn graph_cache_is_warm(&self) -> (b: bool)
        ensures
            b == self.spec_graph_cache().spec_entry() is Some,
    {
        self.graph_cache.is_warm()
    }

    /// The sheet names, in tab order.
    fn sheet_name_list(&self) -> (v: Vec<String>)
        ensures
            texts(v@) == self.sheet_names(),
    {
        let mut v: Vec<String> = Vec::new();
        let mut i: usize = 0;
        while i < self.sheets.len()
            invariant
                i <= self.sheets@.len(),
                texts(v@) == self.sheet_names().take(i as int),
            decreases self.sheets@.len() - i,
        {
            let n = string_of(self.sheets[i].name());
            let ghost before = v@;
            v.push(n);
            proof {
                assert(self.sheet_names()[i as int] == self.sheets@[i as int].spec_name());
                assert(texts(v@) =~= texts(before).push(n@));
                assert(texts(v@) =~= self.sheet_names().take(i as int + 1));
            }
            i = i + 1;
        }
        proof {
            assert(self.sheet_names().take(i as int) =~= self.sheet_names());
        }
        v
    }

    /// The tab position of the sheet named `name` (case-insensitive), or
    /// `None` if no sheet matches.
    pub fn sheet_index(&self, name: &str) -> (r: Option<usize>)
        ensures
            match r {
                Some(i) => first_fold_match(self.sheet_names(), folded(name@)) == i as int,
                None => first_fold_match(self.sheet_names(), folded(name@)) == -1,
            },
    {
        let names = self.sheet_name_list();
        sheet_index(names.as_slice(), name)
    }

    /// The worksheet named `name` (case-insensitive), or `None`.
    pub fn sheet(&self, name: &str) -> (r: Option<&Worksheet>)
        ensures
            match r {
                Some(w) => first_fold_match(self.sheet_names(), folded(name@)) >= 0 && *w == self.spec_sheets()[first_fold_match(
                    self.sheet_names(),
                    folded(name@),
                )],
                None => first_fold_match(self.sheet_names(), folded(name@)) == -1,
            },
    {
        match self.sheet_index(name) {
            Some(i) => {
                proof {
                    lemma_first_fold_match(self.sheet_names(), folded(name@));
                }
                Some(&self.sheets[i])
            },
            None => None,
        }
    }

    /// The authored cell at `addr` on the sheet named `sheet`
    /// (case-insensitive), or `None`. A spilled cell is not authored: read
    /// it with [`resolved`](Self::resolved).
    pub fn get(&self, sheet: &str, addr: Address) -> (r: Option<&Cell>)
        requires
            self.wf(),
            addr.wf(),
        ensures
            match r {
                Some(c) => {
                    let i = first_fold_match(self.sheet_names(), folded(sheet@));
                    i >= 0 && self.spec_sheets()[i]@.contains_key(addr) && *c == self.spec_sheets()[i]@[addr]
                },
                None => {
                    let i = first_fold_match(self.sheet_names(), folded(sheet@));
                    i < 0 || !self.spec_sheets()[i]@.contains_key(addr)
                },
            },
    {
        match self.sheet_index(sheet) {
            Some(i) => {
                proof {
                    lemma_first_fold_match(self.sheet_names(), folded(sheet@));
                }
                self.sheets[i].get(addr)
            },
            None => None,
        }
    }
}

/// Inserting a key whose fold no key has keeps the folds distinct.
proof fn lemma_insert_distinct(keys: Seq<Seq<char>>, p: int, k: Seq<char>)
    requires
        folds_distinct(keys),
        0 <= p <= keys.len(),
        forall|j: int| 0 <= j < keys.len() ==> folded(keys[j]) != folded(k),
    ensures
        folds_distinct(keys.insert(p, k)),
{
    let t = keys.insert(p, k);
    assert forall|i: int, j: int| 0 <= i < j < t.len() implies folded(#[trigger] t[i]) != folded(#[trigger] t[j]) by {
        if i < p && j == p {
            assert(t[i] == keys[i]);
        } else if i == p {
            assert(t[j] == keys[j - 1]);
        } else if j < p {
            assert(t[i] == keys[i] && t[j] == keys[j]);
        } else if i < p {
            assert(t[i] == keys[i] && t[j] == keys[j - 1]);
        } else {
            assert(t[i] == keys[i - 1] && t[j] == keys[j - 1]);
        }
    }
}

/// Removing a key keeps the folds distinct.
proof fn lemma_remove_distinct(keys: Seq<Seq<char>>, p: int)
    requires
        folds_distinct(keys),
        0 <= p < keys.len(),
    ensures
        folds_distinct(keys.remove(p)),
        forall|j: int| 0 <= j < keys.remove(p).len() ==> folded(#[trigger] keys.remove(p)[j]) != folded(keys[p]),
{
    let t = keys.remove(p);
    assert forall|i: int, j: int| 0 <= i < j < t.len() implies folded(#[trigger] t[i]) != folded(#[trigger] t[j]) by {
        if j < p {
            assert(t[i] == keys[i] && t[j] == keys[j]);
        } else if i < p {
            assert(t[i] == keys[i] && t[j] == keys[j + 1]);
        } else {
            assert(t[i] == keys[i + 1] && t[j] == keys[j + 1]);
        }
    }
    assert forall|j: int| 0 <= j < t.len() implies folded(#[trigger] t[j]) != folded(keys[p]) by {
        if j < p {
            assert(t[j] == keys[j]);
        } else {
            assert(t[j] == keys[j + 1]);
        }
    }
}

/// Replacing key `p` by one whose fold no other key has keeps the folds
/// distinct.
proof fn lemma_update_distinct(keys: Seq<Seq<char>>, p: int, k: Seq<char>)
    requires
        folds_distinct(keys),
        0 <= p < keys.len(),
        forall|j: int| 0 <= j < keys.len() && j != p ==> folded(keys[j]) != folded(k),
    ensures
        folds_distinct(keys.update(p, k)),
{
    let t = keys.update(p, k);
    assert forall|i: int, j: int| 0 <= i < j < t.len() implies folded(#[trigger] t[i]) != folded(#[trigger] t[j]) by {
        if i != p && j != p {
            assert(t[i] == keys[i] && t[j] == keys[j]);
        }
    }
}

/// The number of populated cells across `sheets`.
pub open spec fn total_of(sheets: Seq<Worksheet>) -> nat
    decreases sheets.len(),
{
    if sheets.len() == 0 {
        0
    } else {
        total_of(sheets.drop_last()) + sheets.last()@.len()
    }
}

impl Workbook {
    /// Inserts `sheet` at tab position `index`, shifting later tabs right
    /// (`index == sheets().len()` appends). Refused at the sheet cap, for a
    /// position past the end, for an empty or over-long name, and for a name
    /// that collides with an existing sheet under simple case folding.
    pub fn insert_sheet(&mut self, index: usize, sheet: Worksheet) -> (r: Result<(), WorkbookError>)
        requires
            old(self).wf(),
            sheet.wf(),
        ensures
            cache_after(*old(self), *final(self), r is Ok),
            final(self).wf(),
            final(self).spec_engine() == old(self).spec_engine(),
            final(self).spec_version() == old(self).spec_version(),
            final(self).spec_registry() == old(self).spec_registry(),
            match r {
                Ok(()) => insert_sheet_error(old(self).sheet_names(), index as int, sheet.spec_name()) is None
                    && final(self).spec_sheets() == old(self).spec_sheets().insert(index as int, sheet),
                Err(e) => insert_sheet_error(old(self).sheet_names(), index as int, sheet.spec_name()) matches Some(f)
                    && reports(e, f) && final(self).spec_sheets() == old(self).spec_sheets(),
            },
    {
        let names = self.sheet_name_list();
        match check_insert_sheet(names.as_slice(), index, sheet.name()) {
            Ok(()) => {},
            Err(e) => {
                return Err(e);
            },
        }
        proof {
            lemma_first_fold_match(self.sheet_names(), folded(sheet.spec_name()));
            lemma_insert_distinct(self.sheet_names(), index as int, sheet.spec_name());
        }
        let ghost before = self.sheets@;
        self.graph_cache.invalidate();
        self.sheets.insert(index, sheet);
        proof {
            assert(names_of(self.sheets@) =~= names_of(before).insert(index as int, sheet.spec_name()));
            assert forall|i: int| 0 <= i < self.sheets@.len() implies (#[trigger] self.sheets@[i]).wf() by {
                if i < index {
                    assert(self.sheets@[i] == before[i]);
                } else if i > index {
                    assert(self.sheets@[i] == before[i - 1]);
                }
            }
        }
        Ok(())
    }

    /// Appends `sheet` after the last tab and returns its tab position;
    /// refused as [`insert_sheet`](Self::insert_sheet) refuses.
    pub fn add_sheet(&mut self, sheet: Worksheet) -> (r: Result<usize, WorkbookError>)
        requires
            old(self).wf(),
            sheet.wf(),
        ensures
            cache_after(*old(self), *final(self), r is Ok),
            final(self).wf(),
            final(self).spec_engine() == old(self).spec_engine(),
            final(self).spec_version() == old(self).spec_version(),
            final(self).spec_registry() == old(self).spec_registry(),
            match r {
                Ok(i) => i == old(self).spec_sheets().len() && insert_sheet_error(
                    old(self).sheet_names(),
                    i as int,
                    sheet.spec_name(),
                ) is None && final(self).spec_sheets() == old(self).spec_sheets().push(sheet),
                Err(e) => insert_sheet_error(
                    old(self).sheet_names(),
                    old(self).spec_sheets().len() as int,
                    sheet.spec_name(),
                ) matches Some(f) && reports(e, f) && final(self).spec_sheets() == old(self).spec_sheets(),
            },
    {
        let pos = self.sheets.len();
        let ghost before = self.sheets@;
        match self.insert_sheet(pos, sheet) {
            Ok(()) => {
                proof {
                    assert(before.insert(pos as int, sheet) =~= before.push(sheet));
                }
                Ok(pos)
            },
            Err(e) => Err(e),
        }
    }

    /// Removes and returns the sheet named `name` (case-insensitive),
    /// shifting later tabs left, or `None` if no sheet matches. A named range
    /// or table may be left pointing at the removed sheet; saving reports
    /// it.
    pub fn remove_sheet(&mut self, name: &str) -> (r: Option<Worksheet>)
        requires
            old(self).wf(),
        ensures
            cache_after(*old(self), *final(self), r is Some),
            final(self).wf(),
            final(self).spec_engine() == old(self).spec_engine(),
            final(self).spec_version() == old(self).spec_version(),
            final(self).spec_registry() == old(self).spec_registry(),
            match r {
                Some(w) => {
                    let i = first_fold_match(old(self).sheet_names(), folded(name@));
                    0 <= i < old(self).spec_sheets().len() && w == old(self).spec_sheets()[i]
                        && final(self).spec_sheets() == old(self).spec_sheets().remove(i)
                },
                None => first_fold_match(old(self).sheet_names(), folded(name@)) == -1 && final(self).spec_sheets()
                    == old(self).spec_sheets(),
            },
    {
        let i = match self.sheet_index(name) {
            Some(i) => i,
            None => return None,
        };
        proof {
            lemma_first_fold_match(self.sheet_names(), folded(name@));
            lemma_remove_distinct(self.sheet_names(), i as int);
        }
        let ghost before = self.sheets@;
        self.graph_cache.invalidate();
        let w = self.sheets.remove(i);
        proof {
            assert(names_of(self.sheets@) =~= names_of(before).remove(i as int));
            assert forall|j: int| 0 <= j < self.sheets@.len() implies (#[trigger] self.sheets@[j]).wf() by {
                if j < i {
                    assert(self.sheets@[j] == before[j]);
                } else {
                    assert(self.sheets@[j] == before[j + 1]);
                }
            }
        }
        Some(w)
    }

    /// Moves the sheet at tab position `from` to position `to`, shifting the
    /// sheets in between. Refused when either position is out of range.
    pub fn move_sheet(&mut self, from: usize, to: usize) -> (r: Result<(), WorkbookError>)
        requires
            old(self).wf(),
        ensures
            cache_after(*old(self), *final(self), r is Ok),
            final(self).wf(),
            final(self).spec_engine() == old(self).spec_engine(),
            final(self).spec_version() == old(self).spec_version(),
            final(self).spec_registry() == old(self).spec_registry(),
            r is Ok <==> (from < old(self).spec_sheets().len() && to < old(self).spec_sheets().len()),
            match r {
                Ok(()) => final(self).spec_sheets() == old(self).spec_sheets().remove(from as int).insert(
                    to as int,
                    old(self).spec_sheets()[from as int],
                ),
                Err(e) => reports(
                    e,
                    (
                        ErrorKind::SheetManagement,
                        crate::sheet_list::bad_move_message(from as int, to as int, old(self).spec_sheets().len() as int),
                    ),
                ) && final(self).spec_sheets() == old(self).spec_sheets(),
            },
    {
        let ghost before = self.sheets@;
        let r = crate::sheet_list::move_sheet(&mut self.sheets, from, to);
        if r.is_ok() {
            self.graph_cache.invalidate();
        }
        proof {
            if r is Ok {
                let keys = names_of(before);
                lemma_remove_distinct(keys, from as int);
                lemma_insert_distinct(keys.remove(from as int), to as int, keys[from as int]);
                let mid = before.remove(from as int);
                assert(names_of(mid) =~= keys.remove(from as int));
                assert(names_of(self.sheets@) =~= keys.remove(from as int).insert(to as int, keys[from as int]));
                assert forall|t: int| 0 <= t < mid.len() implies (#[trigger] mid[t]).wf() by {
                    if t < from {
                        assert(mid[t] == before[t]);
                    } else {
                        assert(mid[t] == before[t + 1]);
                    }
                }
                assert forall|j: int| 0 <= j < self.sheets@.len() implies (#[trigger] self.sheets@[j]).wf() by {
                    if j < to {
                        assert(self.sheets@[j] == mid[j]);
                    } else if j > to {
                        assert(self.sheets@[j] == mid[j - 1]);
                    }
                }
            }
        }
        r
    }

    /// The number of populated cells across every sheet (at most
    /// `usize::MAX`).
    pub fn total_cells(&self) -> (n: usize)
        requires
            self.wf(),
        ensures
            n == (if total_of(self.spec_sheets()) > usize::MAX { usize::MAX as nat } else { total_of(self.spec_sheets()) }),
    {
        let mut n: usize = 0;
        let mut i: usize = 0;
        while i < self.sheets.len()
            invariant
                self.wf(),
                i <= self.sheets@.len(),
                n == (if total_of(self.sheets@.take(i as int)) > usize::MAX { usize::MAX as nat } else { total_of(
                    self.sheets@.take(i as int),
                ) }),
            decreases self.sheets@.len() - i,
        {
            let len = self.sheets[i].len();
            proof {
                assert(self.sheets@.take(i as int + 1).drop_last() =~= self.sheets@.take(i as int));
                assert(self.sheets@.take(i as int + 1).last() == self.sheets@[i as int]);
            }
            n = n.saturating_add(len);
            i = i + 1;
        }
        proof {
            assert(self.sheets@.take(i as int) =~= self.sheets@);
        }
        n
    }
}

/// One cell whose value a recalculation changed: its sheet (authored
/// spelling), its address, and its value before and after.
#[derive(Debug, PartialEq)]
pub struct Change {
    pub sheet: String,
    pub addr: Address,
    pub old: CellValue,
    pub new: CellValue,
}

/// The tab of the sheet whose folded name is `key`, or `-1`.
pub open spec fn tab_of(wb: Workbook, key: Seq<char>) -> int {
    first_fold_match(wb.sheet_names(), key)
}

/// The value at `a` on tab `tab`: the cell's value, or the empty value
/// where no cell is.
pub open spec fn value_at(wb: Workbook, tab: int, a: Address) -> CellValue {
    if wb.spec_sheets()[tab]@.contains_key(a) {
        wb.spec_sheets()[tab]@[a].spec_value()
    } else {
        CellValue::Empty
    }
}

/// Cell `(t1, a1)` comes before cell `(t2, a2)`: by tab, then row, then
/// column.
pub open spec fn position_before(t1: int, a1: Address, t2: int, a2: Address) -> bool {
    ||| t1 < t2
    ||| t1 == t2 && a1.row < a2.row
    ||| t1 == t2 && a1.row == a2.row && a1.column < a2.column
}

/// The tab of the sheet change `c` names.
pub open spec fn change_tab(wb: Workbook, c: Change) -> int {
    first_fold_match(wb.sheet_names(), folded(c.sheet@))
}

/// Change `c` reports that the cell at `a` on tab `tab` went from `old` to
/// `new`.
pub open spec fn reports_change(wb: Workbook, c: Change, x: (int, Address, CellValue, CellValue)) -> bool {
    &&& 0 <= x.0 < wb.spec_sheets().len()
    &&& c.sheet@ == wb.sheet_names()[x.0]
    &&& c.addr == x.1
    &&& same_value(c.old, x.2)
    &&& same_value(c.new, x.3)
}

/// `changes` holds one change for each of the first `n` entries that
/// `found` reports (tab, address, old value, new value) for, and nothing
/// else, ascending by tab, row and column.
pub open spec fn lists_changes(
    wb: Workbook,
    found: spec_fn(int) -> Option<(int, Address, CellValue, CellValue)>,
    n: int,
    changes: Seq<Change>,
) -> bool {
    &&& forall|t: int| 0 <= t < changes.len() ==> reported_by(wb, found, n, #[trigger] changes[t])
    &&& forall|k: int| 0 <= k < n && #[trigger] found(k) is Some ==> exists|t: int|
        0 <= t < changes.len() && reports_change(wb, changes[t], found(k)->0)
    &&& forall|t: int, u: int|
        0 <= t < u < changes.len() ==> position_before(
            change_tab(wb, #[trigger] changes[t]),
            changes[t].addr,
            change_tab(wb, #[trigger] changes[u]),
            changes[u].addr,
        )
}

/// Change `c` is what one of the first `n` entries that `found` reports.
pub open spec fn reported_by(
    wb: Workbook,
    found: spec_fn(int) -> Option<(int, Address, CellValue, CellValue)>,
    n: int,
    c: Change,
) -> bool {
    exists|k: int| 0 <= k < n && #[trigger] found(k) is Some && reports_change(wb, c, found(k)->0)
}

/// No two entries name the same cell.
pub open spec fn distinct_cells(entries: Seq<(CellRef, CellValue)>) -> bool {
    forall|i: int, j: int| 0 <= i < j < entries.len() ==> (#[trigger] entries[i]).0@ != (#[trigger] entries[j]).0@
}

/// What the snapshot entry `k` reports: where its sheet exists and its
/// value differs from the cell's current value, the tab, address, snapshot
/// value and current value.
pub open spec fn snapshot_change(wb: Workbook, snapshot: Seq<(CellRef, CellValue)>, k: int) -> Option<
    (int, Address, CellValue, CellValue),
> {
    let t = tab_of(wb, snapshot[k].0.sheet@);
    let a = snapshot[k].0.addr;
    if t < 0 || same_value(snapshot[k].1, value_at(wb, t, a)) {
        None
    } else {
        Some((t, a, snapshot[k].1, value_at(wb, t, a)))
    }
}

/// What the result entry `k` reports: where its sheet exists and the new
/// value differs from the cell's value, the tab, address, old value and new
/// value.
pub open spec fn result_change(wb: Workbook, results: Seq<(CellRef, CellValue)>, k: int) -> Option<
    (int, Address, CellValue, CellValue),
> {
    let t = tab_of(wb, results[k].0.sheet@);
    let a = results[k].0.addr;
    if t < 0 || same_value(value_at(wb, t, a), results[k].1) {
        None
    } else {
        Some((t, a, value_at(wb, t, a), results[k].1))
    }
}

/// Pairs ascending by tab, row and column.
pub open spec fn pairs_sorted(v: Seq<(usize, Change)>) -> bool {
    forall|i: int, j: int| 0 <= i < j < v.len() ==> position_before(
        (#[trigger] v[i]).0 as int,
        v[i].1.addr,
        (#[trigger] v[j]).0 as int,
        v[j].1.addr,
    )
}

/// Whether cell `(t1, a1)` comes before cell `(t2, a2)`.
fn pos_before(t1: usize, a1: Address, t2: usize, a2: Address) -> (b: bool)
    ensures
        b == position_before(t1 as int, a1, t2 as int, a2),
{
    t1 < t2 || (t1 == t2 && a1.row < a2.row) || (t1 == t2 && a1.row == a2.row && a1.column < a2.column)
}

/// Inserts `(tab, c)` at its place in the sorted list `v`, whose entries
/// all sit at other positions.
fn insert_change(v: &mut Vec<(usize, Change)>, tab: usize, c: Change) -> (p: usize)
    requires
        pairs_sorted(old(v)@),
        forall|i: int| 0 <= i < old(v)@.len() ==> !((#[trigger] old(v)@[i]).0 == tab && old(v)@[i].1.addr == c.addr),
    ensures
        pairs_sorted(final(v)@),
        p <= old(v)@.len(),
        final(v)@ == old(v)@.insert(p as int, (tab, c)),
{
    let mut p: usize = 0;
    while p < v.len() && pos_before(v[p].0, v[p].1.addr, tab, c.addr)
        invariant
            p <= v@.len(),
            v@ == old(v)@,
            pairs_sorted(v@),
            forall|i: int| 0 <= i < p ==> position_before((#[trigger] v@[i]).0 as int, v@[i].1.addr, tab as int, c.addr),
        decreases v@.len() - p,
    {
        p = p + 1;
    }
    let ghost before = v@;
    let ghost x = (tab, c);
    proof {
        assert forall|i: int| p <= i < before.len() implies position_before(tab as int, c.addr, (#[trigger] before[i]).0 as int, before[i].1.addr) by {
            assert(!position_before(before[p as int].0 as int, before[p as int].1.addr, tab as int, c.addr));
            assert(!(before[p as int].0 == tab && before[p as int].1.addr == c.addr));
            if i > p {
                assert(position_before(before[p as int].0 as int, before[p as int].1.addr, before[i].0 as int, before[i].1.addr));
            }
        }
    }
    v.insert(p, (tab, c));
    proof {
        assert(v@ == before.insert(p as int, x));
        assert forall|i: int, j: int| 0 <= i < j < v@.len() implies position_before(
            (#[trigger] v@[i]).0 as int,
            v@[i].1.addr,
            (#[trigger] v@[j]).0 as int,
            v@[j].1.addr,
        ) by {
            if j < p {
            } else if j == p {
                assert(v@[i] == before[i]);
            } else if i < p {
                assert(v@[i] == before[i] && v@[j] == before[j - 1]);
                assert(position_before(before[i].0 as int, before[i].1.addr, tab as int, c.addr));
                assert(position_before(tab as int, c.addr, before[j - 1].0 as int, before[j - 1].1.addr));
            } else if i == p {
                assert(v@[j] == before[j - 1]);
            } else {
                assert(v@[i] == before[i - 1] && v@[j] == before[j - 1]);
            }
        }
    }
    p
}

/// The changes of `v`, in order, without their tabs.
fn strip_tabs(v: Vec<(usize, Change)>) -> (r: Vec<Change>)
    ensures
        r@.len() == v@.len(),
        forall|i: int| 0 <= i < v@.len() ==> #[trigger] r@[i] == v@[i].1,
{
    let mut v = v;
    let ghost orig = v@;
    let mut rev: Vec<Change> = Vec::new();
    while v.len() > 0
        invariant
            v@ == orig.take(v@.len() as int),
            v@.len() + rev@.len() == orig.len(),
            forall|i: int| 0 <= i < rev@.len() ==> #[trigger] rev@[i] == orig[orig.len() - 1 - i].1,
        decreases v@.len(),
    {
        let ghost before = v@;
        let (_, c) = v.pop().unwrap();
        proof {
            assert(v@ =~= orig.take(v@.len() as int));
            assert(before.last() == orig[v@.len() as int]);
        }
        rev.push(c);
    }
    let mut r: Vec<Change> = Vec::new();
    while rev.len() > 0
        invariant
            rev@.len() + r@.len() == orig.len(),
            forall|i: int| 0 <= i < rev@.len() ==> #[trigger] rev@[i] == orig[orig.len() - 1 - i].1,
            forall|i: int| 0 <= i < r@.len() ==> #[trigger] r@[i] == orig[i].1,
        decreases rev@.len(),
    {
        let ghost before = rev@;
        let c = rev.pop().unwrap();
        proof {
            assert(c == before[before.len() - 1]);
        }
        r.push(c);
    }
    r
}

/// The tab whose sheet is named `names[t]` is found again by that name's
/// fold, when no two names share a fold.
proof fn lemma_tab_of_name(names: Seq<Seq<char>>, t: int)
    requires
        folds_distinct(names),
        0 <= t < names.len(),
    ensures
        first_fold_match(names, folded(names[t])) == t,
{
    lemma_first_fold_match(names, folded(names[t]));
    let m = first_fold_match(names, folded(names[t]));
    if m != t && m >= 0 {
        if m < t {
            assert(folded(names[m]) != folded(names[t]));
        }
    }
}

/// Two entries found at the same tab and address name the same cell.
proof fn lemma_same_position(wb: Workbook, a: CellRef, b: CellRef)
    requires
        tab_of(wb, a.sheet@) >= 0,
        tab_of(wb, a.sheet@) == tab_of(wb, b.sheet@),
        a.addr == b.addr,
    ensures
        a@ == b@,
{
    lemma_first_fold_match(wb.sheet_names(), a.sheet@);
    lemma_first_fold_match(wb.sheet_names(), b.sheet@);
}

/// What `found` reports of entry `k` is at the entry's own tab and address.
pub open spec fn found_at_entries(
    wb: Workbook,
    entries: Seq<(CellRef, CellValue)>,
    found: spec_fn(int) -> Option<(int, Address, CellValue, CellValue)>,
) -> bool {
    forall|k: int| #![trigger found(k)]
        0 <= k < entries.len() ==> (found(k) matches Some(x) ==> x.0 == tab_of(wb, entries[k].0.sheet@) && x.1
            == entries[k].0.addr)
}

/// The sorted pairs `acc` hold one change, with its tab, for each of the
/// first `n` entries that `found` reports, and nothing else: pair `t` is
/// the change of entry `ks[t]`.
pub open spec fn acc_ok(
    wb: Workbook,
    found: spec_fn(int) -> Option<(int, Address, CellValue, CellValue)>,
    n: int,
    acc: Seq<(usize, Change)>,
    ks: Seq<int>,
) -> bool {
    &&& pairs_sorted(acc)
    &&& ks.len() == acc.len()
    &&& forall|t: int| #![trigger ks[t]]
        0 <= t < acc.len() ==> {
            &&& 0 <= ks[t] < n
            &&& found(ks[t]) is Some
            &&& quad_tab(found(ks[t])->0) == acc[t].0
            &&& reports_change(wb, acc[t].1, found(ks[t])->0)
        }
    &&& forall|k: int| 0 <= k < n && #[trigger] found(k) is Some ==> exists|t: int| 0 <= t < acc.len() && #[trigger] ks[t] == k
}

/// The tab of a reported change.
pub open spec fn quad_tab(x: (int, Address, CellValue, CellValue)) -> int {
    x.0
}

/// No pair sits where the next reported entry's change goes.
proof fn lemma_acc_fresh(
    wb: Workbook,
    entries: Seq<(CellRef, CellValue)>,
    found: spec_fn(int) -> Option<(int, Address, CellValue, CellValue)>,
    n: int,
    acc: Seq<(usize, Change)>,
    ks: Seq<int>,
    t: int,
    a: Address,
)
    requires
        acc_ok(wb, found, n, acc, ks),
        found_at_entries(wb, entries, found),
        distinct_cells(entries),
        0 <= n < entries.len(),
        found(n) matches Some(x) && x.0 == t && x.1 == a,
        t >= 0,
    ensures
        forall|u: int| 0 <= u < acc.len() ==> !((#[trigger] acc[u]).0 == t && acc[u].1.addr == a),
{
    assert forall|u: int| 0 <= u < acc.len() implies !((#[trigger] acc[u]).0 == t && acc[u].1.addr == a) by {
        if acc[u].0 == t && acc[u].1.addr == a {
            let k = ks[u];
            assert(found(k) is Some);
            lemma_same_position(wb, entries[k].0, entries[n].0);
        }
    }
}

/// The pairs of all `n` entries, their tabs dropped, list the changes.
proof fn lemma_acc_done(
    wb: Workbook,
    found: spec_fn(int) -> Option<(int, Address, CellValue, CellValue)>,
    n: int,
    pairs: Seq<(usize, Change)>,
    ks: Seq<int>,
    r: Seq<Change>,
)
    requires
        wb.wf(),
        acc_ok(wb, found, n, pairs, ks),
        r.len() == pairs.len(),
        forall|i: int| 0 <= i < pairs.len() ==> #[trigger] r[i] == pairs[i].1,
    ensures
        lists_changes(wb, found, n, r),
{
    assert forall|u: int| 0 <= u < pairs.len() implies change_tab(wb, #[trigger] r[u]) == pairs[u].0 by {
        assert(ks[u] == ks[u]);
        assert(reports_change(wb, pairs[u].1, found(ks[u])->0));
        assert(wb.sheet_names().len() == wb.spec_sheets().len());
        assert(r[u] == pairs[u].1);
        lemma_tab_of_name(wb.sheet_names(), pairs[u].0 as int);
    }
    assert forall|t: int| 0 <= t < r.len() implies reported_by(wb, found, n, #[trigger] r[t]) by {
        assert(r[t] == pairs[t].1);
        let k = ks[t];
        assert(0 <= k < n && found(k) is Some && reports_change(wb, r[t], found(k)->0));
    }
    assert forall|k: int| 0 <= k < n && #[trigger] found(k) is Some implies exists|t: int|
        0 <= t < r.len() && reports_change(wb, r[t], found(k)->0) by {
        let w = choose|w: int| 0 <= w < pairs.len() && #[trigger] ks[w] == k;
        assert(r[w] == pairs[w].1);
        assert(reports_change(wb, r[w], found(k)->0));
    }
    assert forall|t: int, u: int| 0 <= t < u < r.len() implies position_before(
        change_tab(wb, #[trigger] r[t]),
        r[t].addr,
        change_tab(wb, #[trigger] r[u]),
        r[u].addr,
    ) by {
        assert(r[t] == pairs[t].1 && r[u] == pairs[u].1);
        assert(change_tab(wb, r[t]) == pairs[t].0 && change_tab(wb, r[u]) == pairs[u].0);
    }
}

/// Inserting the change the next entry reports at position `p` keeps the
/// pairs in order.
proof fn lemma_acc_insert(
    wb: Workbook,
    found: spec_fn(int) -> Option<(int, Address, CellValue, CellValue)>,
    n: int,
    accb: Seq<(usize, Change)>,
    kb: Seq<int>,
    acc: Seq<(usize, Change)>,
    ks: Seq<int>,
    p: int,
)
    requires
        acc_ok(wb, found, n, accb, kb),
        0 <= n,
        0 <= p <= accb.len(),
        acc.len() == accb.len() + 1,
        acc == accb.insert(p, acc[p]),
        ks == kb.insert(p, n),
        pairs_sorted(acc),
        found(n) is Some,
        quad_tab(found(n)->0) == acc[p].0,
        reports_change(wb, acc[p].1, found(n)->0),
    ensures
        acc_ok(wb, found, n + 1, acc, ks),
{
    assert forall|k: int| 0 <= k < n + 1 && #[trigger] found(k) is Some implies exists|u: int|
        0 <= u < acc.len() && #[trigger] ks[u] == k by {
        if k == n {
            assert(ks[p] == k);
        } else {
            let w = choose|w: int| 0 <= w < accb.len() && #[trigger] kb[w] == k;
            if w < p {
                assert(ks[w] == k);
            } else {
                assert(ks[w + 1] == k);
            }
        }
    }
    assert forall|u: int| #![trigger ks[u]] 0 <= u < acc.len() implies {
        &&& 0 <= ks[u] < n + 1
        &&& found(ks[u]) is Some
        &&& quad_tab(found(ks[u])->0) == acc[u].0
        &&& reports_change(wb, acc[u].1, found(ks[u])->0)
    } by {
        assert(acc.len() == accb.len() + 1);
        if u < p {
            assert(ks[u] == kb[u] && acc[u] == accb[u]);
            assert(0 <= kb[u] < n);
        } else if u > p {
            assert(ks[u] == kb[u - 1] && acc[u] == accb[u - 1]);
            assert(0 <= kb[u - 1] < n);
        } else {
            assert(ks[u] == n);
        }
    }
}

/// The cell the next entry names is still as it was: no earlier entry names
/// it.
proof fn lemma_result_cell_untouched(cur: Workbook, orig: Workbook, results: Seq<(CellRef, CellValue)>, i: int, t: int)
    requires
        distinct_cells(results),
        0 <= i < results.len(),
        tab_of(orig, results[i].0.sheet@) == t,
        0 <= t < orig.spec_sheets().len(),
        results_written(orig.spec_sheets()[t]@, cur.spec_sheets()[t]@, orig, results, i, t),
    ensures
        cur.spec_sheets()[t]@.contains_key(results[i].0.addr) == orig.spec_sheets()[t]@.contains_key(results[i].0.addr),
        orig.spec_sheets()[t]@.contains_key(results[i].0.addr) ==> cur.spec_sheets()[t]@[results[i].0.addr]
            == orig.spec_sheets()[t]@[results[i].0.addr],
        value_at(cur, t, results[i].0.addr) == value_at(orig, t, results[i].0.addr),
{
    let a = results[i].0.addr;
    lemma_last_result(orig, results, i, t, a);
    if last_result(orig, results, i, t, a) is Some {
        let k = last_result(orig, results, i, t, a)->0;
        lemma_same_position(orig, results[k].0, results[i].0);
    }
    if orig.spec_sheets()[t]@.contains_key(a) {
        assert(orig.spec_sheets()[t]@.contains_key(a));
    }
}

/// An entry that writes nothing back leaves every cell as it was.
proof fn lemma_skip_result(cur: Workbook, orig: Workbook, results: Seq<(CellRef, CellValue)>, i: int, t: int)
    requires
        distinct_cells(results),
        0 <= i < results.len(),
        tab_of(orig, results[i].0.sheet@) == t,
        0 <= t < orig.spec_sheets().len(),
        cur.spec_sheets().len() == orig.spec_sheets().len(),
        forall|j: int| 0 <= j < orig.spec_sheets().len() ==> results_written(
            #[trigger] orig.spec_sheets()[j]@,
            cur.spec_sheets()[j]@,
            orig,
            results,
            i,
            j,
        ),
        !(orig.spec_sheets()[t]@.contains_key(results[i].0.addr) && orig.spec_sheets()[t]@[results[i].0.addr].formula_text() is Some
            && !same_value(orig.spec_sheets()[t]@[results[i].0.addr].spec_value(), results[i].1)),
    ensures
        forall|j: int| 0 <= j < orig.spec_sheets().len() ==> results_written(
            #[trigger] orig.spec_sheets()[j]@,
            cur.spec_sheets()[j]@,
            orig,
            results,
            i + 1,
            j,
        ),
{
    let a = results[i].0.addr;
    lemma_result_cell_untouched(cur, orig, results, i, t);
    assert forall|j: int| 0 <= j < orig.spec_sheets().len() implies results_written(
        #[trigger] orig.spec_sheets()[j]@,
        cur.spec_sheets()[j]@,
        orig,
        results,
        i + 1,
        j,
    ) by {
        assert(results_written(orig.spec_sheets()[j]@, cur.spec_sheets()[j]@, orig, results, i, j));
        assert forall|b: Address| #[trigger] orig.spec_sheets()[j]@.contains_key(b) implies {
            match last_result(orig, results, i + 1, j, b) {
                Some(k) => if orig.spec_sheets()[j]@[b].formula_text() is Some && !same_value(
                    orig.spec_sheets()[j]@[b].spec_value(),
                    results[k].1,
                ) {
                    cur.spec_sheets()[j]@[b].formula_text() == orig.spec_sheets()[j]@[b].formula_text() && same_value(
                        cur.spec_sheets()[j]@[b].spec_value(),
                        results[k].1,
                    )
                } else {
                    cur.spec_sheets()[j]@[b] == orig.spec_sheets()[j]@[b]
                },
                None => cur.spec_sheets()[j]@[b] == orig.spec_sheets()[j]@[b],
            }
        } by {
            if j == t && b == a {
                assert(last_result(orig, results, i + 1, j, b) == Some(i));
            } else {
                assert(last_result(orig, results, i + 1, j, b) == last_result(orig, results, i, j, b));
            }
        }
    }
}

impl Workbook {
    /// Writes entry `i`'s value into the formula cell it names at `addr` on
    /// tab `t`, keeping the formula, and drops the graph cache.
    fn write_result(
        &mut self,
        t: usize,
        addr: Address,
        nv: &CellValue,
        orig: Ghost<Workbook>,
        results: Ghost<Seq<(CellRef, CellValue)>>,
        i: Ghost<int>,
    )
        requires
            old(self).wf(),
            distinct_cells(results@),
            0 <= i@ < results@.len(),
            *nv == results@[i@].1,
            results@[i@].0.addr == addr,
            tab_of(orig@, results@[i@].0.sheet@) == t,
            t < orig@.spec_sheets().len(),
            old(self).spec_sheets().len() == orig@.spec_sheets().len(),
            orig@.spec_sheets()[t as int]@.contains_key(addr),
            orig@.spec_sheets()[t as int]@[addr].formula_text() is Some,
            !same_value(orig@.spec_sheets()[t as int]@[addr].spec_value(), results@[i@].1),
            forall|j: int| 0 <= j < orig@.spec_sheets().len() ==> results_written(
                #[trigger] orig@.spec_sheets()[j]@,
                old(self).spec_sheets()[j]@,
                orig@,
                results@,
                i@,
                j,
            ),
        ensures
            final(self).wf(),
            final(self).engine == old(self).engine,
            final(self).version == old(self).version,
            final(self).registry == old(self).registry,
            final(self).graph_cache.spec_builds() == old(self).graph_cache.spec_builds(),
            final(self).graph_cache.spec_entry() is None,
            final(self).sheets@.len() == old(self).sheets@.len(),
            names_of(final(self).sheets@) == names_of(old(self).sheets@),
            forall|j: int| 0 <= j < orig@.spec_sheets().len() ==> results_written(
                #[trigger] orig@.spec_sheets()[j]@,
                final(self).spec_sheets()[j]@,
                orig@,
                results@,
                i@ + 1,
                j,
            ),
    {
        proof {
            lemma_result_cell_untouched(*self, orig@, results@, i@, t as int);
            assert(self.spec_sheets()[t as int].wf());
            orig@.spec_sheets()[t as int].lemma_addresses_wf(addr);
        }
        self.graph_cache.invalidate();
        let ghost before = self.sheets@;
        let mut w = self.sheets.remove(t);
        let ghost wb = w;
        match w.clear(addr) {
            Some(mut cell) => {
                cell.set_value(copy_value(nv));
                w.set(addr, cell);
            },
            None => {},
        }
        self.sheets.insert(t, w);
        proof {
            assert(wb@.contains_key(addr));
            assert(w@ =~= wb@.remove(addr).insert(addr, w@[addr]));
            assert(self.sheets@ =~= before.update(t as int, w));
            assert(names_of(self.sheets@) =~= names_of(before));
            assert forall|j: int| 0 <= j < self.sheets@.len() implies (#[trigger] self.sheets@[j]).wf() by {
                if j != t {
                    assert(self.sheets@[j] == before[j]);
                }
            }
            let o = orig@;
            let rs = results@;
            assert forall|j: int| 0 <= j < o.spec_sheets().len() implies results_written(
                #[trigger] o.spec_sheets()[j]@,
                self.spec_sheets()[j]@,
                o,
                rs,
                i@ + 1,
                j,
            ) by {
                assert(results_written(o.spec_sheets()[j]@, before[j]@, o, rs, i@, j));
                if j != t {
                    assert(self.sheets@[j] == before[j]);
                    assert forall|b: Address| #[trigger] o.spec_sheets()[j]@.contains_key(b) implies last_result(o, rs, i@ + 1, j, b)
                        == last_result(o, rs, i@, j, b) by {}
                } else {
                    assert(self.sheets@[j] == w);
                    assert(w@.dom() =~= wb@.dom());
                    assert forall|b: Address| #[trigger] o.spec_sheets()[j]@.contains_key(b) implies {
                        match last_result(o, rs, i@ + 1, j, b) {
                            Some(k) => if o.spec_sheets()[j]@[b].formula_text() is Some && !same_value(
                                o.spec_sheets()[j]@[b].spec_value(),
                                rs[k].1,
                            ) {
                                w@[b].formula_text() == o.spec_sheets()[j]@[b].formula_text() && same_value(
                                    w@[b].spec_value(),
                                    rs[k].1,
                                )
                            } else {
                                w@[b] == o.spec_sheets()[j]@[b]
                            },
                            None => w@[b] == o.spec_sheets()[j]@[b],
                        }
                    } by {
                        if b == addr {
                            assert(last_result(o, rs, i@ + 1, j, b) == Some(i@));
                        } else {
                            assert(last_result(o, rs, i@ + 1, j, b) == last_result(o, rs, i@, j, b));
                        }
                    }
                }
            }
        }
    }
}

impl Workbook {
    /// The value at `addr` on tab `t`: the cell's value, or the empty value
    /// where no cell is; and whether that cell holds a formula.
    fn value_and_kind(&self, t: usize, addr: Address) -> (r: (CellValue, bool))
        requires
            self.wf(),
            t < self.spec_sheets().len(),
        ensures
            same_value(r.0, value_at(*self, t as int, addr)),
            r.1 == (self.spec_sheets()[t as int]@.contains_key(addr) && self.spec_sheets()[t as int]@[addr].formula_text() is Some),
    {
        proof {
            assert(self.spec_sheets()[t as int].wf());
        }
        if Address::new(addr.row, addr.column).is_none() {
            proof {
                if self.spec_sheets()[t as int]@.contains_key(addr) {
                    self.spec_sheets()[t as int].lemma_addresses_wf(addr);
                }
            }
            return (CellValue::Empty, false);
        }
        match self.sheets[t].get(addr) {
            Some(c) => (copy_value(c.value()), c.formula().is_some()),
            None => (CellValue::Empty, false),
        }
    }

    /// Writes computed results back: for each entry of `results` whose
    /// sheet exists and whose value differs from the cell's value (empty
    /// where no cell is), a formula cell keeps its formula and now holds the
    /// entry's value, and one change from the old value to the new one is
    /// listed, ordered by tab, row and column. Every other cell is left as it
    /// was; the dependency-graph cache is dropped when a cell is written.
    pub fn apply_results(&mut self, results: &[(CellRef, CellValue)]) -> (changes: Vec<Change>)
        requires
            old(self).wf(),
            distinct_cells(results@),
        ensures
            final(self).wf(),
            final(self).spec_engine() == old(self).spec_engine(),
            final(self).spec_version() == old(self).spec_version(),
            final(self).spec_registry() == old(self).spec_registry(),
            final(self).spec_sheets().len() == old(self).spec_sheets().len(),
            final(self).sheet_names() == old(self).sheet_names(),
            forall|j: int| 0 <= j < old(self).spec_sheets().len() ==> results_written(
                #[trigger] old(self).spec_sheets()[j]@,
                final(self).spec_sheets()[j]@,
                *old(self),
                results@,
                results@.len() as int,
                j,
            ),
            cache_after(
                *old(self),
                *final(self),
                exists|k: int| 0 <= k < results@.len() && #[trigger] result_writes(*old(self), results@, k),
            ),
            lists_changes(*old(self), |k: int| result_change(*old(self), results@, k), results@.len() as int, changes@),
    {
        let ghost orig = *self;
        let ghost f = |k: int| result_change(orig, results@, k);
        proof {
            assert(found_at_entries(orig, results@, f));
            assert forall|j: int| 0 <= j < orig.spec_sheets().len() implies results_written(
                #[trigger] orig.spec_sheets()[j]@,
                self.spec_sheets()[j]@,
                orig,
                results@,
                0,
                j,
            ) by {
                assert(self.spec_sheets()[j]@.dom() =~= orig.spec_sheets()[j]@.dom());
            }
        }
        let mut acc: Vec<(usize, Change)> = Vec::new();
        let ghost mut ks: Seq<int> = Seq::empty();
        let mut wrote = false;
        let mut i: usize = 0;
        while i < results.len()
            invariant
                self.wf(),
                orig.wf(),
                distinct_cells(results@),
                found_at_entries(orig, results@, f),
                f == (|k: int| result_change(orig, results@, k)),
                i <= results@.len(),
                self.engine == orig.engine,
                self.version == orig.version,
                self.registry == orig.registry,
                self.graph_cache.spec_builds() == orig.spec_graph_cache().spec_builds(),
                self.graph_cache.spec_entry() == if wrote {
                    None
                } else {
                    orig.spec_graph_cache().spec_entry()
                },
                wrote == exists|k: int| 0 <= k < i && #[trigger] result_writes(orig, results@, k),
                self.sheets@.len() == orig.spec_sheets().len(),
                names_of(self.sheets@) == orig.sheet_names(),
                forall|j: int| 0 <= j < orig.spec_sheets().len() ==> results_written(
                    #[trigger] orig.spec_sheets()[j]@,
                    self.sheets@[j]@,
                    orig,
                    results@,
                    i as int,
                    j,
                ),
                acc_ok(orig, f, i as int, acc@, ks),
            decreases results@.len() - i,
        {
            let cr = &results[i].0;
            let nv = &results[i].1;
            let ghost before_wrote = wrote;
            match self.sheet_index_folded(cr.sheet.as_str()) {
                None => {
                    proof {
                        assert(tab_of(orig, cr.sheet@) == -1);
                        assert(f(i as int) is None);
                        assert(!result_writes(orig, results@, i as int));
                        assert forall|j: int| 0 <= j < orig.spec_sheets().len() implies results_written(
                            #[trigger] orig.spec_sheets()[j]@,
                            self.sheets@[j]@,
                            orig,
                            results@,
                            i as int + 1,
                            j,
                        ) by {
                            assert(results_written(orig.spec_sheets()[j]@, self.sheets@[j]@, orig, results@, i as int, j));
                        }
                    }
                },
                Some(t) => {
                    proof {
                        lemma_first_fold_match(self.sheet_names(), cr.sheet@);
                        lemma_result_cell_untouched(*self, orig, results@, i as int, t as int);
                    }
                    let (cur, is_formula) = self.value_and_kind(t, cr.addr);
                    let same = values_equal(&cur, nv);
                    proof {
                        let va = value_at(orig, t as int, cr.addr);
                        lemma_same_value(cur, va, *nv);
                        lemma_same_value(va, cur, *nv);
                        lemma_same_value(cur, va, va);
                        assert(same == same_value(va, results@[i as int].1));
                    }
                    if !same {
                        if is_formula {
                            self.write_result(t, cr.addr, nv, Ghost(orig), Ghost(results@), Ghost(i as int));
                            wrote = true;
                        } else {
                            proof {
                                lemma_skip_result(*self, orig, results@, i as int, t as int);
                            }
                        }
                        let ch = Change {
                            sheet: string_of(self.sheets[t].name()),
                            addr: cr.addr,
                            old: cur,
                            new: copy_value(nv),
                        };
                        proof {
                            assert(self.sheet_names()[t as int] == self.sheets@[t as int].spec_name());
                            lemma_same_value(cur, value_at(orig, t as int, cr.addr), value_at(orig, t as int, cr.addr));
                            assert(f(i as int) is Some);
                            assert(quad_tab(f(i as int)->0) == t);
                            assert(reports_change(orig, ch, f(i as int)->0));
                            lemma_acc_fresh(orig, results@, f, i as int, acc@, ks, t as int, cr.addr);
                        }
                        let ghost accb = acc@;
                        let ghost kb = ks;
                        let p = insert_change(&mut acc, t, ch);
                        proof {
                            ks = kb.insert(p as int, i as int);
                            lemma_acc_insert(orig, f, i as int, accb, kb, acc@, ks, p as int);
                        }
                    } else {
                        proof {
                            assert(f(i as int) is None);
                            assert(!result_writes(orig, results@, i as int));
                            lemma_skip_result(*self, orig, results@, i as int, t as int);
                        }
                    }
                },
            }
            proof {
                assert(wrote == exists|k: int| 0 <= k < i + 1 && #[trigger] result_writes(orig, results@, k)) by {
                    if wrote && !before_wrote {
                        assert(result_writes(orig, results@, i as int));
                    }
                    if exists|k: int| 0 <= k < i + 1 && #[trigger] result_writes(orig, results@, k) {
                        let k = choose|k: int| 0 <= k < i + 1 && #[trigger] result_writes(orig, results@, k);
                        if k < i {
                            assert(before_wrote);
                        }
                    }
                }
            }
            i = i + 1;
        }
        let ghost pairs = acc@;
        let r = strip_tabs(acc);
        proof {
            lemma_acc_done(orig, f, results@.len() as int, pairs, ks, r@);
        }
        r
    }

    /// The changes between the values `snapshot` recorded and the grid as it
    /// is now: for each entry whose sheet exists and whose recorded value
    /// differs from the cell's current value (empty where no cell is), one
    /// change from the recorded value to the current one, ordered by tab,
    /// row and column.
    pub fn diff_against_snapshot(&self, snapshot: &[(CellRef, CellValue)]) -> (changes: Vec<Change>)
        requires
            self.wf(),
            distinct_cells(snapshot@),
        ensures
            lists_changes(*self, |k: int| snapshot_change(*self, snapshot@, k), snapshot@.len() as int, changes@),
    {
        let ghost f = |k: int| snapshot_change(*self, snapshot@, k);
        proof {
            assert(found_at_entries(*self, snapshot@, f));
        }
        let mut acc: Vec<(usize, Change)> = Vec::new();
        let ghost mut ks: Seq<int> = Seq::empty();
        let mut i: usize = 0;
        while i < snapshot.len()
            invariant
                self.wf(),
                distinct_cells(snapshot@),
                found_at_entries(*self, snapshot@, f),
                f == (|k: int| snapshot_change(*self, snapshot@, k)),
                i <= snapshot@.len(),
                acc_ok(*self, f, i as int, acc@, ks),
            decreases snapshot@.len() - i,
        {
            let cr = &snapshot[i].0;
            match self.sheet_index_folded(cr.sheet.as_str()) {
                None => {
                    proof {
                        assert(f(i as int) is None);
                    }
                },
                Some(t) => {
                    proof {
                        lemma_first_fold_match(self.sheet_names(), cr.sheet@);
                    }
                    let (cur, _) = self.value_and_kind(t, cr.addr);
                    if !values_equal(&snapshot[i].1, &cur) {
                        let ch = Change {
                            sheet: string_of(self.sheets[t].name()),
                            addr: cr.addr,
                            old: copy_value(&snapshot[i].1),
                            new: cur,
                        };
                        proof {
                            assert(self.sheet_names()[t as int] == self.spec_sheets()[t as int].spec_name());
                            lemma_same_value(cur, value_at(*self, t as int, cr.addr), value_at(*self, t as int, cr.addr));
                            lemma_same_value(snapshot@[i as int].1, value_at(*self, t as int, cr.addr), cur);
                            assert(f(i as int) is Some);
                            assert(quad_tab(f(i as int)->0) == t);
                            assert(reports_change(*self, ch, f(i as int)->0));
                            lemma_acc_fresh(*self, snapshot@, f, i as int, acc@, ks, t as int, cr.addr);
                        }
                        let ghost before = acc@;
                        let ghost kb = ks;
                        let p = insert_change(&mut acc, t, ch);
                        proof {
                            ks = kb.insert(p as int, i as int);
                            assert forall|k: int| 0 <= k < i + 1 && #[trigger] f(k) is Some implies exists|u: int|
                                0 <= u < acc@.len() && #[trigger] ks[u] == k by {
                                if k == i {
                                    assert(ks[p as int] == k);
                                } else {
                                    let w = choose|w: int| 0 <= w < before.len() && #[trigger] kb[w] == k;
                                    if w < p {
                                        assert(ks[w] == k);
                                    } else {
                                        assert(ks[w + 1] == k);
                                    }
                                }
                            }
                            assert forall|u: int| #![trigger ks[u]] 0 <= u < acc@.len() implies {
                                &&& 0 <= ks[u] < i + 1
                                &&& f(ks[u]) is Some
                                &&& quad_tab(f(ks[u])->0) == acc@[u].0
                                &&& reports_change(*self, acc@[u].1, f(ks[u])->0)
                            } by {
                                if u < p {
                                    assert(ks[u] == kb[u] && acc@[u] == before[u]);
                                } else if u > p {
                                    assert(ks[u] == kb[u - 1] && acc@[u] == before[u - 1]);
                                }
                            }
                        }
                    } else {
                        proof {
                            lemma_same_value(snapshot@[i as int].1, cur, value_at(*self, t as int, cr.addr));
                            assert(f(i as int) is None);
                        }
                    }
                },
            }
            i = i + 1;
        }
        let ghost pairs = acc@;
        let r = strip_tabs(acc);
        proof {
            lemma_acc_done(*self, f, snapshot@.len() as int, pairs, ks, r@);
        }
        r
    }
}

/// The last of the first `n` entries of `results` that names the cell at
/// `a` on tab `tab`.
pub open spec fn last_result(wb: Workbook, results: Seq<(CellRef, CellValue)>, n: int, tab: int, a: Address) -> Option<int>
    decreases n,
{
    if n <= 0 {
        None
    } else if tab_of(wb, results[n - 1].0.sheet@) == tab && results[n - 1].0.addr == a {
        Some(n - 1)
    } else {
        last_result(wb, results, n - 1, tab, a)
    }
}

/// The cells `new` of tab `tab` are the cells `old` after writing back the
/// first `n` entries of `results`: each formula cell an entry names, whose
/// value the entry changes, keeps its formula and holds the entry's value;
/// every other cell is as it was.
pub open spec fn results_written(
    old: Map<Address, Cell>,
    new: Map<Address, Cell>,
    wb: Workbook,
    results: Seq<(CellRef, CellValue)>,
    n: int,
    tab: int,
) -> bool {
    &&& new.dom() == old.dom()
    &&& forall|a: Address| #[trigger] old.contains_key(a) ==> {
        match last_result(wb, results, n, tab, a) {
            Some(k) => if old[a].formula_text() is Some && !same_value(old[a].spec_value(), results[k].1) {
                new[a].formula_text() == old[a].formula_text() && same_value(new[a].spec_value(), results[k].1)
            } else {
                new[a] == old[a]
            },
            None => new[a] == old[a],
        }
    }
}

/// Entry `k` of `results` writes its cell back: it changes the value of a
/// formula cell.
pub open spec fn result_writes(wb: Workbook, results: Seq<(CellRef, CellValue)>, k: int) -> bool {
    &&& result_change(wb, results, k) is Some
    &&& wb.spec_sheets()[tab_of(wb, results[k].0.sheet@)]@.contains_key(results[k].0.addr)
    &&& wb.spec_sheets()[tab_of(wb, results[k].0.sheet@)]@[results[k].0.addr].formula_text() is Some
}

/// `last_result` names an entry on that tab and address.
proof fn lemma_last_result(wb: Workbook, results: Seq<(CellRef, CellValue)>, n: int, tab: int, a: Address)
    requires
        0 <= n <= results.len(),
    ensures
        last_result(wb, results, n, tab, a) matches Some(k) ==> 0 <= k < n && tab_of(wb, results[k].0.sheet@) == tab
            && results[k].0.addr == a,
    decreases n,
{
    if n > 0 {
        lemma_last_result(wb, results, n - 1, tab, a);
    }
}

/// `r` lists the formula cells of `sheets`, each once as (tab position,
/// address, formula text), in tab order and, within a sheet, in key order.
pub open spec fn lists_formula_cells(sheets: Seq<Worksheet>, r: Seq<(usize, Address, String)>) -> bool {
    &&& forall|t: int| #![trigger r[t]]
        0 <= t < r.len() ==> {
            &&& r[t].0 < sheets.len()
            &&& sheets[r[t].0 as int]@.contains_key(r[t].1)
            &&& sheets[r[t].0 as int]@[r[t].1].formula_text() == Some(r[t].2@)
        }
    &&& forall|tab: int, a: Address|
        0 <= tab < sheets.len() && #[trigger] sheets[tab]@.contains_key(a) && sheets[tab]@[a].formula_text() is Some
            ==> exists|t: int| 0 <= t < r.len() && r[t].0 == tab && r[t].1 == a
    &&& forall|t: int, u: int|
        0 <= t < u < r.len() ==> (#[trigger] r[t]).0 < (#[trigger] r[u]).0 || (r[t].0 == r[u].0 && text_lt(
            a1_text(r[t].1),
            a1_text(r[u].1),
        ))
}

impl Workbook {
    /// The formula cells, as (tab position, address, formula text), in tab
    /// order and within a sheet in key order: what a formula parser reads to
    /// build the dependency graph, or to rewrite the formulas that name a
    /// renamed sheet.
    pub fn formula_cells(&self) -> (r: Vec<(usize, Address, String)>)
        requires
            self.wf(),
        ensures
            lists_formula_cells(self.spec_sheets(), r@),
    {
        let mut out: Vec<(usize, Address, String)> = Vec::new();
        let mut i: usize = 0;
        while i < self.sheets.len()
            invariant
                self.wf(),
                i <= self.sheets@.len(),
                forall|t: int| #![trigger out@[t]]
                    0 <= t < out@.len() ==> {
                        &&& out@[t].0 < i
                        &&& self.sheets@[out@[t].0 as int]@.contains_key(out@[t].1)
                        &&& self.sheets@[out@[t].0 as int]@[out@[t].1].formula_text() == Some(out@[t].2@)
                    },
                forall|tab: int, a: Address|
                    0 <= tab < i && #[trigger] self.sheets@[tab]@.contains_key(a) && self.sheets@[tab]@[a].formula_text() is Some
                        ==> exists|t: int| 0 <= t < out@.len() && out@[t].0 == tab && out@[t].1 == a,
                forall|t: int, u: int|
                    0 <= t < u < out@.len() ==> (#[trigger] out@[t]).0 < (#[trigger] out@[u]).0 || (out@[t].0 == out@[u].0
                        && text_lt(a1_text(out@[t].1), a1_text(out@[u].1))),
            decreases self.sheets@.len() - i,
        {
            let ws = &self.sheets[i];
            proof {
                assert(self.spec_sheets()[i as int].wf());
            }
            let entries = ws.iter();
            let ghost start = out@;
            let mut k: usize = 0;
            while k < entries.len()
                invariant
                    self.wf(),
                    i < self.sheets@.len(),
                    *ws == self.sheets@[i as int],
                    k <= entries@.len(),
                    forall|e: int| 0 <= e < entries@.len() ==> (#[trigger] entries@[e]).0.wf() && ws@.contains_key(entries@[e].0)
                        && *entries@[e].1 == ws@[entries@[e].0],
                    forall|a: Address| #[trigger] ws@.contains_key(a) ==> exists|e: int| 0 <= e < entries@.len() && entries@[e].0 == a,
                    forall|e: int, f: int| 0 <= e < f < entries@.len() ==> text_lt(
                        a1_text(#[trigger] entries@[e].0),
                        a1_text(#[trigger] entries@[f].0),
                    ),
                    out@.len() >= start.len(),
                    forall|t: int| 0 <= t < start.len() ==> #[trigger] out@[t] == start[t],
                    forall|t: int| 0 <= t < start.len() ==> (#[trigger] start[t]).0 < i,
                    forall|t: int| #![trigger out@[t]]
                        0 <= t < out@.len() ==> {
                            &&& out@[t].0 <= i
                            &&& self.sheets@[out@[t].0 as int]@.contains_key(out@[t].1)
                            &&& self.sheets@[out@[t].0 as int]@[out@[t].1].formula_text() == Some(out@[t].2@)
                        },
                    forall|t: int| start.len() <= t < out@.len() ==> (#[trigger] out@[t]).0 == i && exists|e: int|
                        0 <= e < k && entries@[e].0 == out@[t].1,
                    forall|t: int, u: int|
                        0 <= t < u < out@.len() ==> (#[trigger] out@[t]).0 < (#[trigger] out@[u]).0 || (out@[t].0 == out@[u].0
                            && text_lt(a1_text(out@[t].1), a1_text(out@[u].1))),
                    forall|e: int| 0 <= e < k && (#[trigger] entries@[e]).1.formula_text() is Some ==> exists|t: int|
                        0 <= t < out@.len() && out@[t].0 == i && out@[t].1 == entries@[e].0,
                decreases entries@.len() - k,
            {
                let (a, c) = entries[k];
                match c.formula() {
                    Some(f) => {
                        let ghost before = out@;
                        out.push((i, a, string_of(f)));
                        proof {
                            assert forall|t: int| start.len() <= t < out@.len() implies (#[trigger] out@[t]).0 == i && exists|e: int|
                                0 <= e < k + 1 && entries@[e].0 == out@[t].1 by {
                                if t == before.len() {
                                    assert(entries@[k as int].0 == out@[t].1);
                                } else {
                                    assert(out@[t] == before[t]);
                                    let e = choose|e: int| 0 <= e < k && entries@[e].0 == before[t].1;
                                    assert(entries@[e].0 == out@[t].1);
                                }
                            }
                            assert forall|t: int, u: int| 0 <= t < u < out@.len() implies (#[trigger] out@[t]).0 < (#[trigger] out@[u]).0
                                || (out@[t].0 == out@[u].0 && text_lt(a1_text(out@[t].1), a1_text(out@[u].1))) by {
                                if u == before.len() {
                                    assert(out@[t] == before[t]);
                                    if t >= start.len() {
                                        let e = choose|e: int| 0 <= e < k && entries@[e].0 == before[t].1;
                                        assert(text_lt(a1_text(entries@[e].0), a1_text(entries@[k as int].0)));
                                    } else {
                                        assert(start[t] == out@[t]);
                                    }
                                } else {
                                    assert(out@[t] == before[t] && out@[u] == before[u]);
                                }
                            }
                            assert forall|e: int| 0 <= e < k + 1 && (#[trigger] entries@[e]).1.formula_text() is Some implies exists|t: int|
                                0 <= t < out@.len() && out@[t].0 == i && out@[t].1 == entries@[e].0 by {
                                if e == k {
                                    assert(out@[before.len() as int].1 == a);
                                } else {
                                    let t = choose|t: int| 0 <= t < before.len() && before[t].0 == i && before[t].1 == entries@[e].0;
                                    assert(out@[t] == before[t]);
                                }
                            }
                        }
                    },
                    None => {},
                }
                k = k + 1;
            }
            proof {
                assert forall|tab: int, a: Address|
                    0 <= tab < i + 1 && #[trigger] self.sheets@[tab]@.contains_key(a) && self.sheets@[tab]@[a].formula_text() is Some
                        implies exists|t: int| 0 <= t < out@.len() && out@[t].0 == tab && out@[t].1 == a by {
                    if tab == i {
                        let e = choose|e: int| 0 <= e < entries@.len() && entries@[e].0 == a;
                        assert(entries@[e].1.formula_text() is Some);
                    } else {
                        let t = choose|t: int| 0 <= t < start.len() && start[t].0 == tab && start[t].1 == a;
                        assert(out@[t] == start[t]);
                    }
                }
            }
            i = i + 1;
        }
        out
    }
}

/// The formula text that the last entry of `rw` for the sheet at tab `tab`
/// and address `a` gives, if any entry names that cell.
pub open spec fn last_rewrite(rw: Seq<(usize, Address, String)>, tab: int, a: Address) -> Option<Seq<char>>
    decreases rw.len(),
{
    if rw.len() == 0 {
        None
    } else if rw.last().0 == tab && rw.last().1 == a {
        Some(rw.last().2@)
    } else {
        last_rewrite(rw.drop_last(), tab, a)
    }
}

/// The cells `new` of the sheet at tab `tab` are the cells `old` with the
/// text of each formula cell that `rw` names replaced by the last such
/// entry's text, its most recent result kept; every other cell is as it was.
pub open spec fn formulas_rewritten(
    old: Map<Address, Cell>,
    new: Map<Address, Cell>,
    rw: Seq<(usize, Address, String)>,
    tab: int,
) -> bool {
    &&& new.dom() == old.dom()
    &&& forall|a: Address| #[trigger] old.contains_key(a) ==> {
        match (old[a].formula_text(), last_rewrite(rw, tab, a)) {
            (Some(_), Some(f)) => new[a].formula_text() == Some(f) && new[a].spec_value() == old[a].spec_value(),
            _ => new[a] == old[a],
        }
    }
}

impl Workbook {
    /// Replaces the formula text of each formula cell that an entry
    /// `(tab, address, formula)` of `rw` names, the last entry for a cell
    /// winning; entries naming no formula cell are skipped.
    fn apply_formula_rewrites(&mut self, rw: &[(usize, Address, String)])
        requires
            old(self).wf(),
        ensures
            final(self).wf(),
            final(self).spec_engine() == old(self).spec_engine(),
            final(self).spec_version() == old(self).spec_version(),
            final(self).spec_registry() == old(self).spec_registry(),
            final(self).spec_graph_cache() == old(self).spec_graph_cache(),
            final(self).spec_sheets().len() == old(self).spec_sheets().len(),
            final(self).sheet_names() == old(self).sheet_names(),
            forall|j: int| 0 <= j < old(self).spec_sheets().len() ==> formulas_rewritten(
                #[trigger] old(self).spec_sheets()[j]@,
                final(self).spec_sheets()[j]@,
                rw@,
                j,
            ),
    {
        let ghost orig = self.sheets@;
        let mut k: usize = 0;
        proof {
            assert(names_of(self.sheets@) =~= names_of(orig));
            assert forall|j: int| 0 <= j < orig.len() implies formulas_rewritten(
                #[trigger] orig[j]@,
                self.sheets@[j]@,
                rw@.take(0),
                j,
            ) by {
                assert(self.sheets@[j]@.dom() =~= orig[j]@.dom());
            }
        }
        while k < rw.len()
            invariant
                k <= rw@.len(),
                self.wf(),
                self.engine == old(self).engine,
                self.version == old(self).version,
                self.registry == old(self).registry,
                self.graph_cache == old(self).graph_cache,
                orig == old(self).sheets@,
                self.sheets@.len() == orig.len(),
                names_of(self.sheets@) == names_of(orig),
                forall|j: int| 0 <= j < orig.len() ==> formulas_rewritten(
                    #[trigger] orig[j]@,
                    self.sheets@[j]@,
                    rw@.take(k as int),
                    j,
                ),
            decreases rw@.len() - k,
        {
            let tab = rw[k].0;
            let a = rw[k].1;
            proof {
                assert(rw@.take(k as int + 1).drop_last() =~= rw@.take(k as int));
                assert(rw@.take(k as int + 1).last() == rw@[k as int]);
            }
            if tab < self.sheets.len() && Address::new(a.row, a.column).is_some() {
                let ghost before = self.sheets@;
                let mut w = self.sheets.remove(tab);
                proof {
                    assert(w == before[tab as int]);
                    assert(w.wf());
                }
                let is_formula = match w.get(a) {
                    Some(c) => c.formula().is_some(),
                    None => false,
                };
                let ghost wb = w;
                if is_formula {
                    match w.clear(a) {
                        Some(mut cell) => {
                            cell.set_formula(string_of(rw[k].2.as_str()));
                            w.set(a, cell);
                        },
                        None => {},
                    }
                }
                self.sheets.insert(tab, w);
                proof {
                    assert(self.sheets@ =~= before.update(tab as int, w));
                    assert(names_of(self.sheets@) =~= names_of(before));
                    assert forall|j: int| 0 <= j < self.sheets@.len() implies (#[trigger] self.sheets@[j]).wf() by {
                        if j != tab {
                            assert(self.sheets@[j] == before[j]);
                        }
                    }
                    assert forall|j: int| 0 <= j < orig.len() implies formulas_rewritten(
                        #[trigger] orig[j]@,
                        self.sheets@[j]@,
                        rw@.take(k as int + 1),
                        j,
                    ) by {
                        assert(formulas_rewritten(orig[j]@, before[j]@, rw@.take(k as int), j));
                        if j != tab {
                            assert(self.sheets@[j] == before[j]);
                        } else {
                            assert(self.sheets@[j] == w);
                            if is_formula {
                                assert(w@ =~= wb@.remove(a).insert(a, w@[a]));
                                assert(w@.dom() =~= wb@.dom());
                            } else {
                                assert(w@ == wb@);
                            }
                            assert forall|b: Address| #[trigger] orig[j]@.contains_key(b) implies {
                                match (orig[j]@[b].formula_text(), last_rewrite(rw@.take(k as int + 1), j, b)) {
                                    (Some(_), Some(f)) => w@[b].formula_text() == Some(f) && w@[b].spec_value()
                                        == orig[j]@[b].spec_value(),
                                    _ => w@[b] == orig[j]@[b],
                                }
                            } by {
                                if b != a {
                                    assert(last_rewrite(rw@.take(k as int + 1), j, b) == last_rewrite(rw@.take(k as int), j, b));
                                } else {
                                    assert(last_rewrite(rw@.take(k as int + 1), j, b) == Some(rw@[k as int].2@));
                                }
                            }
                        }
                    }
                }
            } else {
                proof {
                    assert forall|j: int| 0 <= j < orig.len() implies formulas_rewritten(
                        #[trigger] orig[j]@,
                        self.sheets@[j]@,
                        rw@.take(k as int + 1),
                        j,
                    ) by {
                        assert(formulas_rewritten(orig[j]@, self.sheets@[j]@, rw@.take(k as int), j));
                        assert forall|b: Address| #[trigger] orig[j]@.contains_key(b) implies last_rewrite(
                            rw@.take(k as int + 1),
                            j,
                            b,
                        ) == last_rewrite(rw@.take(k as int), j, b) by {
                            if j == tab && b == a {
                                orig[j].lemma_addresses_wf(b);
                            }
                        }
                    }
                }
            }
            k = k + 1;
        }
        proof {
            assert(rw@.take(k as int) =~= rw@);
        }
    }

    /// Renames the sheet named `from` (case-insensitive) to `to`, repointing
    /// everything that named the old sheet: every named range and table
    /// whose `ref` names that sheet (case-insensitively) gets the new name,
    /// re-quoted canonically, and every formula cell that an entry
    /// `(tab, address, formula)` of `rewrites` names gets that entry's text
    /// (the last entry for a cell winning), its most recent result kept.
    /// `rewrites` holds the formula parser's rewrites of the formulas that
    /// qualify a reference with the old name; every other cell is left as
    /// it was. Refused when no sheet is named `from`, when `to` is empty or
    /// too long, or when `to` collides with another sheet under simple case
    /// folding; a pure case change of the same sheet is allowed. A refused
    /// rename changes nothing.
    pub fn rename_sheet(&mut self, from: &str, to: &str, rewrites: &[(usize, Address, String)]) -> (r: Result<
        (),
        WorkbookError,
    >)
        requires
            old(self).wf(),
        ensures
            final(self).wf(),
            final(self).spec_engine() == old(self).spec_engine(),
            final(self).spec_version() == old(self).spec_version(),
            final(self).spec_sheets().len() == old(self).spec_sheets().len(),
            cache_after(*old(self), *final(self), r is Ok),
            match r {
                Ok(()) => rename_sheet_check(old(self).sheet_names(), from@, to@) matches Ok(i) && {
                    let old_fold = folded(old(self).sheet_names()[i]);
                    &&& final(self).spec_sheets()[i].spec_name() == to@
                    &&& forall|j: int| 0 <= j < old(self).spec_sheets().len() && j != i ==> #[trigger] final(self).spec_sheets()[j].spec_name()
                        == old(self).spec_sheets()[j].spec_name()
                    &&& forall|j: int| 0 <= j < old(self).spec_sheets().len() ==> formulas_rewritten(
                        #[trigger] old(self).spec_sheets()[j]@,
                        final(self).spec_sheets()[j]@,
                        rewrites@,
                        j,
                    )
                    &&& final(self).spec_registry().spec_names() == repointed_entries(
                        old(self).spec_registry().spec_names(),
                        old_fold,
                        to@,
                    )
                    &&& final(self).spec_registry().spec_tables() == repointed_entries(
                        old(self).spec_registry().spec_tables(),
                        old_fold,
                        to@,
                    )
                },
                Err(e) => rename_sheet_check(old(self).sheet_names(), from@, to@) matches Err(f) && reports(e, f)
                    && *final(self) == *old(self),
            },
    {
        let names = self.sheet_name_list();
        let idx = match check_rename_sheet(names.as_slice(), from, to) {
            Ok(i) => i,
            Err(e) => {
                return Err(e);
            },
        };
        let ghost keys = self.sheet_names();
        let ghost orig = self.sheets@;
        proof {
            lemma_first_fold_match(keys, folded(from@));
            lemma_first_fold_match(keys, folded(to@));
            assert forall|j: int| 0 <= j < keys.len() && j != idx implies folded(keys[j]) != folded(to@) by {
                if first_fold_match(keys, folded(to@)) == idx as int {
                    assert(folded(keys[idx as int]) == folded(to@));
                }
            }
            lemma_update_distinct(keys, idx as int, to@);
        }
        let old_name = string_of(self.sheets[idx].name());
        self.graph_cache.invalidate();
        self.registry.repoint_sheet(old_name.as_str(), to);
        self.apply_formula_rewrites(rewrites);
        let ghost before = self.sheets@;
        let mut sheet = self.sheets.remove(idx);
        sheet.set_name(string_of(to));
        self.sheets.insert(idx, sheet);
        proof {
            assert(self.sheets@ =~= before.update(idx as int, sheet));
            assert(names_of(before) == keys);
            assert(names_of(self.sheets@) =~= keys.update(idx as int, to@));
            assert forall|j: int| 0 <= j < self.sheets@.len() implies (#[trigger] self.sheets@[j]).wf() by {
                if j != idx {
                    assert(self.sheets@[j] == before[j]);
                }
            }
            assert forall|j: int| 0 <= j < orig.len() && j != idx implies #[trigger] self.sheets@[j].spec_name()
                == orig[j].spec_name() by {
                assert(self.sheets@[j] == before[j]);
                assert(names_of(before)[j] == keys[j]);
            }
            assert forall|j: int| 0 <= j < orig.len() implies formulas_rewritten(
                #[trigger] orig[j]@,
                self.sheets@[j]@,
                rewrites@,
                j,
            ) by {
                assert(formulas_rewritten(orig[j]@, before[j]@, rewrites@, j));
                if j != idx {
                    assert(self.sheets@[j] == before[j]);
                }
            }
        }
        Ok(())
    }

    /// Removes the cell at `addr` on the sheet named `sheet`
    /// (case-insensitive) and returns it; `None` when the sheet or the cell
    /// is absent. Clearing removes the entry, never writes an empty value.
    pub fn clear(&mut self, sheet: &str, addr: Address) -> (r: Option<Cell>)
        requires
            old(self).wf(),
            addr.wf(),
        ensures
            final(self).wf(),
            final(self).spec_engine() == old(self).spec_engine(),
            final(self).spec_version() == old(self).spec_version(),
            final(self).spec_registry() == old(self).spec_registry(),
            cache_after(
                *old(self),
                *final(self),
                first_fold_match(old(self).sheet_names(), folded(sheet@)) >= 0 && ((r matches Some(c) && c.formula_text() is Some)
                    || old(self).spec_registry().spec_tables().len() > 0),
            ),
            ({
                let i = first_fold_match(old(self).sheet_names(), folded(sheet@));
                if i < 0 {
                    r is None && final(self).spec_sheets() == old(self).spec_sheets()
                } else {
                    &&& final(self).spec_sheets().len() == old(self).spec_sheets().len()
                    &&& final(self).spec_sheets()[i]@ == old(self).spec_sheets()[i]@.remove(addr)
                    &&& final(self).spec_sheets()[i].spec_name() == old(self).spec_sheets()[i].spec_name()
                    &&& forall|j: int| 0 <= j < old(self).spec_sheets().len() && j != i ==> #[trigger] final(self).spec_sheets()[j]
                        == old(self).spec_sheets()[j]
                    &&& match r {
                        Some(c) => old(self).spec_sheets()[i]@.contains_key(addr) && c == old(self).spec_sheets()[i]@[addr],
                        None => !old(self).spec_sheets()[i]@.contains_key(addr),
                    }
                }
            }),
    {
        let i = match self.sheet_index(sheet) {
            Some(i) => i,
            None => return None,
        };
        proof {
            lemma_first_fold_match(self.sheet_names(), folded(sheet@));
        }
        let ghost before = self.sheets@;
        let mut w = self.sheets.remove(i);
        let prev = w.clear(addr);
        self.sheets.insert(i, w);
        let removed_formula = match &prev {
            Some(c) => c.formula().is_some(),
            None => false,
        };
        if removed_formula || self.registry.tables().len() > 0 {
            self.graph_cache.invalidate();
        }
        proof {
            assert(self.sheets@ =~= before.update(i as int, w));
            assert(names_of(self.sheets@) =~= names_of(before));
            assert forall|j: int| 0 <= j < self.sheets@.len() implies (#[trigger] self.sheets@[j]).wf() by {
                if j != i {
                    assert(self.sheets@[j] == before[j]);
                }
            }
        }
        prev
    }

    /// The named range called `name` (case-insensitive), if any.
    pub fn name(&self, name: &str) -> (r: Option<&NamedRange>)
        ensures
            match r {
                Some(n) => {
                    let i = first_fold_match(entry_names(self.spec_registry().spec_names()), folded(name@));
                    i >= 0 && name_entry(*n) == self.spec_registry().spec_names()[i]
                },
                None => first_fold_match(entry_names(self.spec_registry().spec_names()), folded(name@)) == -1,
            },
    {
        self.registry.name(name)
    }

    /// The declaration-order position of the named range `name`
    /// (case-insensitive).
    pub fn name_index(&self, name: &str) -> (r: Option<usize>)
        ensures
            match r {
                Some(i) => first_fold_match(entry_names(self.spec_registry().spec_names()), folded(name@)) == i as int,
                None => first_fold_match(entry_names(self.spec_registry().spec_names()), folded(name@)) == -1,
            },
    {
        self.registry.name_index(name)
    }

    /// The table called `name` (case-insensitive), if any.
    pub fn table(&self, name: &str) -> (r: Option<&Table>)
        ensures
            match r {
                Some(t) => {
                    let i = first_fold_match(entry_names(self.spec_registry().spec_tables()), folded(name@));
                    i >= 0 && table_entry(*t) == self.spec_registry().spec_tables()[i]
                },
                None => first_fold_match(entry_names(self.spec_registry().spec_tables()), folded(name@)) == -1,
            },
    {
        self.registry.table(name)
    }

    /// The declaration-order position of the table `name`
    /// (case-insensitive).
    pub fn table_index(&self, name: &str) -> (r: Option<usize>)
        ensures
            match r {
                Some(i) => first_fold_match(entry_names(self.spec_registry().spec_tables()), folded(name@)) == i as int,
                None => first_fold_match(entry_names(self.spec_registry().spec_tables()), folded(name@)) == -1,
            },
    {
        self.registry.table_index(name)
    }

    /// Defines the named range `name` as the canonical reference `r` on one
    /// of this workbook's sheets, and returns it. Refused as
    /// [`define_name_error`] says: an invalid name, a non-canonical `ref`, a
    /// missing sheet, the named-range cap, or a collision with an existing
    /// name or table.
    pub fn define_name(&mut self, name: &str, r: &str) -> (res: Result<&NamedRange, WorkbookError>)
        ensures
            cache_after(*old(self), *final(self), res is Ok),
            final(self).spec_sheets() == old(self).spec_sheets(),
            final(self).spec_engine() == old(self).spec_engine(),
            final(self).spec_version() == old(self).spec_version(),
            final(self).spec_registry().spec_tables() == old(self).spec_registry().spec_tables(),
            old(self).spec_registry().wf() ==> final(self).spec_registry().wf(),
            match res {
                Ok(n) => define_name_error(
                    old(self).spec_registry().spec_names(),
                    old(self).spec_registry().spec_tables(),
                    name@,
                    r@,
                    old(self).sheet_names(),
                ) is None && name_entry(*n) == (name@, r@) && final(self).spec_registry().spec_names()
                    == old(self).spec_registry().spec_names().push((name@, r@)),
                Err(e) => define_name_error(
                    old(self).spec_registry().spec_names(),
                    old(self).spec_registry().spec_tables(),
                    name@,
                    r@,
                    old(self).sheet_names(),
                ) matches Some(f) && reports(e, f) && final(self).spec_registry().spec_names()
                    == old(self).spec_registry().spec_names(),
            },
    {
        let sheets = self.sheet_name_list();
        let res = self.registry.define_name(name, r, sheets.as_slice());
        if res.is_ok() {
            self.graph_cache.invalidate();
        }
        res
    }

    /// Points the existing named range `name` (case-insensitive) at `r`,
    /// keeping its spelling. Refused as [`redefine_name_error`] says.
    pub fn redefine_name(&mut self, name: &str, r: &str) -> (res: Result<&NamedRange, WorkbookError>)
        ensures
            cache_after(*old(self), *final(self), res is Ok),
            final(self).spec_sheets() == old(self).spec_sheets(),
            final(self).spec_engine() == old(self).spec_engine(),
            final(self).spec_version() == old(self).spec_version(),
            final(self).spec_registry().spec_tables() == old(self).spec_registry().spec_tables(),
            old(self).spec_registry().wf() ==> final(self).spec_registry().wf(),
            match res {
                Ok(n) => {
                    let i = first_fold_match(entry_names(old(self).spec_registry().spec_names()), folded(name@));
                    &&& redefine_name_error(old(self).spec_registry().spec_names(), name@, r@, old(self).sheet_names()) is None
                    &&& 0 <= i < old(self).spec_registry().spec_names().len()
                    &&& final(self).spec_registry().spec_names() == old(self).spec_registry().spec_names().update(
                        i,
                        (old(self).spec_registry().spec_names()[i].0, r@),
                    )
                    &&& name_entry(*n) == final(self).spec_registry().spec_names()[i]
                },
                Err(e) => redefine_name_error(old(self).spec_registry().spec_names(), name@, r@, old(self).sheet_names())
                    matches Some(f) && reports(e, f) && final(self).spec_registry().spec_names()
                    == old(self).spec_registry().spec_names(),
            },
    {
        let sheets = self.sheet_name_list();
        let res = self.registry.redefine_name(name, r, sheets.as_slice());
        if res.is_ok() {
            self.graph_cache.invalidate();
        }
        res
    }

    /// Removes the named range `name` (case-insensitive) and returns it, or
    /// `None` when no name matches.
    pub fn remove_name(&mut self, name: &str) -> (res: Option<NamedRange>)
        ensures
            cache_after(*old(self), *final(self), res is Some),
            final(self).spec_sheets() == old(self).spec_sheets(),
            final(self).spec_engine() == old(self).spec_engine(),
            final(self).spec_version() == old(self).spec_version(),
            final(self).spec_registry().spec_tables() == old(self).spec_registry().spec_tables(),
            old(self).spec_registry().wf() ==> final(self).spec_registry().wf(),
            match res {
                Some(n) => {
                    let i = first_fold_match(entry_names(old(self).spec_registry().spec_names()), folded(name@));
                    &&& 0 <= i < old(self).spec_registry().spec_names().len()
                    &&& name_entry(n) == old(self).spec_registry().spec_names()[i]
                    &&& final(self).spec_registry().spec_names() == old(self).spec_registry().spec_names().remove(i)
                },
                None => first_fold_match(entry_names(old(self).spec_registry().spec_names()), folded(name@)) == -1
                    && final(self).spec_registry().spec_names() == old(self).spec_registry().spec_names(),
            },
    {
        let res = self.registry.remove_name(name);
        if res.is_some() {
            self.graph_cache.invalidate();
        }
        res
    }

    /// Declares the table `name` over the canonical range `r` on one of this
    /// workbook's sheets, and returns it. Refused as [`define_table_error`]
    /// says: an invalid name, a malformed range, a missing sheet, the table
    /// cap, a name collision, or an overlap with another table.
    pub fn define_table(&mut self, name: &str, r: &str) -> (res: Result<&Table, WorkbookError>)
        ensures
            cache_after(*old(self), *final(self), res is Ok),
            final(self).spec_sheets() == old(self).spec_sheets(),
            final(self).spec_engine() == old(self).spec_engine(),
            final(self).spec_version() == old(self).spec_version(),
            final(self).spec_registry().spec_names() == old(self).spec_registry().spec_names(),
            old(self).spec_registry().wf() ==> final(self).spec_registry().wf(),
            match res {
                Ok(t) => define_table_error(
                    old(self).spec_registry().spec_names(),
                    old(self).spec_registry().spec_tables(),
                    name@,
                    r@,
                    old(self).sheet_names(),
                ) is None && table_entry(*t) == (name@, r@) && final(self).spec_registry().spec_tables()
                    == old(self).spec_registry().spec_tables().push((name@, r@)),
                Err(e) => define_table_error(
                    old(self).spec_registry().spec_names(),
                    old(self).spec_registry().spec_tables(),
                    name@,
                    r@,
                    old(self).sheet_names(),
                ) matches Some(f) && reports(e, f) && final(self).spec_registry().spec_tables()
                    == old(self).spec_registry().spec_tables(),
            },
    {
        let sheets = self.sheet_name_list();
        let res = self.registry.define_table(name, r, sheets.as_slice());
        if res.is_ok() {
            self.graph_cache.invalidate();
        }
        res
    }

    /// Moves the existing table `name` (case-insensitive) to the range `r`,
    /// keeping its spelling. Refused as [`redefine_table_error`] says.
    pub fn redefine_table(&mut self, name: &str, r: &str) -> (res: Result<&Table, WorkbookError>)
        ensures
            cache_after(*old(self), *final(self), res is Ok),
            final(self).spec_sheets() == old(self).spec_sheets(),
            final(self).spec_engine() == old(self).spec_engine(),
            final(self).spec_version() == old(self).spec_version(),
            final(self).spec_registry().spec_names() == old(self).spec_registry().spec_names(),
            old(self).spec_registry().wf() ==> final(self).spec_registry().wf(),
            match res {
                Ok(t) => {
                    let i = first_fold_match(entry_names(old(self).spec_registry().spec_tables()), folded(name@));
                    &&& redefine_table_error(old(self).spec_registry().spec_tables(), name@, r@, old(self).sheet_names()) is None
                    &&& 0 <= i < old(self).spec_registry().spec_tables().len()
                    &&& final(self).spec_registry().spec_tables() == old(self).spec_registry().spec_tables().update(
                        i,
                        (old(self).spec_registry().spec_tables()[i].0, r@),
                    )
                    &&& table_entry(*t) == final(self).spec_registry().spec_tables()[i]
                },
                Err(e) => redefine_table_error(old(self).spec_registry().spec_tables(), name@, r@, old(self).sheet_names())
                    matches Some(f) && reports(e, f) && final(self).spec_registry().spec_tables()
                    == old(self).spec_registry().spec_tables(),
            },
    {
        let sheets = self.sheet_name_list();
        let res = self.registry.redefine_table(name, r, sheets.as_slice());
        if res.is_ok() {
            self.graph_cache.invalidate();
        }
        res
    }

    /// Removes the table `name` (case-insensitive) and returns it, or `None`
    /// when no table matches.
    pub fn remove_table(&mut self, name: &str) -> (res: Option<Table>)
        ensures
            cache_after(*old(self), *final(self), res is Some),
            final(self).spec_sheets() == old(self).spec_sheets(),
            final(self).spec_engine() == old(self).spec_engine(),
            final(self).spec_version() == old(self).spec_version(),
            final(self).spec_registry().spec_names() == old(self).spec_registry().spec_names(),
            old(self).spec_registry().wf() ==> final(self).spec_registry().wf(),
            match res {
                Some(t) => {
                    let i = first_fold_match(entry_names(old(self).spec_registry().spec_tables()), folded(name@));
                    &&& 0 <= i < old(self).spec_registry().spec_tables().len()
                    &&& table_entry(t) == old(self).spec_registry().spec_tables()[i]
                    &&& final(self).spec_registry().spec_tables() == old(self).spec_registry().spec_tables().remove(i)
                },
                None => first_fold_match(entry_names(old(self).spec_registry().spec_tables()), folded(name@)) == -1
                    && final(self).spec_registry().spec_tables() == old(self).spec_registry().spec_tables(),
            },
    {
        let res = self.registry.remove_table(name);
        if res.is_some() {
            self.graph_cache.invalidate();
        }
        res
    }

    /// Checks that every named range and table `ref` names one of this
    /// workbook's sheets (case-insensitively); reports the first that does
    /// not. A workbook that fails this cannot be saved.
    pub fn check_no_dangling_refs(&self) -> (res: Result<(), WorkbookError>)
        ensures
            match res {
                Ok(()) => dangling_refs_error(
                    self.spec_registry().spec_names(),
                    self.spec_registry().spec_tables(),
                    self.sheet_names(),
                ) is None,
                Err(e) => dangling_refs_error(
                    self.spec_registry().spec_names(),
                    self.spec_registry().spec_tables(),
                    self.sheet_names(),
                ) matches Some(m) && reports(e, (ErrorKind::Validation, m)),
            },
    {
        let sheets = self.sheet_name_list();
        self.registry.check_no_dangling_refs(sheets.as_slice())
    }
}

/// What a [`Workbook::set`] writes into a cell: a literal value, or a
/// formula stored verbatim (leading `=` included).
#[derive(Debug, PartialEq)]
pub enum CellInput {
    /// A literal value; never the empty value.
    Literal(CellValue),
    /// A formula, whose result stays empty until the next recalculation.
    Formula(String),
}

pub open spec fn empty_literal_message() -> Seq<char> {
    "a literal cell cannot hold an empty value; clear a cell by removing its entry instead"@
}

pub open spec fn invalid_formula_message(formula: Seq<char>, parse_error: Seq<char>) -> Seq<char> {
    "formula "@ + crate::document::dq(formula) + " is invalid: "@ + parse_error
}

pub open spec fn no_sheet_to_set_message(sheet: Seq<char>) -> Seq<char> {
    "cannot set cell: no sheet named "@ + crate::document::dq(sheet)
}

pub open spec fn cell_cap_message() -> Seq<char> {
    "cannot set cell: workbook already holds "@ + decimal_digits(MAX_CELLS_PER_WORKBOOK as nat)
        + " populated cells, the limit (scope ADR Decision 5)"@
}

/// The length in bytes of `s` encoded as UTF-8, as `str::len` gives it.
pub open spec fn byte_len(s: Seq<char>) -> usize {
    encode_utf8(s).len() as usize
}

/// The first rule the input breaks on its own: an empty literal, a text or
/// array value over its cap, a formula over the length cap, or a formula
/// the parser refused (`parse_error`, the parser's verdict on it).
pub open spec fn input_error(input: CellInput, parse_error: Option<Seq<char>>) -> Option<(ErrorKind, Seq<char>)> {
    match input {
        CellInput::Literal(v) => if v is Empty {
            Some((ErrorKind::EmptyLiteral, empty_literal_message()))
        } else {
            match value_limit_error(v) {
                Some(m) => Some((ErrorKind::ResourceLimit, m)),
                None => None,
            }
        },
        CellInput::Formula(f) => if byte_len(f@) > MAX_FORMULA_LEN {
            Some((ErrorKind::ResourceLimit, formula_too_long(byte_len(f@) as nat)))
        } else {
            match parse_error {
                Some(e) => Some((ErrorKind::InvalidFormula, invalid_formula_message(f@, e))),
                None => None,
            }
        },
    }
}

/// The first rule writing `input` at `addr` on sheet `sheet` breaks: the
/// input's own, then a missing sheet, then (only where the cell cap applies,
/// `caps_apply`) a new cell past the workbook's cell cap.
pub open spec fn set_error(
    w: Workbook,
    sheet: Seq<char>,
    addr: Address,
    input: CellInput,
    parse_error: Option<Seq<char>>,
    caps_apply: bool,
) -> Option<(ErrorKind, Seq<char>)> {
    match input_error(input, parse_error) {
        Some(f) => Some(f),
        None => {
            let i = first_fold_match(w.sheet_names(), folded(sheet));
            if i < 0 {
                Some((ErrorKind::UnknownSheet, no_sheet_to_set_message(sheet)))
            } else if !w.spec_sheets()[i]@.contains_key(addr) && caps_apply && total_of(w.spec_sheets()) + 1
                > MAX_CELLS_PER_WORKBOOK {
                Some((ErrorKind::ResourceLimit, cell_cap_message()))
            } else {
                None
            }
        },
    }
}

/// Cell `c` is what writing `input` stores: a literal holds the value and
/// no formula; a formula cell holds the formula and the empty value.
pub open spec fn written(c: Cell, input: CellInput) -> bool {
    match input {
        CellInput::Literal(v) => c.formula_text() is None && c.spec_value() == v,
        CellInput::Formula(f) => c.formula_text() == Some(f@) && c.spec_value() is Empty,
    }
}

/// The optional text of a parse verdict.
pub open spec fn opt_message(e: Option<String>) -> Option<Seq<char>> {
    match e {
        Some(m) => Some(m@),
        None => None,
    }
}

impl Workbook {
    /// Builds the cell `input` describes, or the first rule it breaks.
    fn cell_of(input: CellInput, parse_error: Option<String>) -> (r: Result<Cell, WorkbookError>)
        ensures
            match r {
                Ok(c) => input_error(input, opt_message(parse_error)) is None && written(c, input),
                Err(e) => input_error(input, opt_message(parse_error)) matches Some(f) && reports(e, f),
            },
    {
        match input {
            CellInput::Literal(value) => {
                if let CellValue::Empty = value {
                    return Err(WorkbookError::EmptyLiteral);
                }
                match check_value_limits(&value) {
                    Ok(()) => {},
                    Err(e) => {
                        return Err(e);
                    },
                }
                Cell::literal(value)
            },
            CellInput::Formula(formula) => {
                match check_formula_limit(formula.as_str()) {
                    Ok(()) => {},
                    Err(e) => {
                        return Err(e);
                    },
                }
                match parse_error {
                    Some(e) => {
                        let mut m = crate::document::quoted_one("formula ", formula.as_str(), " is invalid: ");
                        push_str(&mut m, e.as_str());
                        return Err(WorkbookError::InvalidFormula(m));
                    },
                    None => {},
                }
                Ok(Cell::with_formula(formula, CellValue::Empty))
            },
        }
    }

    /// Writes `input` at `addr` on the sheet named `sheet`
    /// (case-insensitive) and returns the cell that was there. A literal is
    /// stored as a value-only cell; a formula is stored verbatim with the
    /// empty value until the next recalculation. `parse_error` is the
    /// formula parser's verdict on a formula input (`None` when it parsed);
    /// it is not read for a literal. `caps_apply` says whether this build
    /// enforces the workbook cell cap (only a WebAssembly build does).
    /// Refused as [`set_error`] says, in which case nothing changes.
    ///
    /// A write exactly one row below a table, within its columns, extends
    /// that table by one row unless the grown range would overlap another
    /// table.
    pub fn set(
        &mut self,
        sheet: &str,
        addr: Address,
        input: CellInput,
        parse_error: Option<String>,
        caps_apply: bool,
    ) -> (r: Result<
        Option<Cell>,
        WorkbookError,
    >)
        requires
            old(self).wf(),
            addr.wf(),
        ensures
            final(self).wf(),
            final(self).spec_engine() == old(self).spec_engine(),
            final(self).spec_version() == old(self).spec_version(),
            cache_after(
                *old(self),
                *final(self),
                r matches Ok(prev) && (input is Formula || (prev matches Some(c) && c.formula_text() is Some)
                    || old(self).spec_registry().spec_tables().len() > 0),
            ),
            match r {
                Ok(prev) => {
                    let i = first_fold_match(old(self).sheet_names(), folded(sheet@));
                    let ws = final(self).spec_sheets()[i];
                    &&& set_error(*old(self), sheet@, addr, input, opt_message(parse_error), caps_apply) is None
                    &&& 0 <= i < old(self).spec_sheets().len()
                    &&& final(self).spec_sheets().len() == old(self).spec_sheets().len()
                    &&& forall|j: int| 0 <= j < old(self).spec_sheets().len() && j != i ==> #[trigger] final(self).spec_sheets()[j]
                        == old(self).spec_sheets()[j]
                    &&& ws.spec_name() == old(self).spec_sheets()[i].spec_name()
                    &&& ws@ == old(self).spec_sheets()[i]@.insert(addr, ws@[addr])
                    &&& written(ws@[addr], input)
                    &&& match prev {
                        Some(c) => old(self).spec_sheets()[i]@.contains_key(addr) && c == old(self).spec_sheets()[i]@[addr],
                        None => !old(self).spec_sheets()[i]@.contains_key(addr),
                    }
                    &&& final(self).spec_registry().spec_names() == old(self).spec_registry().spec_names()
                    &&& final(self).spec_registry().spec_tables() == crate::registry::tables_after_append(
                        old(self).spec_registry().spec_tables(),
                        old(self).spec_sheets()[i].spec_name(),
                        addr,
                    )
                    &&& old(self).spec_registry().wf() ==> final(self).spec_registry().wf()
                },
                Err(e) => set_error(*old(self), sheet@, addr, input, opt_message(parse_error), caps_apply) matches Some(f) && reports(e, f)
                    && *final(self) == *old(self),
            },
    {
        let ghost input0 = input;
        let ghost pe = opt_message(parse_error);
        let cell = match Self::cell_of(input, parse_error) {
            Ok(c) => c,
            Err(e) => {
                return Err(e);
            },
        };
        let i = match self.sheet_index(sheet) {
            Some(i) => i,
            None => {
                let m = crate::document::quoted_one("cannot set cell: no sheet named ", sheet, "");
                proof {
                    reveal_strlit("");
                    assert(m@ =~= no_sheet_to_set_message(sheet@));
                }
                return Err(WorkbookError::UnknownSheet(m));
            },
        };
        proof {
            lemma_first_fold_match(self.sheet_names(), folded(sheet@));
        }
        let new_cell = !self.sheets[i].contains(addr);
        if new_cell {
            let total = self.total_cells();
            if exceeds_cell_cap(total.saturating_add(1), caps_apply) {
                let mut m = string_of("cannot set cell: workbook already holds ");
                push_str(&mut m, crate::text::decimal_string_wide(MAX_CELLS_PER_WORKBOOK as u128).as_str());
                push_str(&mut m, " populated cells, the limit (scope ADR Decision 5)");
                return Err(WorkbookError::ResourceLimit(m));
            }
        }
        let ghost before = self.sheets@;
        let writes_formula = cell.formula().is_some();
        let has_tables = self.registry.tables().len() > 0;
        let mut w = self.sheets.remove(i);
        let prev = w.set(addr, cell);
        let name = string_of(w.name());
        self.sheets.insert(i, w);
        self.registry.expand_table_on_append(name.as_str(), addr);
        let replaced_formula = match &prev {
            Some(c) => c.formula().is_some(),
            None => false,
        };
        if writes_formula || replaced_formula || has_tables {
            self.graph_cache.invalidate();
        }
        proof {
            assert(self.sheets@ =~= before.update(i as int, w));
            assert(names_of(self.sheets@) =~= names_of(before));
            assert forall|j: int| 0 <= j < self.sheets@.len() implies (#[trigger] self.sheets@[j]).wf() by {
                if j != i {
                    assert(self.sheets@[j] == before[j]);
                }
            }
        }
        Ok(prev)
    }
}

/// The effective value at an address: an authored cell's value, or the
/// element a spill anchor's stored array spills there, with that anchor.
#[derive(Debug, PartialEq)]
pub struct Resolved<'a> {
    /// The effective value at the address.
    pub value: &'a CellValue,
    /// The spill anchor, for a spilled cell; `None` for an authored one.
    pub anchor: Option<Address>,
}

/// Every row of an array value is as wide as its first.
pub open spec fn rectangular(v: CellValue) -> bool {
    match v {
        CellValue::Array(rows) => forall|i: int| 0 <= i < rows@.len() ==> (#[trigger] rows@[i])@.len() == rows@[0]@.len(),
        _ => true,
    }
}

/// Every array value stored in the workbook is rectangular.
pub open spec fn arrays_rectangular(w: Workbook) -> bool {
    forall|i: int, a: Address|
        0 <= i < w.spec_sheets().len() && #[trigger] w.spec_sheets()[i]@.contains_key(a) ==> rectangular(
            w.spec_sheets()[i]@[a].spec_value(),
        )
}

/// The rectangle a value stored at `anchor` spills into: an array with at
/// least one row and one column (its width read from its first row) whose
/// rectangle stays inside the grid.
pub open spec fn stored_rect(anchor: Address, v: CellValue) -> Option<SpillRect> {
    match v {
        CellValue::Array(rows) => if rows@.len() >= 1 && rows@[0]@.len() >= 1 {
            spec_spill_rect(anchor, rows@.len() as usize, rows@[0]@.len() as usize)
        } else {
            None
        },
        _ => None,
    }
}

/// The array stored at `anchor` on `ws` spills onto `addr`, another cell.
pub open spec fn spills_onto(ws: Worksheet, anchor: Address, addr: Address) -> bool {
    &&& ws@.contains_key(anchor)
    &&& anchor != addr
    &&& stored_rect(anchor, ws@[anchor].spec_value()) matches Some(r) && r.spec_contains(addr)
}

/// The element of the array `v` stored at `anchor` that lands on `addr`.
pub open spec fn spilled_value(v: CellValue, anchor: Address, addr: Address) -> CellValue {
    match v {
        CellValue::Array(rows) => rows@[addr.row - anchor.row]@[addr.column - anchor.column],
        _ => v,
    }
}

/// What [`Workbook::resolved`] finds on sheet `ws` at `addr`: the authored
/// cell, else the spill onto `addr` of the first anchor in key order, else
/// nothing.
pub open spec fn resolves_to(ws: Worksheet, addr: Address, r: Option<Resolved>) -> bool {
    match r {
        None => !ws@.contains_key(addr) && forall|a: Address| !#[trigger] spills_onto(ws, a, addr),
        Some(res) => if ws@.contains_key(addr) {
            res.anchor is None && *res.value == ws@[addr].spec_value()
        } else {
            res.anchor matches Some(a) && spills_onto(ws, a, addr) && *res.value == spilled_value(
                ws@[a].spec_value(),
                a,
                addr,
            ) && forall|b: Address| #[trigger] spills_onto(ws, b, addr) ==> !text_lt(a1_text(b), a1_text(a))
        },
    }
}

impl Workbook {
    /// The effective value at `addr` on the sheet named `sheet`
    /// (case-insensitive): an authored cell's value, or the element spilled
    /// there by an array anchor on the same sheet together with that anchor
    /// (the first such anchor in key order). `None` when the sheet is missing
    /// or the address is neither authored nor spilled onto. Reads the stored
    /// grid; it does not recalculate.
    pub fn resolved(&self, sheet: &str, addr: Address) -> (r: Option<Resolved<'_>>)
        requires
            self.wf(),
            addr.wf(),
            arrays_rectangular(*self),
        ensures
            ({
                let i = first_fold_match(self.sheet_names(), folded(sheet@));
                if i < 0 {
                    r is None
                } else {
                    resolves_to(self.spec_sheets()[i], addr, r)
                }
            }),
    {
        let i = match self.sheet_index(sheet) {
            Some(i) => i,
            None => return None,
        };
        proof {
            lemma_first_fold_match(self.sheet_names(), folded(sheet@));
        }
        let ws = &self.sheets[i];
        match ws.get(addr) {
            Some(c) => {
                return Some(Resolved { value: c.value(), anchor: None });
            },
            None => {},
        }
        let cells = ws.iter();
        let mut t: usize = 0;
        while t < cells.len()
            invariant
                self.wf(),
                addr.wf(),
                arrays_rectangular(*self),
                0 <= i < self.sheets@.len(),
                first_fold_match(self.sheet_names(), folded(sheet@)) == i as int,
                *ws == self.sheets@[i as int],
                ws.wf(),
                !ws@.contains_key(addr),
                t <= cells@.len(),
                cells@.len() == ws@.len(),
                forall|k: int| 0 <= k < cells@.len() ==> (#[trigger] cells@[k]).0.wf() && ws@.contains_key(cells@[k].0)
                    && *cells@[k].1 == ws@[cells@[k].0],
                forall|k: int, l: int| 0 <= k < l < cells@.len() ==> text_lt(a1_text(#[trigger] cells@[k].0), a1_text(#[trigger] cells@[l].0)),
                forall|a: Address| #[trigger] ws@.contains_key(a) ==> exists|k: int| 0 <= k < cells@.len() && cells@[k].0 == a,
                forall|k: int| 0 <= k < t ==> !spills_onto(*ws, #[trigger] cells@[k].0, addr),
            decreases cells@.len() - t,
        {
            let (a, c) = cells[t];
            proof {
                assert(rectangular(ws@[a].spec_value())) by {
                    assert(self.spec_sheets()[i as int]@.contains_key(a));
                }
            }
            match c.value() {
                CellValue::Array(rows) => {
                    if rows.len() >= 1 && rows[0].len() >= 1 {
                        match spill_rect(a, rows.len(), rows[0].len()) {
                            Some(rect) => {
                                if a != addr {
                                    match rect.offset_of(addr) {
                                        Some((oi, oj)) => {
                                            proof {
                                                assert(rows@[oi as int]@.len() == rows@[0]@.len());
                                                assert(*c == ws@[a]);
                                                assert(stored_rect(a, ws@[a].spec_value()) == Some(rect));
                                                assert(spills_onto(*ws, a, addr));
                                                assert(rows@[oi as int]@[oj as int] == spilled_value(ws@[a].spec_value(), a, addr));
                                                assert forall|b: Address| #[trigger] spills_onto(*ws, b, addr) implies !text_lt(
                                                    a1_text(b),
                                                    a1_text(a),
                                                ) by {
                                                    let k = choose|k: int| 0 <= k < cells@.len() && cells@[k].0 == b;
                                                    lemma_text_lt_trichotomy(a1_text(b), a1_text(a));
                                                    if k < t {
                                                        assert(!spills_onto(*ws, cells@[k].0, addr));
                                                    } else if k > t {
                                                        assert(text_lt(a1_text(cells@[t as int].0), a1_text(cells@[k].0)));
                                                    }
                                                }
                                            }
                                            return Some(Resolved { value: &rows[oi][oj], anchor: Some(a) });
                                        },
                                        None => {},
                                    }
                                }
                            },
                            None => {},
                        }
                    }
                },
                _ => {},
            }
            proof {
                assert(!spills_onto(*ws, cells@[t as int].0, addr));
            }
            t = t + 1;
        }
        proof {
            assert forall|b: Address| !#[trigger] spills_onto(*ws, b, addr) by {
                if spills_onto(*ws, b, addr) {
                    let k = choose|k: int| 0 <= k < cells@.len() && cells@[k].0 == b;
                }
            }
        }
        None
    }

    /// The spill anchor that puts a value at `addr` on the sheet named
    /// `sheet` (case-insensitive); `None` when `addr` is authored, empty, or
    /// the sheet is missing.
    pub fn spill_anchor(&self, sheet: &str, addr: Address) -> (r: Option<Address>)
        requires
            self.wf(),
            addr.wf(),
            arrays_rectangular(*self),
        ensures
            ({
                let i = first_fold_match(self.sheet_names(), folded(sheet@));
                match r {
                    Some(a) => i >= 0 && !self.spec_sheets()[i]@.contains_key(addr) && spills_onto(self.spec_sheets()[i], a, addr)
                        && forall|b: Address| #[trigger] spills_onto(self.spec_sheets()[i], b, addr) ==> !text_lt(a1_text(b), a1_text(a)),
                    None => i < 0 || self.spec_sheets()[i]@.contains_key(addr) || forall|b: Address| !#[trigger] spills_onto(
                        self.spec_sheets()[i],
                        b,
                        addr,
                    ),
                }
            }),
    {
        match self.resolved(sheet, addr) {
            Some(res) => res.anchor,
            None => None,
        }
    }
}

/// A read gives back what a write wrote: after a write of `c` at `addr` on
/// the sheet named `sheet` (what [`Workbook::set`] ensures on success), the
/// same sheet name finds the same sheet, that address holds `c`, and every
/// other address holds what it held.
pub proof fn law_read_after_write(before: Workbook, after: Workbook, sheet: Seq<char>, addr: Address, c: Cell)
    requires
        0 <= first_fold_match(before.sheet_names(), folded(sheet)) < before.spec_sheets().len(),
        after.spec_sheets().len() == before.spec_sheets().len(),
        forall|j: int|
            0 <= j < before.spec_sheets().len() && j != first_fold_match(before.sheet_names(), folded(sheet))
                ==> #[trigger] after.spec_sheets()[j] == before.spec_sheets()[j],
        after.spec_sheets()[first_fold_match(before.sheet_names(), folded(sheet))].spec_name()
            == before.spec_sheets()[first_fold_match(before.sheet_names(), folded(sheet))].spec_name(),
        after.spec_sheets()[first_fold_match(before.sheet_names(), folded(sheet))]@
            == before.spec_sheets()[first_fold_match(before.sheet_names(), folded(sheet))]@.insert(addr, c),
    ensures
        ({
            let i = first_fold_match(before.sheet_names(), folded(sheet));
            &&& first_fold_match(after.sheet_names(), folded(sheet)) == i
            &&& after.spec_sheets()[i]@.contains_key(addr)
            &&& after.spec_sheets()[i]@[addr] == c
            &&& forall|b: Address| b != addr ==> (#[trigger] after.spec_sheets()[i]@.contains_key(b)
                == before.spec_sheets()[i]@.contains_key(b) && (before.spec_sheets()[i]@.contains_key(b)
                ==> after.spec_sheets()[i]@[b] == before.spec_sheets()[i]@[b]))
        }),
{
    let i = first_fold_match(before.sheet_names(), folded(sheet));
    assert(after.sheet_names() =~= before.sheet_names()) by {
        assert forall|j: int| 0 <= j < before.spec_sheets().len() implies after.sheet_names()[j] == before.sheet_names()[j] by {
            if j != i {
                assert(after.spec_sheets()[j] == before.spec_sheets()[j]);
            }
        }
    }
}

/// Clearing an address that a write filled, where nothing was before,
/// gives back the sheet's cells as they were.
pub proof fn law_clear_undoes_write(cells: Map<Address, Cell>, addr: Address, c: Cell)
    requires
        !cells.contains_key(addr),
    ensures
        cells.insert(addr, c).remove(addr) == cells,
{
    assert(cells.insert(addr, c).remove(addr) =~= cells);
}

/// No entry among the first `n` has a problem exactly when none of them
/// does.
proof fn lemma_no_ref_problem(entries: Seq<crate::registry::Entry>, sheets: Seq<Seq<char>>, tables: bool, n: int)
    requires
        0 <= n <= entries.len(),
    ensures
        first_ref_problem(entries, sheets, tables, n) is None <==> forall|k: int| 0 <= k < n ==> (if tables {
            table_ref_problem(#[trigger] entries[k], sheets)
        } else {
            name_ref_problem(entries[k], sheets)
        }) is None,
    decreases n,
{
    if n > 0 {
        lemma_no_ref_problem(entries, sheets, tables, n - 1);
    }
}

/// An entry that names an existing sheet still does after the sheet at
/// `idx` is renamed to `to` (which no other sheet's name folds like) and
/// the entries are repointed.
proof fn lemma_repointed_resolves(e: crate::registry::Entry, sheets: Seq<Seq<char>>, idx: int, to: Seq<char>)
    requires
        0 <= idx < sheets.len(),
        forall|j: int| 0 <= j < sheets.len() && j != idx ==> folded(sheets[j]) != folded(to),
        crate::named_ref::spec_split(e.1) matches Some((sheet, _)) && first_fold_match(sheets, folded(sheet)) >= 0,
    ensures
        crate::named_ref::spec_split(repointed(e.1, folded(sheets[idx]), to)) matches Some((sheet, _))
            && first_fold_match(sheets.update(idx, to), folded(sheet)) >= 0,
{
    let (sheet, a1) = crate::named_ref::spec_split(e.1)->0;
    let after = sheets.update(idx, to);
    lemma_first_fold_match(sheets, folded(sheet));
    if folded(sheet) == folded(sheets[idx]) {
        crate::named_ref::law_split_after_quote(to, a1);
        lemma_first_fold_match(after, folded(to));
        assert(after[idx] == to);
    } else {
        let j = first_fold_match(sheets, folded(sheet));
        assert(j != idx);
        assert(after[j] == sheets[j]);
        lemma_first_fold_match(after, folded(sheet));
    }
}

/// A rename keeps a saveable workbook saveable: when every named range and
/// table names an existing sheet, they still all do after the sheet at
/// `idx` is renamed to `to` (a name no other sheet's folds like) and every
/// `ref` naming it is repointed, as [`Workbook::rename_sheet`] does.
pub proof fn law_rename_keeps_refs_resolvable(
    names: Seq<crate::registry::Entry>,
    tables: Seq<crate::registry::Entry>,
    sheets: Seq<Seq<char>>,
    idx: int,
    to: Seq<char>,
)
    requires
        0 <= idx < sheets.len(),
        forall|j: int| 0 <= j < sheets.len() && j != idx ==> folded(sheets[j]) != folded(to),
    ensures
        dangling_refs_error(names, tables, sheets) is None ==> dangling_refs_error(
            repointed_entries(names, folded(sheets[idx]), to),
            repointed_entries(tables, folded(sheets[idx]), to),
            sheets.update(idx, to),
        ) is None,
{
    let old_fold = folded(sheets[idx]);
    let after = sheets.update(idx, to);
    let n2 = repointed_entries(names, old_fold, to);
    let t2 = repointed_entries(tables, old_fold, to);
    if dangling_refs_error(names, tables, sheets) is None {
        lemma_no_ref_problem(names, sheets, false, names.len() as int);
        lemma_no_ref_problem(tables, sheets, true, tables.len() as int);
        lemma_no_ref_problem(n2, after, false, n2.len() as int);
        lemma_no_ref_problem(t2, after, true, t2.len() as int);
        assert forall|k: int| 0 <= k < n2.len() implies name_ref_problem(#[trigger] n2[k], after) is None by {
            assert(name_ref_problem(names[k], sheets) is None);
            lemma_repointed_resolves(names[k], sheets, idx, to);
            assert(n2[k] == (names[k].0, repointed(names[k].1, old_fold, to)));
        }
        assert forall|k: int| 0 <= k < t2.len() implies table_ref_problem(#[trigger] t2[k], after) is None by {
            assert(table_ref_problem(tables[k], sheets) is None);
            lemma_repointed_resolves(tables[k], sheets, idx, to);
            assert(t2[k] == (tables[k].0, repointed(tables[k].1, old_fold, to)));
        }
    }
}

/// The shape `(rows, columns)` a stored value spills with: an array with
/// at least one row and one column (its width read from its first row).
pub open spec fn spill_shape(v: CellValue) -> Option<(usize, usize)> {
    match v {
        CellValue::Array(rows) => if rows@.len() >= 1 && rows@[0]@.len() >= 1 {
            Some((rows@.len() as usize, rows@[0]@.len() as usize))
        } else {
            None
        },
        _ => None,
    }
}

impl Workbook {
    /// The tab position of the first sheet whose folded name is `key`.
    pub fn sheet_index_folded(&self, key: &str) -> (r: Option<usize>)
        ensures
            match r {
                Some(i) => first_fold_match(self.sheet_names(), key@) == i as int,
                None => first_fold_match(self.sheet_names(), key@) == -1,
            },
    {
        let ghost ns = self.sheet_names();
        let mut i: usize = 0;
        proof {
            assert(ns.skip(0) =~= ns);
        }
        while i < self.sheets.len()
            invariant
                i <= self.sheets@.len() == ns.len(),
                ns == self.sheet_names(),
                first_fold_match(ns, key@) == (if first_fold_match(ns.skip(i as int), key@) < 0 {
                    -1
                } else {
                    first_fold_match(ns.skip(i as int), key@) + i
                }),
            decreases self.sheets@.len() - i,
        {
            proof {
                assert(ns.skip(i as int)[0] == ns[i as int]);
                assert(ns.skip(i as int).drop_first() =~= ns.skip(i as int + 1));
                assert(ns[i as int] == self.sheets@[i as int].spec_name());
            }
            let f = crate::casefold::simple_fold(self.sheets[i].name());
            if crate::text::str_equal(f.as_str(), key) {
                return Some(i);
            }
            i = i + 1;
        }
        proof {
            assert(ns.skip(i as int).len() == 0);
        }
        None
    }

    /// The authored cell at `cell` (folded sheet name and address), or
    /// `None`.
    pub fn cell_at(&self, cell: &CellRef) -> (r: Option<&Cell>)
        requires
            self.wf(),
            cell.addr.wf(),
        ensures
            ({
                let i = first_fold_match(self.sheet_names(), cell.sheet@);
                match r {
                    Some(c) => i >= 0 && self.spec_sheets()[i]@.contains_key(cell.addr) && *c == self.spec_sheets()[i]@[cell.addr],
                    None => i < 0 || !self.spec_sheets()[i]@.contains_key(cell.addr),
                }
            }),
    {
        match self.sheet_index_folded(cell.sheet.as_str()) {
            Some(i) => {
                proof {
                    lemma_first_fold_match(self.sheet_names(), cell.sheet@);
                }
                self.sheets[i].get(cell.addr)
            },
            None => None,
        }
    }

    /// The stored grid as the spill index reads it: each sheet's name and,
    /// in key order, its cells with the spill shape of their values.
    pub fn stored_sheets(&self) -> (r: Vec<StoredSheet>)
        requires
            self.wf(),
        ensures
            r@.len() == self.spec_sheets().len(),
            forall|i: int| 0 <= i < r@.len() ==> {
                let ws = self.spec_sheets()[i];
                let cs = (#[trigger] r@[i]).cells@;
                &&& r@[i].name@ == ws.spec_name()
                &&& cs.len() == ws@.len()
                &&& forall|k: int| 0 <= k < cs.len() ==> (#[trigger] cs[k]).addr.wf() && ws@.contains_key(cs[k].addr)
                    && cs[k].array == spill_shape(ws@[cs[k].addr].spec_value())
                &&& forall|k: int, l: int| 0 <= k < l < cs.len() ==> text_lt(a1_text(#[trigger] cs[k].addr), a1_text(#[trigger] cs[l].addr))
                &&& forall|a: Address| #[trigger] ws@.contains_key(a) ==> exists|k: int| 0 <= k < cs.len() && cs[k].addr == a
            },
    {
        let mut r: Vec<StoredSheet> = Vec::new();
        let mut i: usize = 0;
        while i < self.sheets.len()
            invariant
                self.wf(),
                i <= self.sheets@.len(),
                r@.len() == i,
                forall|i2: int| 0 <= i2 < i ==> {
                    let ws = self.spec_sheets()[i2];
                    let cs = (#[trigger] r@[i2]).cells@;
                    &&& r@[i2].name@ == ws.spec_name()
                    &&& cs.len() == ws@.len()
                    &&& forall|k: int| 0 <= k < cs.len() ==> (#[trigger] cs[k]).addr.wf() && ws@.contains_key(cs[k].addr)
                        && cs[k].array == spill_shape(ws@[cs[k].addr].spec_value())
                    &&& forall|k: int, l: int| 0 <= k < l < cs.len() ==> text_lt(a1_text(#[trigger] cs[k].addr), a1_text(#[trigger] cs[l].addr))
                    &&& forall|a: Address| #[trigger] ws@.contains_key(a) ==> exists|k: int| 0 <= k < cs.len() && cs[k].addr == a
                },
            decreases self.sheets@.len() - i,
        {
            let ws = &self.sheets[i];
            let entries = ws.iter();
            let mut cells: Vec<StoredCell> = Vec::new();
            let mut k: usize = 0;
            while k < entries.len()
                invariant
                    ws.wf(),
                    k <= entries@.len(),
                    cells@.len() == k,
                    forall|t: int| 0 <= t < k ==> (#[trigger] cells@[t]).addr == entries@[t].0 && cells@[t].array == spill_shape(
                        entries@[t].1.spec_value(),
                    ),
                decreases entries@.len() - k,
            {
                let (a, c) = entries[k];
                let shape = match c.value() {
                    CellValue::Array(rows) => {
                        if rows.len() >= 1 && rows[0].len() >= 1 {
                            Some((rows.len(), rows[0].len()))
                        } else {
                            None
                        }
                    },
                    _ => None,
                };
                cells.push(StoredCell { addr: a, array: shape });
                k = k + 1;
            }
            let ghost before = r@;
            r.push(StoredSheet { name: string_of(ws.name()), cells });
            proof {
                assert(r@[i as int] == StoredSheet { name: r@[i as int].name, cells });
                assert forall|i2: int| 0 <= i2 < i + 1 implies {
                    let ws2 = self.spec_sheets()[i2];
                    let cs = (#[trigger] r@[i2]).cells@;
                    &&& r@[i2].name@ == ws2.spec_name()
                    &&& cs.len() == ws2@.len()
                    &&& forall|k2: int| 0 <= k2 < cs.len() ==> (#[trigger] cs[k2]).addr.wf() && ws2@.contains_key(cs[k2].addr)
                        && cs[k2].array == spill_shape(ws2@[cs[k2].addr].spec_value())
                    &&& forall|k2: int, l: int| 0 <= k2 < l < cs.len() ==> text_lt(a1_text(#[trigger] cs[k2].addr), a1_text(#[trigger] cs[l].addr))
                    &&& forall|a: Address| #[trigger] ws2@.contains_key(a) ==> exists|k2: int| 0 <= k2 < cs.len() && cs[k2].addr == a
                } by {
                    if i2 < i {
                        assert(r@[i2] == before[i2]);
                    } else {
                        assert(self.spec_sheets()[i2] == *ws);
                        let cs = r@[i2].cells@;
                        assert(cs == cells@);
                        assert forall|a: Address| #[trigger] ws@.contains_key(a) implies exists|k2: int| 0 <= k2 < cs.len() && cs[k2].addr == a by {
                            let t = choose|t: int| 0 <= t < entries@.len() && entries@[t].0 == a;
                            assert(cs[t].addr == a);
                        }
                    }
                }
            }
            i = i + 1;
        }
        r
    }
}

} // verus!
