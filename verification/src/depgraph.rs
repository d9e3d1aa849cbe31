//! The dependency graph: for every formula cell, which cells, ranges and
//! named ranges it reads (its precedents), and the queries the recalc engine
//! runs over it — direct dependents of a changed cell, a deterministic
//! topological evaluation order, and the set of cells on a cycle.
//!
//! A range precedent is one node however large the range (range-node
//! compression): membership of a cell is a rectangle test. A name precedent
//! goes through the name's current target (name → target indirection), so a
//! write inside the target dirties the name's dependents.
//!
//! Formula cells are kept in canonical order — sheet name (folded) first,
//! compared character by character, then row, then column — which is the
//! order every query returns and the tie-break of the topological order.

use vstd::prelude::*;

use crate::address::Address;
use crate::casefold::{folded, simple_fold};
use crate::digraph::{
    blocked, cycle_members, edge, entries_in_range, graph_wf, is_kahn_order, is_path, kahn_order,
    lemma_kahn_order_unique, lemma_pigeonhole, lemma_same_edges_kahn, lemma_same_edges_walks,
    lemma_stuck_nodes, lists_view, on_cycle, reach_marks, reached_from, reaches, same_edges, succ_has, eligible,
};
use crate::text::{chars_of, string_of};

verus! {

/// A fully resolved cell coordinate: a sheet (by its case-folded name) and an
/// in-bounds address.
#[derive(Debug, Clone, PartialEq, Eq, PartialOrd, Ord, Hash)]
pub struct CellRef {
    /// The target sheet's name, simple-case-folded.
    pub sheet: String,
    /// The address within that sheet.
    pub addr: Address,
}

/// A resolved rectangular range: a sheet (folded name) and an inclusive,
/// top-left-first corner pair.
#[derive(Debug, Clone, PartialEq, Eq, PartialOrd, Ord, Hash)]
pub struct RangeRef {
    /// The target sheet's name, simple-case-folded.
    pub sheet: String,
    /// Top-left corner (minimum row, minimum column).
    pub start: Address,
    /// Bottom-right corner (maximum row, maximum column).
    pub end: Address,
}

/// One resolved precedent of a formula cell.
#[derive(Debug, Clone, PartialEq, Eq, Hash)]
pub enum Precedent {
    /// A single cell.
    Cell(CellRef),
    /// A rectangular range, one node whatever its area.
    Range(RangeRef),
    /// A workbook-scoped named range, by its case-folded name.
    Name(String),
    /// A reference with no concrete target (unknown sheet or name, or an
    /// unparseable formula), kept by its text; it carries no edge.
    Unresolved(String),
}

/// What a named range currently resolves to.
#[derive(Debug, Clone, PartialEq, Eq)]
pub enum NameTarget {
    /// A single cell.
    Cell(CellRef),
    /// A range.
    Range(RangeRef),
}

/// A cell as a value: folded sheet name and address.
pub type CellKey = (Seq<char>, Address);

/// A range as a value: folded sheet name and corners.
pub type RangeKey = (Seq<char>, Address, Address);

/// A precedent as a value.
pub enum PrecedentView {
    Cell(CellKey),
    Range(RangeKey),
    Name(Seq<char>),
    Unresolved(Seq<char>),
}

/// A name target as a value.
pub enum TargetView {
    Cell(CellKey),
    Range(RangeKey),
}

impl View for CellRef {
    type V = CellKey;

    open spec fn view(&self) -> CellKey {
        (self.sheet@, self.addr)
    }
}

impl CellRef {
    /// The cell at `addr` on the sheet whose folded name is `sheet`.
    pub fn new(sheet: String, addr: Address) -> (c: CellRef)
        ensures
            c.sheet == sheet,
            c.addr == addr,
            c@ == (sheet@, addr),
    {
        CellRef { sheet, addr }
    }
}

impl View for RangeRef {
    type V = RangeKey;

    open spec fn view(&self) -> RangeKey {
        (self.sheet@, self.start, self.end)
    }
}

impl View for Precedent {
    type V = PrecedentView;

    open spec fn view(&self) -> PrecedentView {
        match self {
            Precedent::Cell(c) => PrecedentView::Cell(c@),
            Precedent::Range(r) => PrecedentView::Range(r@),
            Precedent::Name(n) => PrecedentView::Name(n@),
            Precedent::Unresolved(t) => PrecedentView::Unresolved(t@),
        }
    }
}

impl View for NameTarget {
    type V = TargetView;

    open spec fn view(&self) -> TargetView {
        match self {
            NameTarget::Cell(c) => TargetView::Cell(c@),
            NameTarget::Range(r) => TargetView::Range(r@),
        }
    }
}

/// Whether cell `c` lies in range `r`: same sheet, inside the inclusive
/// rectangle.
pub open spec fn range_holds(r: RangeKey, c: CellKey) -> bool {
    &&& c.0 == r.0
    &&& r.1.row <= c.1.row <= r.2.row
    &&& r.1.column <= c.1.column <= r.2.column
}

impl RangeRef {
    /// Whether `cell` lies inside this range (same sheet, within the
    /// inclusive rectangle).
    pub fn contains(&self, cell: &CellRef) -> (b: bool)
        ensures
            b == range_holds(self@, cell@),
    {
        same_text(&cell.sheet, &self.sheet) && cell.addr.row >= self.start.row && cell.addr.row
            <= self.end.row && cell.addr.column >= self.start.column && cell.addr.column
            <= self.end.column
    }
}

/// Whether two strings hold the same characters.
pub fn same_text(a: &String, b: &String) -> (r: bool)
    ensures
        r == (a@ == b@),
{
    let x = chars_of(a.as_str());
    let y = chars_of(b.as_str());
    crate::text::chars_equal(x.as_slice(), y.as_slice())
}

// ---------------------------------------------------------------------------
// Canonical order
// ---------------------------------------------------------------------------

/// Lexicographic order on character sequences by code point (the order of
/// `String`'s `Ord`, since UTF-8 preserves code-point order).
pub open spec fn text_lt(a: Seq<char>, b: Seq<char>) -> bool
    decreases a.len(),
{
    if a.len() == 0 {
        b.len() > 0
    } else if b.len() == 0 {
        false
    } else if a[0] != b[0] {
        a[0] < b[0]
    } else {
        text_lt(a.drop_first(), b.drop_first())
    }
}

/// Row-major order on addresses.
pub open spec fn addr_lt(a: Address, b: Address) -> bool {
    a.row < b.row || (a.row == b.row && a.column < b.column)
}

/// Canonical order on cells: sheet, then address.
pub open spec fn cell_lt(a: CellKey, b: CellKey) -> bool {
    text_lt(a.0, b.0) || (a.0 == b.0 && addr_lt(a.1, b.1))
}

/// A sequence of cells in strictly increasing canonical order.
pub open spec fn strictly_sorted(s: Seq<CellKey>) -> bool {
    forall|i: int, j: int| 0 <= i < j < s.len() ==> cell_lt(#[trigger] s[i], #[trigger] s[j])
}

pub proof fn lemma_text_lt_irreflexive(a: Seq<char>)
    ensures
        !text_lt(a, a),
    decreases a.len(),
{
    if a.len() > 0 {
        lemma_text_lt_irreflexive(a.drop_first());
    }
}

pub proof fn lemma_text_lt_trichotomy(a: Seq<char>, b: Seq<char>)
    ensures
        a == b || text_lt(a, b) || text_lt(b, a),
        !(text_lt(a, b) && text_lt(b, a)),
    decreases a.len(),
{
    if a.len() > 0 && b.len() > 0 {
        lemma_text_lt_trichotomy(a.drop_first(), b.drop_first());
        if a[0] == b[0] && a.drop_first() == b.drop_first() {
            assert(a =~= seq![a[0]] + a.drop_first());
            assert(b =~= seq![b[0]] + b.drop_first());
        }
    } else if a.len() == 0 && b.len() == 0 {
        assert(a =~= b);
    }
}

pub proof fn lemma_text_lt_transitive(a: Seq<char>, b: Seq<char>, c: Seq<char>)
    requires
        text_lt(a, b),
        text_lt(b, c),
    ensures
        text_lt(a, c),
    decreases a.len(),
{
    if a.len() > 0 && a[0] == b[0] && b[0] == c[0] {
        lemma_text_lt_transitive(a.drop_first(), b.drop_first(), c.drop_first());
    }
}

/// The canonical order on cells is a strict total order.
pub proof fn lemma_cell_order(a: CellKey, b: CellKey, c: CellKey)
    ensures
        !cell_lt(a, a),
        a == b || cell_lt(a, b) || cell_lt(b, a),
        !(cell_lt(a, b) && cell_lt(b, a)),
        cell_lt(a, b) && cell_lt(b, c) ==> cell_lt(a, c),
{
    lemma_text_lt_irreflexive(a.0);
    lemma_text_lt_trichotomy(a.0, b.0);
    lemma_text_lt_trichotomy(b.0, c.0);
    lemma_text_lt_trichotomy(a.0, c.0);
    if text_lt(a.0, b.0) && text_lt(b.0, c.0) {
        lemma_text_lt_transitive(a.0, b.0, c.0);
    }
    if a.0 == b.0 && a.1 == b.1 {
        assert(a == b);
    }
}

/// Whether `a` comes before `b` in code-point lexicographic order.
pub(crate) fn chars_lt(a: &[char], b: &[char]) -> (r: bool)
    ensures
        r == text_lt(a@, b@),
{
    let mut i: usize = 0;
    assert(a@.skip(0) =~= a@);
    assert(b@.skip(0) =~= b@);
    while i < a.len() && i < b.len() && a[i] == b[i]
        invariant
            i <= a@.len(),
            i <= b@.len(),
            text_lt(a@, b@) == text_lt(a@.skip(i as int), b@.skip(i as int)),
        decreases a@.len() - i,
    {
        proof {
            assert(a@.skip(i as int).drop_first() =~= a@.skip(i as int + 1));
            assert(b@.skip(i as int).drop_first() =~= b@.skip(i as int + 1));
        }
        i = i + 1;
    }
    if i == a.len() {
        i < b.len()
    } else if i == b.len() {
        false
    } else {
        proof {
            assert(a@.skip(i as int)[0] == a@[i as int]);
            assert(b@.skip(i as int)[0] == b@[i as int]);
        }
        a[i] < b[i]
    }
}

/// Compares two cells in canonical order: `-1`, `0` or `1`.
pub fn compare_cells(a: &CellRef, b: &CellRef) -> (r: i8)
    ensures
        r == -1 <==> cell_lt(a@, b@),
        r == 0 <==> a@ == b@,
        r == 1 <==> cell_lt(b@, a@),
        r == -1 || r == 0 || r == 1,
{
    proof {
        lemma_cell_order(a@, b@, a@);
    }
    let x = chars_of(a.sheet.as_str());
    let y = chars_of(b.sheet.as_str());
    if chars_lt(x.as_slice(), y.as_slice()) {
        -1
    } else if chars_lt(y.as_slice(), x.as_slice()) {
        1
    } else {
        proof {
            lemma_text_lt_trichotomy(a.sheet@, b.sheet@);
        }
        if a.addr.row < b.addr.row || (a.addr.row == b.addr.row && a.addr.column < b.addr.column) {
            -1
        } else if a.addr.row == b.addr.row && a.addr.column == b.addr.column {
            0
        } else {
            1
        }
    }
}

/// A fresh copy of a cell reference with the same view.
pub fn copy_cell(c: &CellRef) -> (r: CellRef)
    ensures
        r@ == c@,
{
    CellRef { sheet: string_of(c.sheet.as_str()), addr: c.addr }
}

/// A fresh copy of a range reference with the same view.
pub fn copy_range(r: &RangeRef) -> (o: RangeRef)
    ensures
        o@ == r@,
{
    RangeRef { sheet: string_of(r.sheet.as_str()), start: r.start, end: r.end }
}

/// A fresh copy of a precedent with the same view.
pub fn copy_precedent(p: &Precedent) -> (o: Precedent)
    ensures
        o@ == p@,
{
    match p {
        Precedent::Cell(c) => Precedent::Cell(copy_cell(c)),
        Precedent::Range(r) => Precedent::Range(copy_range(r)),
        Precedent::Name(n) => Precedent::Name(string_of(n.as_str())),
        Precedent::Unresolved(t) => Precedent::Unresolved(string_of(t.as_str())),
    }
}

/// Whether two precedents are the same value.
pub fn same_precedent(a: &Precedent, b: &Precedent) -> (r: bool)
    ensures
        r == (a@ == b@),
{
    match (a, b) {
        (Precedent::Cell(x), Precedent::Cell(y)) => compare_cells(x, y) == 0,
        (Precedent::Range(x), Precedent::Range(y)) => same_text(&x.sheet, &y.sheet) && x.start
            == y.start && x.end == y.end,
        (Precedent::Name(x), Precedent::Name(y)) => same_text(x, y),
        (Precedent::Unresolved(x), Precedent::Unresolved(y)) => same_text(x, y),
        _ => false,
    }
}

// ---------------------------------------------------------------------------
// The graph
// ---------------------------------------------------------------------------

/// The dependency graph of a workbook: each formula cell with its resolved
/// precedents, and each named range with its resolved target.
#[derive(Debug, Clone, PartialEq)]
pub struct DependencyGraph {
    /// Every formula cell with its precedents in formula order (duplicates
    /// removed), in strictly increasing canonical order of the cells.
    precedents: Vec<(CellRef, Vec<Precedent>)>,
    /// Each named range (folded name, no name twice) with its current target.
    name_targets: Vec<(String, NameTarget)>,
}

/// The values of a list of precedents.
pub open spec fn prec_views(s: Seq<Precedent>) -> Seq<PrecedentView> {
    Seq::new(s.len(), |q: int| s[q]@)
}

/// `s` with every repeated value dropped, first occurrences kept in order.
pub open spec fn dedup_first(s: Seq<PrecedentView>) -> Seq<PrecedentView>
    decreases s.len(),
{
    if s.len() == 0 {
        s
    } else {
        let d = dedup_first(s.drop_last());
        if d.contains(s.last()) {
            d
        } else {
            d.push(s.last())
        }
    }
}

impl DependencyGraph {
    /// The formula cells, in canonical order.
    pub closed spec fn keys(self) -> Seq<CellKey> {
        Seq::new(self.precedents@.len(), |i: int| self.precedents@[i].0@)
    }

    /// The precedents of each formula cell, index-aligned with [`keys`](Self::keys).
    pub closed spec fn precs(self) -> Seq<Seq<PrecedentView>> {
        Seq::new(self.precedents@.len(), |i: int| prec_views(self.precedents@[i].1@))
    }

    /// Whether named range `n` has a target.
    pub closed spec fn has_target(self, n: Seq<char>) -> bool {
        exists|i: int| 0 <= i < self.name_targets@.len() && self.name_targets@[i].0@ == n
    }

    /// The named ranges and their targets.
    pub closed spec fn targets(self) -> Map<Seq<char>, TargetView> {
        Map::new(
            |n: Seq<char>| self.has_target(n),
            |n: Seq<char>|
                self.name_targets@[choose|i: int|
                    0 <= i < self.name_targets@.len() && self.name_targets@[i].0@ == n].1@,
        )
    }

    /// The position of formula cell `k` among [`keys`](Self::keys).
    pub closed spec fn key_index(self, k: CellKey) -> int {
        choose|i: int| 0 <= i < self.keys().len() && self.keys()[i] == k
    }

    /// The precedents of `k` if it is a formula cell.
    pub closed spec fn lookup(self, k: CellKey) -> Option<Seq<PrecedentView>> {
        if self.keys().contains(k) {
            Some(self.precs()[self.key_index(k)])
        } else {
            None
        }
    }

    /// Formula cells in strictly increasing canonical order; no name twice.
    pub closed spec fn wf(self) -> bool {
        &&& strictly_sorted(self.keys())
        &&& forall|i: int, j: int|
            0 <= i < j < self.name_targets@.len() ==> #[trigger] self.name_targets@[i].0@
                != #[trigger] self.name_targets@[j].0@
    }

    /// Exactly the formula cells have precedents to look up.
    pub proof fn lemma_lookup_iff_key(self, k: CellKey)
        ensures
            self.lookup(k) is Some <==> self.keys().contains(k),
    {
    }

    /// In a well-formed graph the cell at index `i` looks up its own
    /// precedents.
    proof fn lemma_lookup_at(self, idx: int)
        requires
            self.wf(),
            0 <= idx < self.keys().len(),
        ensures
            self.lookup(self.keys()[idx]) == Some(self.precs()[idx]),
    {
        let k = self.keys()[idx];
        assert(self.keys().contains(k));
        let j = self.key_index(k);
        if j != idx {
            lemma_cell_order(k, k, k);
            if j < idx {
                assert(cell_lt(self.keys()[j], self.keys()[idx]));
            } else {
                assert(cell_lt(self.keys()[idx], self.keys()[j]));
            }
        }
    }

    /// A well-formed graph holds its formula cells in strictly increasing
    /// canonical order (folded sheet name, then row, then column), so each
    /// once.
    pub proof fn lemma_keys_sorted(self)
        requires
            self.wf(),
        ensures
            strictly_sorted(self.keys()),
    {
    }

    /// What formula cell `i` reads: `lookup` gives its precedents, and it
    /// reads `c` exactly when one of them does; a precedent reads `c` when it
    /// is `c` itself, a range holding `c`, or a named range whose current
    /// target holds `c`, and an unresolved one reads nothing.
    pub proof fn lemma_reads_cell(self, i: int, c: CellKey)
        requires
            self.wf(),
            0 <= i < self.keys().len(),
        ensures
            self.lookup(self.keys()[i]) is Some,
            self.reads_cell(i, c) <==> exists|q: int|
                0 <= q < self.lookup(self.keys()[i])->0.len() && #[trigger] self.reads(self.lookup(self.keys()[i])->0[q], c),
            forall|p: PrecedentView| #[trigger] self.reads(p, c) == match p {
                PrecedentView::Cell(t) => t == c,
                PrecedentView::Range(r) => range_holds(r, c),
                PrecedentView::Name(n) => self.targets().contains_key(n) && target_holds(self.targets()[n], c),
                PrecedentView::Unresolved(_) => false,
            },
    {
        self.lemma_lookup_at(i);
        let ps = self.lookup(self.keys()[i])->0;
        assert(ps == self.precs()[i]);
        if self.reads_cell(i, c) {
            let q = choose|q: int| 0 <= q < self.precs()[i].len() && #[trigger] self.reads(self.precs()[i][q], c);
            assert(self.reads(ps[q], c));
        }
        if exists|q: int| 0 <= q < ps.len() && #[trigger] self.reads(ps[q], c) {
            let q = choose|q: int| 0 <= q < ps.len() && #[trigger] self.reads(ps[q], c);
            assert(self.reads(self.precs()[i][q], c));
        }
    }

    /// The graph over formula-cell positions: an edge `j -> i` exactly when
    /// formula cell `i` reads formula cell `j`, and a cell lies on a cycle
    /// exactly when a walk of at least one such edge leads from it back to
    /// it.
    pub proof fn lemma_edges(self)
        requires
            self.wf(),
        ensures
            self.dep_lists().len() == self.keys().len(),
            forall|i: int, j: int| #[trigger] self.depends(i, j) <==> (0 <= i < self.keys().len() && 0 <= j < self.keys().len()
                && self.reads_cell(i, self.keys()[j])),
            forall|i: int, j: int| #[trigger] edge(self.dep_lists(), j, i) <==> self.depends(i, j),
            forall|i: int| #[trigger] self.on_cycle_at(i) == on_cycle(self.dep_lists(), i),
    {
        assert(self.keys().len() == self.precedents@.len());
        assert(self.precedents@.len() == self.precedents.len());
        self.lemma_dep_lists();
    }

    /// In a well-formed graph the entry for name    /// In a well-formed graph the entry for name `name_targets[i]` is its
    /// target.
    proof fn lemma_target_at(self, i: int)
        requires
            self.wf(),
            0 <= i < self.name_targets@.len(),
        ensures
            self.targets().contains_key(self.name_targets@[i].0@),
            self.targets()[self.name_targets@[i].0@] == self.name_targets@[i].1@,
    {
        let n = self.name_targets@[i].0@;
        assert(self.has_target(n));
        let j = choose|j: int| 0 <= j < self.name_targets@.len() && self.name_targets@[j].0@ == n;
        if j != i {
            if j < i {
                assert(self.name_targets@[j].0@ != self.name_targets@[i].0@);
            } else {
                assert(self.name_targets@[i].0@ != self.name_targets@[j].0@);
            }
        }
    }

    /// An empty graph: no formula cells, no named ranges.
    pub fn new() -> (g: DependencyGraph)
        ensures
            g.wf(),
            g.keys() == Seq::<CellKey>::empty(),
            g.targets() == Map::<Seq<char>, TargetView>::empty(),
            forall|k: CellKey| #[trigger] g.lookup(k) is None,
    {
        let g = DependencyGraph { precedents: Vec::new(), name_targets: Vec::new() };
        assert(g.keys() =~= Seq::<CellKey>::empty());
        assert(g.targets() =~= Map::<Seq<char>, TargetView>::empty());
        g
    }

    /// Records `target` as the current target of the named range `name`
    /// (case-folded), replacing an earlier one.
    pub fn set_name_target(&mut self, name: String, target: NameTarget)
        requires
            old(self).wf(),
        ensures
            final(self).wf(),
            final(self).keys() == old(self).keys(),
            final(self).precs() == old(self).precs(),
            final(self).targets() == old(self).targets().insert(name@, target@),
            forall|k: CellKey| #[trigger] final(self).lookup(k) == old(self).lookup(k),
    {
        let ghost before = *self;
        let mut i: usize = 0;
        while i < self.name_targets.len()
            invariant
                i <= self.name_targets@.len(),
                *self == before,
                before == *old(self),
                before.wf(),
                forall|j: int| 0 <= j < i ==> self.name_targets@[j].0@ != name@,
            decreases self.name_targets@.len() - i,
        {
            if same_text(&self.name_targets[i].0, &name) {
                let ghost n = name@;
                let ghost t = target@;
                self.name_targets.set(i, (name, target));
                proof {
                    assert forall|a: int, b: int|
                        0 <= a < b < self.name_targets@.len() implies #[trigger] self.name_targets@[a].0@
                            != #[trigger] self.name_targets@[b].0@ by {
                        assert(before.name_targets@[a].0@ != before.name_targets@[b].0@);
                    }
                    assert(self.keys() =~= before.keys());
                    assert(self.precs() =~= before.precs());
                    assert(self.wf());
                    assert forall|m: Seq<char>| #[trigger] self.has_target(m) == before.targets().insert(n, t).contains_key(m) by {
                        if before.has_target(m) {
                            let j = choose|j: int| 0 <= j < before.name_targets@.len() && before.name_targets@[j].0@ == m;
                            assert(self.name_targets@[j].0@ == m || j == i);
                            if j == i as int {
                                assert(self.name_targets@[j].0@ == n);
                            }
                        }
                        if self.has_target(m) {
                            let j = choose|j: int| 0 <= j < self.name_targets@.len() && self.name_targets@[j].0@ == m;
                            if j != i {
                                assert(before.name_targets@[j].0@ == m);
                            }
                        }
                    }
                    assert forall|m: Seq<char>| #[trigger] self.has_target(m) implies self.targets()[m] == before.targets().insert(n, t)[m] by {
                        let j = choose|j: int| 0 <= j < self.name_targets@.len() && self.name_targets@[j].0@ == m;
                        self.lemma_target_at(j);
                        if j != i as int {
                            assert(before.name_targets@[j] == self.name_targets@[j]);
                            before.lemma_target_at(j);
                        }
                    }
                    assert(self.targets() =~= before.targets().insert(n, t));
                }
                return;
            }
            i = i + 1;
        }
        let ghost n = name@;
        let ghost t = target@;
        self.name_targets.push((name, target));
        proof {
            let last = self.name_targets@.len() - 1;
            assert forall|a: int, b: int|
                0 <= a < b < self.name_targets@.len() implies #[trigger] self.name_targets@[a].0@
                    != #[trigger] self.name_targets@[b].0@ by {
                if b == last {
                    assert(self.name_targets@[a] == before.name_targets@[a]);
                } else {
                    assert(before.name_targets@[a].0@ != before.name_targets@[b].0@);
                }
            }
            assert(self.keys() =~= before.keys());
            assert(self.precs() =~= before.precs());
            assert(self.wf());
            assert forall|m: Seq<char>| #[trigger] self.has_target(m) == before.targets().insert(n, t).contains_key(m) by {
                if before.has_target(m) {
                    let j = choose|j: int| 0 <= j < before.name_targets@.len() && before.name_targets@[j].0@ == m;
                    assert(self.name_targets@[j].0@ == m);
                }
                if m == n {
                    assert(self.name_targets@[last].0@ == m);
                }
                if self.has_target(m) {
                    let j = choose|j: int| 0 <= j < self.name_targets@.len() && self.name_targets@[j].0@ == m;
                    if j != last {
                        assert(before.name_targets@[j].0@ == m);
                    }
                }
            }
            assert forall|m: Seq<char>| #[trigger] self.has_target(m) implies self.targets()[m] == before.targets().insert(n, t)[m] by {
                let j = choose|j: int| 0 <= j < self.name_targets@.len() && self.name_targets@[j].0@ == m;
                self.lemma_target_at(j);
                if j != last {
                    assert(before.name_targets@[j] == self.name_targets@[j]);
                    before.lemma_target_at(j);
                }
            }
            assert(self.targets() =~= before.targets().insert(n, t));
        }
    }
}

/// The values of a list of cells.
pub open spec fn cell_views(s: Seq<CellRef>) -> Seq<CellKey> {
    Seq::new(s.len(), |i: int| s[i]@)
}

/// `p` without repeated precedents, first occurrences kept in order.
fn dedup_precedents(p: &Vec<Precedent>) -> (r: Vec<Precedent>)
    ensures
        prec_views(r@) == dedup_first(prec_views(p@)),
{
    let mut r: Vec<Precedent> = Vec::new();
    let mut i: usize = 0;
    while i < p.len()
        invariant
            i <= p@.len(),
            prec_views(r@) == dedup_first(prec_views(p@).take(i as int)),
        decreases p@.len() - i,
    {
        let mut found = false;
        let mut j: usize = 0;
        while j < r.len()
            invariant
                j <= r@.len(),
                i < p@.len(),
                found == exists|t: int| 0 <= t < j && r@[t]@ == p@[i as int]@,
            decreases r@.len() - j,
        {
            if same_precedent(&r[j], &p[i]) {
                found = true;
            }
            j = j + 1;
        }
        proof {
            let pv = prec_views(p@);
            assert(pv.take(i as int + 1).drop_last() =~= pv.take(i as int));
            assert(pv.take(i as int + 1).last() == p@[i as int]@);
            if found {
                let t = choose|t: int| 0 <= t < j && r@[t]@ == p@[i as int]@;
                assert(prec_views(r@)[t] == p@[i as int]@);
            } else {
                assert(!prec_views(r@).contains(p@[i as int]@)) by {
                    if prec_views(r@).contains(p@[i as int]@) {
                        let t = choose|t: int| 0 <= t < prec_views(r@).len() && prec_views(r@)[t] == p@[i as int]@;
                        assert(r@[t]@ == p@[i as int]@);
                    }
                }
            }
        }
        if !found {
            let c = copy_precedent(&p[i]);
            let ghost before = r@;
            r.push(c);
            proof {
                assert(prec_views(r@) =~= prec_views(before).push(p@[i as int]@));
            }
        }
        i = i + 1;
    }
    proof {
        assert(prec_views(p@).take(p@.len() as int) =~= prec_views(p@));
    }
    r
}

impl DependencyGraph {
    /// Where `cell` is among the formula cells: `Ok(i)` if it is the `i`-th,
    /// else `Err(i)` with `i` the position it would take.
    fn position_of(&self, cell: &CellRef) -> (r: Result<usize, usize>)
        requires
            self.wf(),
        ensures
            match r {
                Ok(i) => i < self.keys().len() && self.keys()[i as int] == cell@,
                Err(i) => i <= self.keys().len() && (forall|j: int| 0 <= j < i ==> cell_lt(#[trigger] self.keys()[j], cell@))
                    && (forall|j: int| i <= j < self.keys().len() ==> cell_lt(cell@, #[trigger] self.keys()[j])),
            },
    {
        let mut lo: usize = 0;
        let mut hi: usize = self.precedents.len();
        while lo < hi
            invariant
                self.wf(),
                lo <= hi <= self.keys().len(),
                self.keys().len() == self.precedents@.len(),
                forall|j: int| 0 <= j < lo ==> cell_lt(#[trigger] self.keys()[j], cell@),
                forall|j: int| hi <= j < self.keys().len() ==> cell_lt(cell@, #[trigger] self.keys()[j]),
            decreases hi - lo,
        {
            let mid = lo + (hi - lo) / 2;
            let c = compare_cells(&self.precedents[mid].0, cell);
            proof {
                assert(self.keys()[mid as int] == self.precedents@[mid as int].0@);
            }
            if c == 0 {
                return Ok(mid);
            } else if c < 0 {
                proof {
                    assert forall|j: int| 0 <= j < mid + 1 implies cell_lt(#[trigger] self.keys()[j], cell@) by {
                        if j < mid {
                            assert(cell_lt(self.keys()[j], self.keys()[mid as int]));
                            lemma_cell_order(self.keys()[j], self.keys()[mid as int], cell@);
                        }
                    }
                }
                lo = mid + 1;
            } else {
                proof {
                    assert forall|j: int| mid <= j < self.keys().len() implies cell_lt(cell@, #[trigger] self.keys()[j]) by {
                        if j > mid {
                            assert(cell_lt(self.keys()[mid as int], self.keys()[j]));
                            lemma_cell_order(cell@, self.keys()[mid as int], self.keys()[j]);
                        }
                    }
                }
                hi = mid;
            }
        }
        Err(lo)
    }

    /// Records `cell` as a formula cell reading `precedents` (repeated
    /// precedents dropped, first occurrences kept), replacing what it read
    /// before.
    pub fn insert_formula(&mut self, cell: CellRef, precedents: Vec<Precedent>)
        requires
            old(self).wf(),
        ensures
            final(self).wf(),
            final(self).targets() == old(self).targets(),
            forall|k: CellKey| #[trigger] final(self).lookup(k) == (if k == cell@ {
                Some(dedup_first(prec_views(precedents@)))
            } else {
                old(self).lookup(k)
            }),
    {
        let ghost before = *self;
        let ghost d = dedup_first(prec_views(precedents@));
        let deduped = dedup_precedents(&precedents);
        let pos = self.position_of(&cell);
        let ghost k0 = cell@;
        match pos {
            Ok(i) => {
                self.precedents.set(i, (cell, deduped));
                proof {
                    assert(self.keys() =~= before.keys());
                    assert(self.precs() =~= before.precs().update(i as int, d));
                    assert(self.targets() =~= before.targets());
                    assert forall|k: CellKey| #[trigger] self.lookup(k) == (if k == k0 { Some(d) } else { before.lookup(k) }) by {
                        self.lemma_lookup_at(i as int);
                        if self.keys().contains(k) {
                            let j = self.key_index(k);
                            assert(self.keys()[j] == k);
                            self.lemma_lookup_at(j);
                            before.lemma_lookup_at(j);
                        } else {
                            assert(!before.keys().contains(k));
                        }
                    }
                }
            },
            Err(i) => {
                self.precedents.insert(i, (cell, deduped));
                proof {
                    assert(self.keys() =~= before.keys().insert(i as int, k0));
                    assert(self.precs() =~= before.precs().insert(i as int, d));
                    assert(self.targets() =~= before.targets());
                    assert forall|a: int, b: int| 0 <= a < b < self.keys().len() implies cell_lt(#[trigger] self.keys()[a], #[trigger] self.keys()[b]) by {
                        if a < i && b < i {
                            assert(cell_lt(before.keys()[a], before.keys()[b]));
                        } else if a < i && b == i {
                        } else if a < i {
                            assert(cell_lt(before.keys()[a], before.keys()[b - 1]));
                        } else if a == i {
                        } else {
                            assert(cell_lt(before.keys()[a - 1], before.keys()[b - 1]));
                        }
                    }
                    assert(self.wf());
                    assert forall|k: CellKey| #[trigger] self.lookup(k) == (if k == k0 { Some(d) } else { before.lookup(k) }) by {
                        if self.keys().contains(k) {
                            let j = self.key_index(k);
                            assert(self.keys()[j] == k);
                            self.lemma_lookup_at(j);
                            lemma_cell_order(k, k, k);
                            if j < i {
                                assert(cell_lt(self.keys()[j], self.keys()[i as int]));
                                assert(before.keys()[j] == k);
                                before.lemma_lookup_at(j);
                            } else if j > i {
                                assert(cell_lt(self.keys()[i as int], self.keys()[j]));
                                assert(before.keys()[j - 1] == k);
                                before.lemma_lookup_at(j - 1);
                            } else {
                                assert(k == k0);
                            }
                        } else {
                            if before.keys().contains(k) {
                                let j = before.key_index(k);
                                if j < i {
                                    assert(self.keys()[j] == k);
                                } else {
                                    assert(self.keys()[j + 1] == k);
                                }
                            }
                            if k == k0 {
                                assert(self.keys()[i as int] == k0);
                            }
                        }
                    }
                }
            },
        }
    }

    /// The precedents of `cell` in formula order, or `None` if `cell` is not a
    /// formula cell.
    pub fn precedents_of(&self, cell: &CellRef) -> (r: Option<&[Precedent]>)
        requires
            self.wf(),
        ensures
            match r {
                Some(s) => self.lookup(cell@) == Some(prec_views(s@)),
                None => self.lookup(cell@) is None,
            },
    {
        match self.position_of(cell) {
            Ok(i) => {
                proof {
                    self.lemma_lookup_at(i as int);
                }
                Some(self.precedents[i].1.as_slice())
            },
            Err(i) => {
                proof {
                    if self.keys().contains(cell@) {
                        let j = choose|j: int| 0 <= j < self.keys().len() && self.keys()[j] == cell@;
                        lemma_cell_order(cell@, cell@, cell@);
                    }
                }
                None
            },
        }
    }

    /// Whether `cell` is a formula cell tracked by the graph.
    pub fn is_formula(&self, cell: &CellRef) -> (b: bool)
        requires
            self.wf(),
        ensures
            b == self.lookup(cell@) is Some,
    {
        match self.position_of(cell) {
            Ok(i) => {
                proof {
                    assert(self.keys().contains(cell@));
                }
                true
            },
            Err(i) => {
                proof {
                    if self.keys().contains(cell@) {
                        let j = choose|j: int| 0 <= j < self.keys().len() && self.keys()[j] == cell@;
                        lemma_cell_order(cell@, cell@, cell@);
                    }
                }
                false
            },
        }
    }

    /// Every formula cell, in canonical order, each once.
    pub fn formula_cells(&self) -> (r: Vec<CellRef>)
        ensures
            cell_views(r@) == self.keys(),
            self.wf() ==> strictly_sorted(cell_views(r@)),
    {
        let mut r: Vec<CellRef> = Vec::new();
        let mut i: usize = 0;
        while i < self.precedents.len()
            invariant
                i <= self.precedents@.len(),
                cell_views(r@) == self.keys().take(i as int),
            decreases self.precedents@.len() - i,
        {
            let c = copy_cell(&self.precedents[i].0);
            let ghost before = r@;
            r.push(c);
            proof {
                assert(self.keys()[i as int] == self.precedents@[i as int].0@);
                assert(r@ == before.push(c));
                assert(cell_views(before).len() == i);
                assert(cell_views(r@) =~= self.keys().take(i as int + 1));
            }
            i = i + 1;
        }
        proof {
            assert(self.keys().take(i as int) =~= self.keys());
        }
        r
    }
}

// ---------------------------------------------------------------------------
// What a formula reads
// ---------------------------------------------------------------------------

/// Whether a name target holds cell `c`.
pub open spec fn target_holds(t: TargetView, c: CellKey) -> bool {
    match t {
        TargetView::Cell(x) => x == c,
        TargetView::Range(r) => range_holds(r, c),
    }
}

impl DependencyGraph {
    /// Whether precedent `p` reads cell `c`: the cell itself, a range holding
    /// it, or a named range whose current target holds it.
    pub closed spec fn reads(self, p: PrecedentView, c: CellKey) -> bool {
        match p {
            PrecedentView::Cell(t) => t == c,
            PrecedentView::Range(r) => range_holds(r, c),
            PrecedentView::Name(n) => self.targets().contains_key(n) && target_holds(self.targets()[n], c),
            PrecedentView::Unresolved(_) => false,
        }
    }

    /// Whether formula cell `i` reads cell `c` through one of its precedents.
    pub closed spec fn reads_cell(self, i: int, c: CellKey) -> bool {
        exists|q: int| 0 <= q < self.precs()[i].len() && #[trigger] self.reads(self.precs()[i][q], c)
    }

    /// Whether one of the first `q` precedents of formula cell `i` reads `c`.
    pub closed spec fn reads_before(self, i: int, q: int, c: CellKey) -> bool {
        exists|t: int| 0 <= t < q && #[trigger] self.reads(self.precs()[i][t], c)
    }

    /// Whether formula cell `i` reads formula cell `j` (the edge `j → i`).
    pub closed spec fn depends(self, i: int, j: int) -> bool {
        0 <= i < self.keys().len() && 0 <= j < self.keys().len() && self.reads_cell(i, self.keys()[j])
    }

    /// The graph over formula-cell positions: entry `i` lists, in increasing
    /// order, the formula cells that formula cell `i` reads.
    pub closed spec fn dep_lists(self) -> Seq<Seq<usize>> {
        Seq::new(
            self.keys().len(),
            |i: int|
                Seq::new(self.keys().len(), |j: int| j as usize).filter(
                    |j: usize| self.depends(i, j as int),
                ),
        )
    }

    proof fn lemma_dep_lists(self)
        requires
            self.keys().len() <= usize::MAX,
        ensures
            self.dep_lists().len() == self.keys().len(),
            forall|i: int, k: int|
                0 <= i < self.keys().len() && 0 <= k < self.dep_lists()[i].len() ==> #[trigger] self.dep_lists()[i][k]
                    < self.keys().len(),
            forall|i: int, j: int| #[trigger] edge(self.dep_lists(), j, i) <==> self.depends(i, j),
    {
        broadcast use vstd::seq_lib::group_filter_ensures;

        let n = self.keys().len();
        let g = self.dep_lists();
        assert forall|i: int, k: int| 0 <= i < n && 0 <= k < g[i].len() implies #[trigger] g[i][k] < n by {
            let all = Seq::new(n, |j: int| j as usize);
            let pred = |j: usize| self.depends(i, j as int);
            assert(g[i] == all.filter(pred));
            assert(pred(all.filter(pred)[k]));
        }
        assert forall|i: int, j: int| #[trigger] edge(g, j, i) <==> self.depends(i, j) by {
            if 0 <= i < n {
                let all = Seq::new(n, |j2: int| j2 as usize);
                let pred = |j2: usize| self.depends(i, j2 as int);
                assert(g[i] == all.filter(pred));
                if edge(g, j, i) {
                    let k = choose|k: int| 0 <= k < g[i].len() && g[i][k] == j as usize;
                    assert(pred(all.filter(pred)[k]));
                }
                if self.depends(i, j) {
                    assert(all[j] == j as usize);
                    assert(pred(all[j]));
                    all.lemma_filter_contains(pred, j);
                }
            }
        }
    }

    /// The current target of the named range `name`, if it has one.
    fn target_of(&self, name: &String) -> (r: Option<&NameTarget>)
        requires
            self.wf(),
        ensures
            match r {
                Some(t) => self.targets().contains_key(name@) && self.targets()[name@] == t@,
                None => !self.targets().contains_key(name@),
            },
    {
        let mut i: usize = 0;
        while i < self.name_targets.len()
            invariant
                self.wf(),
                i <= self.name_targets@.len(),
                forall|j: int| 0 <= j < i ==> self.name_targets@[j].0@ != name@,
            decreases self.name_targets@.len() - i,
        {
            if same_text(&self.name_targets[i].0, name) {
                proof {
                    self.lemma_target_at(i as int);
                }
                return Some(&self.name_targets[i].1);
            }
            i = i + 1;
        }
        None
    }

    /// Whether precedent `p` reads `cell`.
    fn precedent_reads(&self, p: &Precedent, cell: &CellRef) -> (b: bool)
        requires
            self.wf(),
        ensures
            b == self.reads(p@, cell@),
    {
        match p {
            Precedent::Cell(c) => compare_cells(c, cell) == 0,
            Precedent::Range(r) => r.contains(cell),
            Precedent::Name(n) => match self.target_of(n) {
                Some(NameTarget::Cell(c)) => compare_cells(c, cell) == 0,
                Some(NameTarget::Range(r)) => r.contains(cell),
                None => false,
            },
            Precedent::Unresolved(_) => false,
        }
    }

    /// Whether formula cell `i` reads `cell`.
    fn formula_reads(&self, i: usize, cell: &CellRef) -> (b: bool)
        requires
            self.wf(),
            i < self.keys().len(),
        ensures
            b == self.reads_cell(i as int, cell@),
    {
        let ps = &self.precedents[i].1;
        let mut q: usize = 0;
        while q < ps.len()
            invariant
                self.wf(),
                i < self.keys().len(),
                ps@ == self.precedents@[i as int].1@,
                q <= ps@.len(),
                forall|t: int| 0 <= t < q ==> !self.reads(#[trigger] self.precs()[i as int][t], cell@),
            decreases ps@.len() - q,
        {
            if self.precedent_reads(&ps[q], cell) {
                proof {
                    assert(self.precs()[i as int][q as int] == ps@[q as int]@);
                }
                return true;
            }
            proof {
                assert(self.precs()[i as int][q as int] == ps@[q as int]@);
            }
            q = q + 1;
        }
        proof {
            if self.reads_cell(i as int, cell@) {
                let t = choose|t: int| 0 <= t < self.precs()[i as int].len() && #[trigger] self.reads(self.precs()[i as int][t], cell@);
            }
        }
        false
    }

    /// The formula cells that read `cell` directly — through a single-cell
    /// reference, a range that holds it, or a named range whose target holds
    /// it — in canonical order, each once.
    pub fn direct_dependents_of(&self, cell: &CellRef) -> (r: Vec<CellRef>)
        requires
            self.wf(),
        ensures
            strictly_sorted(cell_views(r@)),
            forall|k: CellKey| #[trigger] cell_views(r@).contains(k) <==> exists|i: int|
                0 <= i < self.keys().len() && self.keys()[i] == k && self.reads_cell(i, cell@),
    {
        let mut r: Vec<CellRef> = Vec::new();
        let mut i: usize = 0;
        while i < self.precedents.len()
            invariant
                self.wf(),
                i <= self.keys().len(),
                self.keys().len() == self.precedents@.len(),
                strictly_sorted(cell_views(r@)),
                forall|a: int| 0 <= a < r@.len() ==> self.keys().take(i as int).contains(#[trigger] cell_views(r@)[a]),
                forall|k: CellKey| #[trigger] cell_views(r@).contains(k) <==> exists|t: int|
                    0 <= t < i && self.keys()[t] == k && self.reads_cell(t, cell@),
            decreases self.precedents@.len() - i,
        {
            if self.formula_reads(i, cell) {
                let c = copy_cell(&self.precedents[i].0);
                let ghost before = r@;
                r.push(c);
                proof {
                    assert(c@ == self.keys()[i as int]);
                    assert(cell_views(r@) =~= cell_views(before).push(c@));
                    assert forall|a: int, b: int| 0 <= a < b < cell_views(r@).len() implies cell_lt(#[trigger] cell_views(r@)[a], #[trigger] cell_views(r@)[b]) by {
                        if b == cell_views(r@).len() - 1 {
                            assert(cell_views(r@)[a] == cell_views(before)[a]);
                            assert(self.keys().take(i as int).contains(cell_views(before)[a]));
                            let t = choose|t: int| 0 <= t < i && self.keys().take(i as int)[t] == cell_views(before)[a];
                            assert(self.keys()[t] == cell_views(before)[a]);
                            assert(cell_lt(self.keys()[t], self.keys()[i as int]));
                        } else {
                            assert(cell_views(r@)[a] == cell_views(before)[a]);
                            assert(cell_views(r@)[b] == cell_views(before)[b]);
                        }
                    }
                    assert forall|a: int| 0 <= a < r@.len() implies self.keys().take(i as int + 1).contains(#[trigger] cell_views(r@)[a]) by {
                        if a < before.len() {
                            assert(cell_views(r@)[a] == cell_views(before)[a]);
                            assert(self.keys().take(i as int).contains(cell_views(before)[a]));
                            let t = choose|t: int| 0 <= t < i && self.keys().take(i as int)[t] == cell_views(before)[a];
                            assert(self.keys().take(i as int + 1)[t] == cell_views(r@)[a]);
                        } else {
                            assert(self.keys().take(i as int + 1)[i as int] == cell_views(r@)[a]);
                        }
                    }
                    assert forall|k: CellKey| #[trigger] cell_views(r@).contains(k) <==> exists|t: int|
                        0 <= t < i + 1 && self.keys()[t] == k && self.reads_cell(t, cell@) by {
                        if cell_views(r@).contains(k) {
                            let a = choose|a: int| 0 <= a < cell_views(r@).len() && cell_views(r@)[a] == k;
                            if a < before.len() {
                                assert(cell_views(before)[a] == k);
                                assert(cell_views(before).contains(k));
                            } else {
                                assert(self.keys()[i as int] == k);
                            }
                        }
                        if exists|t: int| 0 <= t < i + 1 && self.keys()[t] == k && self.reads_cell(t, cell@) {
                            let t = choose|t: int| 0 <= t < i + 1 && self.keys()[t] == k && self.reads_cell(t, cell@);
                            if t < i {
                                assert(cell_views(before).contains(k));
                                let a = choose|a: int| 0 <= a < cell_views(before).len() && cell_views(before)[a] == k;
                                assert(cell_views(r@)[a] == k);
                            } else {
                                assert(cell_views(r@)[before.len() as int] == k);
                            }
                        }
                    }
                }
            } else {
                proof {
                    assert forall|a: int| 0 <= a < r@.len() implies self.keys().take(i as int + 1).contains(#[trigger] cell_views(r@)[a]) by {
                        assert(self.keys().take(i as int).contains(cell_views(r@)[a]));
                        let t = choose|t: int| 0 <= t < i && self.keys().take(i as int)[t] == cell_views(r@)[a];
                        assert(self.keys().take(i as int + 1)[t] == cell_views(r@)[a]);
                    }
                    assert forall|k: CellKey| #[trigger] cell_views(r@).contains(k) <==> exists|t: int|
                        0 <= t < i + 1 && self.keys()[t] == k && self.reads_cell(t, cell@) by {
                        if exists|t: int| 0 <= t < i + 1 && self.keys()[t] == k && self.reads_cell(t, cell@) {
                            let t = choose|t: int| 0 <= t < i + 1 && self.keys()[t] == k && self.reads_cell(t, cell@);
                            assert(t < i);
                        }
                    }
                }
            }
            i = i + 1;
        }
        r
    }
}

// ---------------------------------------------------------------------------
// The graph over formula-cell positions
// ---------------------------------------------------------------------------

/// A list of node positions below `n`, each at most once.
pub open spec fn index_list(v: Seq<usize>, n: int) -> bool {
    &&& v.no_duplicates()
    &&& forall|t: int| 0 <= t < v.len() ==> #[trigger] v[t] < n
}

impl DependencyGraph {
    /// The position of formula cell `c`, as a list of zero or one positions.
    fn formula_cell_at(&self, c: &CellRef) -> (v: Vec<usize>)
        requires
            self.wf(),
        ensures
            index_list(v@, self.keys().len() as int),
            forall|j: int| 0 <= j < self.keys().len() ==> (v@.contains(j as usize) <==> #[trigger] self.keys()[j] == c@),
    {
        let mut v: Vec<usize> = Vec::new();
        match self.position_of(c) {
            Ok(i) => {
                v.push(i);
                proof {
                    assert(self.keys().len() == self.precedents@.len());
                    assert(self.precedents@.len() == self.precedents.len());
                    assert(v@ == seq![i]);
                    assert forall|j: int| 0 <= j < self.keys().len() implies (v@.contains(j as usize) <==> #[trigger] self.keys()[j] == c@) by {
                        if self.keys()[j] == c@ {
                            if j != i as int {
                                lemma_cell_order(c@, c@, c@);
                                if j < i {
                                    assert(cell_lt(self.keys()[j], self.keys()[i as int]));
                                } else {
                                    assert(cell_lt(self.keys()[i as int], self.keys()[j]));
                                }
                            }
                            assert(v@[0] == j as usize);
                        }
                        if v@.contains(j as usize) {
                            let t = choose|t: int| 0 <= t < v@.len() && v@[t] == j as usize;
                            assert(t == 0);
                            assert(j == i as int);
                        }
                    }
                }
            },
            Err(i) => {
                proof {
                    assert forall|j: int| 0 <= j < self.keys().len() implies (v@.contains(j as usize) <==> #[trigger] self.keys()[j] == c@) by {
                        lemma_cell_order(c@, c@, c@);
                        if j < i {
                            assert(cell_lt(self.keys()[j], c@));
                        } else {
                            assert(cell_lt(c@, self.keys()[j]));
                        }
                    }
                }
            },
        }
        v
    }

    /// The positions of the formula cells inside range `r`, increasing.
    fn formula_cells_in(&self, r: &RangeRef) -> (v: Vec<usize>)
        requires
            self.wf(),
        ensures
            index_list(v@, self.keys().len() as int),
            forall|j: int| 0 <= j < self.keys().len() ==> (v@.contains(j as usize) <==> range_holds(r@, #[trigger] self.keys()[j])),
    {
        let mut v: Vec<usize> = Vec::new();
        let mut j: usize = 0;
        while j < self.precedents.len()
            invariant
                j <= self.precedents@.len(),
                self.keys().len() == self.precedents@.len(),
                index_list(v@, j as int),
                forall|x: int| 0 <= x < self.keys().len() ==> (v@.contains(x as usize) <==> x < j && range_holds(r@, #[trigger] self.keys()[x])),
            decreases self.precedents@.len() - j,
        {
            if r.contains(&self.precedents[j].0) {
                let ghost before = v@;
                v.push(j);
                proof {
                    assert(self.keys()[j as int] == self.precedents@[j as int].0@);
                    assert forall|x: int| 0 <= x < self.keys().len() implies (v@.contains(x as usize) <==> x < j + 1 && range_holds(r@, #[trigger] self.keys()[x])) by {
                        if v@.contains(x as usize) {
                            let t = choose|t: int| 0 <= t < v@.len() && v@[t] == x as usize;
                            if t < before.len() {
                                assert(before.contains(x as usize));
                            }
                        }
                        if x < j + 1 && range_holds(r@, self.keys()[x]) {
                            if x < j {
                                let t = choose|t: int| 0 <= t < before.len() && before[t] == x as usize;
                                assert(v@[t] == x as usize);
                            } else {
                                assert(v@[before.len() as int] == x as usize);
                            }
                        }
                    }
                    assert(!before.contains(j));
                }
            } else {
                proof {
                    assert(self.keys()[j as int] == self.precedents@[j as int].0@);
                }
            }
            j = j + 1;
        }
        v
    }

    /// The positions of the formula cells that precedent `p` reads.
    fn covered(&self, p: &Precedent) -> (v: Vec<usize>)
        requires
            self.wf(),
        ensures
            index_list(v@, self.keys().len() as int),
            forall|j: int| 0 <= j < self.keys().len() ==> (v@.contains(j as usize) <==> self.reads(p@, #[trigger] self.keys()[j])),
    {
        match p {
            Precedent::Cell(c) => self.formula_cell_at(c),
            Precedent::Range(r) => self.formula_cells_in(r),
            Precedent::Name(n) => match self.target_of(n) {
                Some(NameTarget::Cell(c)) => self.formula_cell_at(c),
                Some(NameTarget::Range(r)) => self.formula_cells_in(r),
                None => Vec::new(),
            },
            Precedent::Unresolved(_) => Vec::new(),
        }
    }
}

impl DependencyGraph {
    /// The formula cells that precedent `prec` covers, following a named
    /// range to its target: each once, and only cells that hold a formula
    /// (literal and empty cells carry no ordering edge).
    pub fn formula_precedent_cells(&self, prec: &Precedent) -> (r: Vec<CellRef>)
        requires
            self.wf(),
        ensures
            cell_views(r@).no_duplicates(),
            forall|k: CellKey|
                #[trigger] cell_views(r@).contains(k) <==> (self.keys().contains(k) && self.reads(prec@, k)),
    {
        let v = self.covered(prec);
        let r = self.cells_of(&v);
        proof {
            let n = self.keys().len();
            let cs = cell_views(r@);
            assert(cs == self.cells_at(v@));
            assert(cs.len() == v@.len());
            assert forall|t: int| 0 <= t < cs.len() implies #[trigger] cs[t] == self.keys()[v@[t] as int] by {}
            assert forall|k: CellKey| #[trigger] cs.contains(k) <==> (self.keys().contains(k) && self.reads(prec@, k)) by {
                if cs.contains(k) {
                    let t = choose|t: int| 0 <= t < cs.len() && cs[t] == k;
                    let j = v@[t] as int;
                    assert(cs[t] == self.keys()[j]);
                    assert(v@.contains(j as usize));
                    assert(self.keys().contains(k));
                }
                if self.keys().contains(k) && self.reads(prec@, k) {
                    let j = choose|j: int| 0 <= j < n && self.keys()[j] == k;
                    assert(self.reads(prec@, self.keys()[j]));
                    assert(v@.contains(j as usize));
                    let t = choose|t: int| 0 <= t < v@.len() && v@[t] == j as usize;
                    assert(0 <= t < cs.len());
                    assert(cs[t] == self.keys()[v@[t] as int]);
                    assert(self.keys().len() == self.precedents@.len());
                    assert(self.precedents@.len() == self.precedents.len());
                    assert(v@[t] as int == j);
                    assert(cs[t] == k);
                }
            }
            assert forall|a: int, b: int| 0 <= a < cs.len() && 0 <= b < cs.len() && a != b implies cs[a] != cs[b] by {
                let x = v@[a] as int;
                let y = v@[b] as int;
                assert(x != y);
                lemma_cell_order(self.keys()[x], self.keys()[x], self.keys()[x]);
                if x < y {
                    assert(cell_lt(self.keys()[x], self.keys()[y]));
                } else {
                    assert(cell_lt(self.keys()[y], self.keys()[x]));
                    lemma_cell_order(self.keys()[y], self.keys()[y], self.keys()[y]);
                }
            }
        }
        r
    }
}

impl DependencyGraph {
    /// The positions of the formula cells that formula cell `i` reads, each
    /// once. `mark` is scratch space: all `false` before and after.
    fn row_of(&self, i: usize, mark: &mut Vec<bool>) -> (row: Vec<usize>)
        requires
            self.wf(),
            i < self.keys().len(),
            old(mark)@.len() == self.keys().len(),
            forall|x: int| 0 <= x < old(mark)@.len() ==> !old(mark)@[x],
        ensures
            final(mark)@.len() == self.keys().len(),
            forall|x: int| 0 <= x < final(mark)@.len() ==> !final(mark)@[x],
            index_list(row@, self.keys().len() as int),
            forall|j: int| 0 <= j < self.keys().len() ==> (row@.contains(j as usize) <==> #[trigger] self.depends(i as int, j)),
    {
        let n = self.precedents.len();
        let ghost nn = self.keys().len() as int;
        let ps = &self.precedents[i].1;
        let mut row: Vec<usize> = Vec::new();
        let mut q: usize = 0;
        while q < ps.len()
            invariant
                self.wf(),
                n == nn == self.keys().len(),
                i < n,
                ps@ == self.precedents@[i as int].1@,
                q <= ps@.len(),
                mark@.len() == n,
                index_list(row@, nn),
                forall|x: int| 0 <= x < n ==> (mark@[x] <==> row@.contains(x as usize)),
                forall|j: int| #![trigger self.keys()[j]] 0 <= j < n ==> (row@.contains(j as usize) <==> self.reads_before(i as int, q as int, self.keys()[j])),
            decreases ps@.len() - q,
        {
            let cov = self.covered(&ps[q]);
            proof {
                assert(self.precs()[i as int][q as int] == ps@[q as int]@);
            }
            let ghost row0 = row@;
            let mut c: usize = 0;
            while c < cov.len()
                invariant
                    n == nn == self.keys().len(),
                    mark@.len() == n,
                    index_list(cov@, nn),
                    c <= cov@.len(),
                    index_list(row@, nn),
                    forall|x: int| 0 <= x < n ==> (mark@[x] <==> row@.contains(x as usize)),
                    forall|x: usize| x < n ==> (#[trigger] row@.contains(x) <==> (row0.contains(x) || cov@.take(c as int).contains(x))),
                decreases cov@.len() - c,
            {
                let j = cov[c];
                proof {
                    assert(cov@.take(c as int + 1) =~= cov@.take(c as int).push(j));
                }
                if !mark[j] {
                    let ghost before = row@;
                    mark.set(j, true);
                    row.push(j);
                    proof {
                        assert(!before.contains(j));
                        assert forall|x: int| 0 <= x < n implies (mark@[x] <==> row@.contains(x as usize)) by {
                            if x == j as int {
                                assert(row@[before.len() as int] == j);
                            } else {
                                if row@.contains(x as usize) {
                                    let k = choose|k: int| 0 <= k < row@.len() && row@[k] == x as usize;
                                    assert(k < before.len());
                                    assert(before[k] == x as usize);
                                }
                                if before.contains(x as usize) {
                                    let k = choose|k: int| 0 <= k < before.len() && before[k] == x as usize;
                                    assert(row@[k] == x as usize);
                                }
                            }
                        }
                        assert forall|x: usize| x < n implies (#[trigger] row@.contains(x) <==> (row0.contains(x) || cov@.take(c as int + 1).contains(x))) by {
                            if x == j {
                                assert(row@[before.len() as int] == j);
                                assert(cov@.take(c as int + 1)[c as int] == j);
                            } else {
                                if row@.contains(x) {
                                    let k = choose|k: int| 0 <= k < row@.len() && row@[k] == x;
                                    assert(before[k] == x);
                                }
                                if before.contains(x) {
                                    let k = choose|k: int| 0 <= k < before.len() && before[k] == x;
                                    assert(row@[k] == x);
                                }
                                if cov@.take(c as int + 1).contains(x) {
                                    let k = choose|k: int| 0 <= k < c + 1 && #[trigger] cov@.take(c as int + 1)[k] == x;
                                    assert(k < c);
                                    assert(cov@.take(c as int)[k] == x);
                                }
                                if cov@.take(c as int).contains(x) {
                                    let k = choose|k: int| 0 <= k < c && #[trigger] cov@.take(c as int)[k] == x;
                                    assert(cov@.take(c as int + 1)[k] == x);
                                }
                            }
                        }
                    }
                } else {
                    proof {
                        assert forall|x: usize| x < n implies (#[trigger] row@.contains(x) <==> (row0.contains(x) || cov@.take(c as int + 1).contains(x))) by {
                            if x == j {
                                assert(cov@.take(c as int + 1)[c as int] == j);
                            } else {
                                if cov@.take(c as int + 1).contains(x) {
                                    let k = choose|k: int| 0 <= k < c + 1 && #[trigger] cov@.take(c as int + 1)[k] == x;
                                    assert(k < c);
                                    assert(cov@.take(c as int)[k] == x);
                                }
                                if cov@.take(c as int).contains(x) {
                                    let k = choose|k: int| 0 <= k < c && #[trigger] cov@.take(c as int)[k] == x;
                                    assert(cov@.take(c as int + 1)[k] == x);
                                }
                            }
                        }
                    }
                }
                c = c + 1;
            }
            proof {
                assert(cov@.take(cov@.len() as int) =~= cov@);
                assert forall|j: int| #![trigger self.keys()[j]] 0 <= j < n implies (row@.contains(j as usize) <==> self.reads_before(i as int, q + 1, self.keys()[j])) by {
                    let x = j as usize;
                    assert(row@.contains(x) <==> (row0.contains(x) || cov@.take(cov@.len() as int).contains(x)));
                    assert(cov@.contains(x) <==> self.reads(ps@[q as int]@, self.keys()[j]));
                    assert(row0.contains(x) <==> self.reads_before(i as int, q as int, self.keys()[j]));
                    if cov@.contains(x) {
                        assert(self.reads(self.precs()[i as int][q as int], self.keys()[j]));
                    }
                    if exists|t: int| 0 <= t < q + 1 && #[trigger] self.reads(self.precs()[i as int][t], self.keys()[j]) {
                        let t = choose|t: int| 0 <= t < q + 1 && #[trigger] self.reads(self.precs()[i as int][t], self.keys()[j]);
                        if t == q as int {
                            assert(cov@.contains(x));
                        } else {
                            assert(row0.contains(x));
                        }
                    }
                }
            }
            q = q + 1;
        }
        proof {
            assert forall|j: int| 0 <= j < n implies (row@.contains(j as usize) <==> #[trigger] self.depends(i as int, j)) by {
                if self.depends(i as int, j) {
                    let t2 = choose|t2: int| 0 <= t2 < self.precs()[i as int].len() && #[trigger] self.reads(self.precs()[i as int][t2], self.keys()[j]);
                }
            }
        }
        // Clear the scratch marks again.
        let mut t: usize = 0;
        assert(row@.subrange(0, row@.len() as int) =~= row@);
        while t < row.len()
            invariant
                n == self.keys().len(),
                mark@.len() == n,
                index_list(row@, n as int),
                t <= row@.len(),
                forall|x: int| 0 <= x < n ==> (mark@[x] <==> row@.subrange(t as int, row@.len() as int).contains(x as usize)),
            decreases row@.len() - t,
        {
            let j = row[t];
            mark.set(j, false);
            proof {
                assert forall|x: int| 0 <= x < n implies (mark@[x] <==> row@.subrange(t as int + 1, row@.len() as int).contains(x as usize)) by {
                    let s0 = row@.subrange(t as int, row@.len() as int);
                    let s1 = row@.subrange(t as int + 1, row@.len() as int);
                    if x == j as int {
                        if s1.contains(x as usize) {
                            let k = choose|k: int| 0 <= k < s1.len() && s1[k] == x as usize;
                            assert(row@[t as int + 1 + k] == row@[t as int]);
                        }
                    } else {
                        if s1.contains(x as usize) {
                            let k = choose|k: int| 0 <= k < s1.len() && s1[k] == x as usize;
                            assert(s0[k + 1] == x as usize);
                        }
                        if s0.contains(x as usize) {
                            let k = choose|k: int| 0 <= k < s0.len() && s0[k] == x as usize;
                            assert(k != 0);
                            assert(s1[k - 1] == x as usize);
                        }
                    }
                }
            }
            t = t + 1;
        }
        row
    }
}

impl DependencyGraph {
    /// The graph over formula-cell positions as predecessor and successor
    /// lists: `preds[i]` holds the formula cells that cell `i` reads, and
    /// `succ[j]` the formula cells that read cell `j`.
    fn position_graph(&self) -> (r: (Vec<Vec<usize>>, Vec<Vec<usize>>))
        requires
            self.wf(),
        ensures
            graph_wf(lists_view(r.0@), lists_view(r.1@)),
            r.0@.len() == self.keys().len(),
            forall|i: int, j: int| #[trigger] edge(lists_view(r.0@), j, i) <==> self.depends(i, j),
    {
        let n = self.precedents.len();
        let mut mark: Vec<bool> = Vec::new();
        let mut succ: Vec<Vec<usize>> = Vec::new();
        let mut i: usize = 0;
        while i < n
            invariant
                i <= n,
                mark@.len() == i,
                succ@.len() == i,
                forall|x: int| 0 <= x < i ==> !mark@[x],
                forall|x: int| 0 <= x < i ==> (#[trigger] succ@[x])@ == Seq::<usize>::empty(),
            decreases n - i,
        {
            mark.push(false);
            succ.push(Vec::new());
            i = i + 1;
        }
        let mut preds: Vec<Vec<usize>> = Vec::new();
        i = 0;
        while i < n
            invariant
                self.wf(),
                n == self.keys().len(),
                i <= n,
                mark@.len() == n,
                forall|x: int| 0 <= x < n ==> !mark@[x],
                preds@.len() == i,
                forall|a: int| 0 <= a < i ==> index_list(#[trigger] preds@[a]@, n as int),
                forall|a: int, j: int| 0 <= a < i && 0 <= j < n ==> (preds@[a]@.contains(j as usize) <==> #[trigger] self.depends(a, j)),
            decreases n - i,
        {
            let row = self.row_of(i, &mut mark);
            preds.push(row);
            i = i + 1;
        }
        i = 0;
        while i < n
            invariant
                n == preds@.len() == succ@.len(),
                i <= n,
                forall|a: int| 0 <= a < n ==> index_list(#[trigger] preds@[a]@, n as int),
                forall|j: int| 0 <= j < n ==> index_list(#[trigger] succ@[j]@, i as int),
                forall|j: int, x: usize| 0 <= j < n ==> (#[trigger] succ@[j]@.contains(x) <==> (x < i && preds@[x as int]@.contains(j as usize))),
            decreases n - i,
        {
            let row = &preds[i];
            let mut t: usize = 0;
            while t < row.len()
                invariant
                    n == preds@.len() == succ@.len(),
                    i < n,
                    row@ == preds@[i as int]@,
                    t <= row@.len(),
                    forall|a: int| 0 <= a < n ==> index_list(#[trigger] preds@[a]@, n as int),
                    forall|j: int| 0 <= j < n ==> index_list(#[trigger] succ@[j]@, i as int + 1),
                    forall|j: int, x: usize| 0 <= j < n ==> (#[trigger] succ@[j]@.contains(x) <==> ((x < i && preds@[x as int]@.contains(j as usize)) || (x == i && row@.take(t as int).contains(j as usize)))),
                decreases row@.len() - t,
            {
                let j = row[t];
                let ghost before = succ@;
                proof {
                    assert(index_list(preds@[i as int]@, n as int));
                    assert(row@[t as int] < n);
                    assert(!row@.take(t as int).contains(j)) by {
                        if row@.take(t as int).contains(j) {
                            let k = choose|k: int| 0 <= k < t && #[trigger] row@.take(t as int)[k] == j;
                            assert(row@[k] == row@[t as int]);
                        }
                    }
                    assert(!before[j as int]@.contains(i));
                    assert(row@.take(t as int + 1) =~= row@.take(t as int).push(j));
                }
                succ[j].push(i);
                proof {
                    assert forall|jj: int| 0 <= jj < n implies index_list(#[trigger] succ@[jj]@, i as int + 1) by {
                        if jj == j as int {
                            assert(succ@[jj]@ == before[jj]@.push(i));
                        } else {
                            assert(succ@[jj] == before[jj]);
                        }
                    }
                    assert forall|jj: int, x: usize| 0 <= jj < n implies (#[trigger] succ@[jj]@.contains(x) <==> ((x < i && preds@[x as int]@.contains(jj as usize)) || (x == i && row@.take(t as int + 1).contains(jj as usize)))) by {
                        if jj == j as int {
                            assert(succ@[jj]@ == before[jj]@.push(i));
                            if x == i {
                                assert(succ@[jj]@[before[jj]@.len() as int] == i);
                                assert(row@.take(t as int + 1)[t as int] == j);
                            } else {
                                if succ@[jj]@.contains(x) {
                                    let k = choose|k: int| 0 <= k < succ@[jj]@.len() && succ@[jj]@[k] == x;
                                    assert(before[jj]@[k] == x);
                                }
                                if before[jj]@.contains(x) {
                                    let k = choose|k: int| 0 <= k < before[jj]@.len() && before[jj]@[k] == x;
                                    assert(succ@[jj]@[k] == x);
                                }
                            }
                        } else {
                            assert(succ@[jj] == before[jj]);
                            if x == i && row@.take(t as int + 1).contains(jj as usize) {
                                let k = choose|k: int| 0 <= k < t + 1 && #[trigger] row@.take(t as int + 1)[k] == jj as usize;
                                assert(k < t);
                                assert(row@.take(t as int)[k] == jj as usize);
                            }
                            if x == i && row@.take(t as int).contains(jj as usize) {
                                let k = choose|k: int| 0 <= k < t && #[trigger] row@.take(t as int)[k] == jj as usize;
                                assert(row@.take(t as int + 1)[k] == jj as usize);
                            }
                        }
                    }
                }
                t = t + 1;
            }
            proof {
                assert(row@.take(row@.len() as int) =~= row@);
            }
            i = i + 1;
        }
        proof {
            let g = lists_view(preds@);
            let gs = lists_view(succ@);
            assert forall|a: int, k: int| 0 <= a < g.len() && 0 <= k < g[a].len() implies #[trigger] g[a][k] < g.len() by {
                assert(index_list(preds@[a]@, n as int));
            }
            assert forall|a: int| 0 <= a < g.len() implies (#[trigger] g[a]).no_duplicates() by {
                assert(index_list(preds@[a]@, n as int));
            }
            assert forall|a: int, k: int| 0 <= a < gs.len() && 0 <= k < gs[a].len() implies #[trigger] gs[a][k] < gs.len() by {
                assert(index_list(succ@[a]@, n as int));
            }
            assert forall|a: int| 0 <= a < gs.len() implies (#[trigger] gs[a]).no_duplicates() by {
                assert(index_list(succ@[a]@, n as int));
            }
            assert forall|a: int, b: int| #[trigger] edge(g, b, a) <==> #[trigger] succ_has(gs, b, a) by {
                if 0 <= a < n && 0 <= b < n {
                    assert(succ@[b]@.contains(a as usize) <==> (a < n && preds@[a]@.contains(b as usize)));
                }
            }
            assert forall|a: int, b: int| #[trigger] edge(g, b, a) <==> self.depends(a, b) by {
                if 0 <= a < n && 0 <= b < n {
                    assert(preds@[a]@.contains(b as usize) <==> self.depends(a, b));
                }
            }
        }
        (preds, succ)
    }
}

// ---------------------------------------------------------------------------
// Evaluation order and cycles
// ---------------------------------------------------------------------------

/// No node excluded.
pub open spec fn no_exclusions(n: int) -> Seq<bool> {
    Seq::new(n as nat, |i: int| false)
}

impl DependencyGraph {
    /// The formula cells at positions `pos`.
    pub closed spec fn cells_at(self, pos: Seq<usize>) -> Seq<CellKey> {
        Seq::new(pos.len(), |k: int| self.keys()[pos[k] as int])
    }

    /// The smallest-position-first Kahn order over the formula cells that
    /// leaves out the `excluded` cells and every cell after an excluded cell
    /// or a cycle (the order is unique when it exists; see
    /// [`lemma_kahn_order_unique`]).
    pub closed spec fn kahn_positions(self, excluded: Seq<bool>) -> Seq<usize> {
        choose|o: Seq<usize>| is_kahn_order(self.dep_lists(), excluded, o)
    }

    /// The formula cells that belong to `cycle`, as exclusion flags.
    pub closed spec fn cycle_excluded(self, cycle: Seq<CellKey>) -> Seq<bool> {
        Seq::new(self.keys().len(), |i: int| cycle.contains(self.keys()[i]))
    }

    /// Whether formula cell `i` lies on a dependency cycle.
    pub closed spec fn on_cycle_at(self, i: int) -> bool {
        on_cycle(self.dep_lists(), i)
    }

    /// The Kahn order with the given exclusions, as positions.
    fn order_with(&self, excluded: &Vec<bool>) -> (r: Vec<usize>)
        requires
            self.wf(),
            excluded@.len() == self.keys().len(),
        ensures
            r@ == self.kahn_positions(excluded@),
            is_kahn_order(self.dep_lists(), excluded@, r@),
            r@.no_duplicates(),
            forall|k: int| 0 <= k < r@.len() ==> #[trigger] r@[k] < self.keys().len(),
            forall|v: usize| v < self.keys().len() ==> (#[trigger] r@.contains(v) <==> !blocked(self.dep_lists(), excluded@, v as int)),
    {
        let (preds, succ) = self.position_graph();
        let order = kahn_order(&preds, &succ, excluded);
        proof {
            let g = lists_view(preds@);
            let d = self.dep_lists();
            assert(self.keys().len() == self.precedents@.len());
            assert(self.precedents@.len() == self.precedents.len());
            self.lemma_dep_lists();
            assert(same_edges(g, d));
            assert(entries_in_range(g));
            assert(entries_in_range(d));
            lemma_same_edges_kahn(g, d, excluded@, order@);
            lemma_same_edges_walks(g, d);
            let c = self.kahn_positions(excluded@);
            assert(is_kahn_order(d, excluded@, c));
            lemma_kahn_order_unique(d, excluded@, order@, c);
        }
        order
    }

    /// The formula cells at positions `pos`, in that order.
    fn cells_of(&self, pos: &Vec<usize>) -> (r: Vec<CellRef>)
        requires
            forall|k: int| 0 <= k < pos@.len() ==> #[trigger] pos@[k] < self.keys().len(),
        ensures
            cell_views(r@) == self.cells_at(pos@),
    {
        let mut r: Vec<CellRef> = Vec::new();
        let mut k: usize = 0;
        while k < pos.len()
            invariant
                k <= pos@.len(),
                forall|t: int| 0 <= t < pos@.len() ==> #[trigger] pos@[t] < self.keys().len(),
                cell_views(r@) == self.cells_at(pos@).take(k as int),
            decreases pos@.len() - k,
        {
            let p = pos[k];
            proof {
                assert(self.keys().len() == self.precedents@.len());
                assert(self.keys()[p as int] == self.precedents@[p as int].0@);
            }
            let c = copy_cell(&self.precedents[p].0);
            let ghost before = r@;
            r.push(c);
            proof {
                assert(r@ == before.push(c));
                assert(cell_views(before).len() == k);
                assert(self.cells_at(pos@)[k as int] == c@);
                assert(cell_views(r@) =~= self.cells_at(pos@).take(k as int + 1));
            }
            k = k + 1;
        }
        proof {
            assert(self.cells_at(pos@).take(k as int) =~= self.cells_at(pos@));
        }
        r
    }

    /// The formula cells that lie on a dependency cycle (a strongly connected
    /// component of more than one cell, or a cell that reads itself), in
    /// canonical order.
    pub fn cycle_cells(&self) -> (r: Vec<CellRef>)
        requires
            self.wf(),
        ensures
            strictly_sorted(cell_views(r@)),
            forall|k: CellKey| #[trigger] cell_views(r@).contains(k) <==> exists|i: int|
                0 <= i < self.keys().len() && self.keys()[i] == k && self.on_cycle_at(i),
    {
        let (preds, succ) = self.position_graph();
        let on = cycle_members(&preds, &succ);
        proof {
            let g = lists_view(preds@);
            assert(self.keys().len() == self.precedents@.len());
            assert(self.precedents@.len() == self.precedents.len());
            self.lemma_dep_lists();
            assert(same_edges(g, self.dep_lists()));
            lemma_same_edges_walks(g, self.dep_lists());
        }
        let mut r: Vec<CellRef> = Vec::new();
        let mut i: usize = 0;
        while i < self.precedents.len()
            invariant
                self.wf(),
                i <= self.keys().len(),
                self.keys().len() == self.precedents@.len() == on@.len(),
                forall|x: int| 0 <= x < on@.len() ==> (on@[x] <==> self.on_cycle_at(x)),
                strictly_sorted(cell_views(r@)),
                forall|a: int| 0 <= a < r@.len() ==> self.keys().take(i as int).contains(#[trigger] cell_views(r@)[a]),
                forall|k: CellKey| #[trigger] cell_views(r@).contains(k) <==> exists|t: int|
                    0 <= t < i && self.keys()[t] == k && self.on_cycle_at(t),
            decreases self.precedents@.len() - i,
        {
            if on[i] {
                let c = copy_cell(&self.precedents[i].0);
                let ghost before = r@;
                r.push(c);
                proof {
                    assert(c@ == self.keys()[i as int]);
                    assert(on@[i as int]);
                    assert(self.on_cycle_at(i as int));
                    assert(cell_views(r@) =~= cell_views(before).push(c@));
                    assert forall|a: int, b: int| 0 <= a < b < cell_views(r@).len() implies cell_lt(#[trigger] cell_views(r@)[a], #[trigger] cell_views(r@)[b]) by {
                        assert(cell_views(r@)[a] == cell_views(before)[a]);
                        if b == cell_views(r@).len() - 1 {
                            assert(self.keys().take(i as int).contains(cell_views(before)[a]));
                            let t = choose|t: int| 0 <= t < i && self.keys().take(i as int)[t] == cell_views(before)[a];
                            assert(self.keys()[t] == cell_views(before)[a]);
                            assert(cell_lt(self.keys()[t], self.keys()[i as int]));
                        } else {
                            assert(cell_views(r@)[b] == cell_views(before)[b]);
                        }
                    }
                    assert forall|a: int| 0 <= a < r@.len() implies self.keys().take(i as int + 1).contains(#[trigger] cell_views(r@)[a]) by {
                        if a < before.len() {
                            assert(cell_views(r@)[a] == cell_views(before)[a]);
                            assert(self.keys().take(i as int).contains(cell_views(before)[a]));
                            let t = choose|t: int| 0 <= t < i && self.keys().take(i as int)[t] == cell_views(before)[a];
                            assert(self.keys().take(i as int + 1)[t] == cell_views(r@)[a]);
                        } else {
                            assert(self.keys().take(i as int + 1)[i as int] == cell_views(r@)[a]);
                        }
                    }
                    assert forall|k: CellKey| #[trigger] cell_views(r@).contains(k) <==> exists|t: int|
                        0 <= t < i + 1 && self.keys()[t] == k && self.on_cycle_at(t) by {
                        if cell_views(r@).contains(k) {
                            let a = choose|a: int| 0 <= a < cell_views(r@).len() && cell_views(r@)[a] == k;
                            if a < before.len() {
                                assert(cell_views(before)[a] == k);
                                assert(cell_views(before).contains(k));
                            } else {
                                assert(self.keys()[i as int] == k);
                            }
                        }
                        if exists|t: int| 0 <= t < i + 1 && self.keys()[t] == k && self.on_cycle_at(t) {
                            let t = choose|t: int| 0 <= t < i + 1 && self.keys()[t] == k && self.on_cycle_at(t);
                            if t < i {
                                assert(cell_views(before).contains(k));
                                let a = choose|a: int| 0 <= a < cell_views(before).len() && cell_views(before)[a] == k;
                                assert(cell_views(r@)[a] == k);
                            } else {
                                assert(cell_views(r@)[before.len() as int] == k);
                            }
                        }
                    }
                }
            } else {
                proof {
                    assert forall|a: int| 0 <= a < r@.len() implies self.keys().take(i as int + 1).contains(#[trigger] cell_views(r@)[a]) by {
                        assert(self.keys().take(i as int).contains(cell_views(r@)[a]));
                        let t = choose|t: int| 0 <= t < i && self.keys().take(i as int)[t] == cell_views(r@)[a];
                        assert(self.keys().take(i as int + 1)[t] == cell_views(r@)[a]);
                    }
                    assert forall|k: CellKey| #[trigger] cell_views(r@).contains(k) <==> exists|t: int|
                        0 <= t < i + 1 && self.keys()[t] == k && self.on_cycle_at(t) by {
                        if exists|t: int| 0 <= t < i + 1 && self.keys()[t] == k && self.on_cycle_at(t) {
                            let t = choose|t: int| 0 <= t < i + 1 && self.keys()[t] == k && self.on_cycle_at(t);
                            assert(t < i);
                        }
                    }
                }
            }
            i = i + 1;
        }
        r
    }
}

impl DependencyGraph {
    /// Formula cell `i` recomputes first after the cells `edited` change: it
    /// is one of them, or it reads one of them directly.
    pub open spec fn seeded_by(self, i: int, edited: Seq<CellKey>) -> bool {
        exists|e: int| 0 <= e < edited.len() && #[trigger] self.seeds_with(i, edited[e])
    }

    /// Formula cell `i` is the cell `c`, or reads it directly.
    pub open spec fn seeds_with(self, i: int, c: CellKey) -> bool {
        self.keys()[i] == c || self.reads_cell(i, c)
    }

    /// Formula cell `x` must recompute after the cells `edited` change: a
    /// seeded formula cell reaches it along the edges from a formula cell to
    /// the formula cells that read it (itself included).
    pub open spec fn dirty_at(self, edited: Seq<CellKey>, x: int) -> bool {
        exists|s: int| 0 <= s < self.keys().len() && #[trigger] self.seeded_by(s, edited) && reaches(self.dep_lists(), s, x)
    }

    /// The formula cells whose positions are flagged, in canonical order.
    fn cells_flagged(&self, flags: &Vec<bool>) -> (r: Vec<CellRef>)
        requires
            self.wf(),
            flags@.len() == self.keys().len(),
        ensures
            strictly_sorted(cell_views(r@)),
            forall|k: CellKey| #[trigger] cell_views(r@).contains(k) <==> exists|i: int|
                0 <= i < self.keys().len() && self.keys()[i] == k && flags@[i],
    {
        let mut r: Vec<CellRef> = Vec::new();
        let mut i: usize = 0;
        while i < self.precedents.len()
            invariant
                self.wf(),
                i <= self.keys().len(),
                self.keys().len() == self.precedents@.len() == flags@.len(),
                strictly_sorted(cell_views(r@)),
                forall|a: int| 0 <= a < r@.len() ==> self.keys().take(i as int).contains(#[trigger] cell_views(r@)[a]),
                forall|k: CellKey| #[trigger] cell_views(r@).contains(k) <==> exists|t: int|
                    0 <= t < i && self.keys()[t] == k && flags@[t],
            decreases self.precedents@.len() - i,
        {
            if flags[i] {
                let c = copy_cell(&self.precedents[i].0);
                let ghost before = r@;
                r.push(c);
                proof {
                    assert(c@ == self.keys()[i as int]);
                    assert(cell_views(r@) =~= cell_views(before).push(c@));
                    assert forall|a: int, b: int| 0 <= a < b < cell_views(r@).len() implies cell_lt(#[trigger] cell_views(r@)[a], #[trigger] cell_views(r@)[b]) by {
                        assert(cell_views(r@)[a] == cell_views(before)[a]);
                        if b == cell_views(r@).len() - 1 {
                            assert(self.keys().take(i as int).contains(cell_views(before)[a]));
                            let t = choose|t: int| 0 <= t < i && self.keys().take(i as int)[t] == cell_views(before)[a];
                            assert(self.keys()[t] == cell_views(before)[a]);
                            assert(cell_lt(self.keys()[t], self.keys()[i as int]));
                        } else {
                            assert(cell_views(r@)[b] == cell_views(before)[b]);
                        }
                    }
                    assert forall|a: int| 0 <= a < r@.len() implies self.keys().take(i as int + 1).contains(#[trigger] cell_views(r@)[a]) by {
                        if a < before.len() {
                            assert(cell_views(r@)[a] == cell_views(before)[a]);
                            assert(self.keys().take(i as int).contains(cell_views(before)[a]));
                            let t = choose|t: int| 0 <= t < i && self.keys().take(i as int)[t] == cell_views(before)[a];
                            assert(self.keys().take(i as int + 1)[t] == cell_views(r@)[a]);
                        } else {
                            assert(self.keys().take(i as int + 1)[i as int] == cell_views(r@)[a]);
                        }
                    }
                    assert forall|k: CellKey| #[trigger] cell_views(r@).contains(k) <==> exists|t: int|
                        0 <= t < i + 1 && self.keys()[t] == k && flags@[t] by {
                        if cell_views(r@).contains(k) {
                            let a = choose|a: int| 0 <= a < cell_views(r@).len() && cell_views(r@)[a] == k;
                            if a < before.len() {
                                assert(cell_views(before)[a] == k);
                                assert(cell_views(before).contains(k));
                            } else {
                                assert(self.keys()[i as int] == k);
                            }
                        }
                        if exists|t: int| 0 <= t < i + 1 && self.keys()[t] == k && flags@[t] {
                            let t = choose|t: int| 0 <= t < i + 1 && self.keys()[t] == k && flags@[t];
                            if t < i {
                                assert(cell_views(before).contains(k));
                                let a = choose|a: int| 0 <= a < cell_views(before).len() && cell_views(before)[a] == k;
                                assert(cell_views(r@)[a] == k);
                            } else {
                                assert(cell_views(r@)[before.len() as int] == k);
                            }
                        }
                    }
                }
            } else {
                proof {
                    assert forall|a: int| 0 <= a < r@.len() implies self.keys().take(i as int + 1).contains(#[trigger] cell_views(r@)[a]) by {
                        assert(self.keys().take(i as int).contains(cell_views(r@)[a]));
                        let t = choose|t: int| 0 <= t < i && self.keys().take(i as int)[t] == cell_views(r@)[a];
                        assert(self.keys().take(i as int + 1)[t] == cell_views(r@)[a]);
                    }
                    assert forall|k: CellKey| #[trigger] cell_views(r@).contains(k) <==> exists|t: int|
                        0 <= t < i + 1 && self.keys()[t] == k && flags@[t] by {
                        if exists|t: int| 0 <= t < i + 1 && self.keys()[t] == k && flags@[t] {
                            let t = choose|t: int| 0 <= t < i + 1 && self.keys()[t] == k && flags@[t];
                            assert(t < i);
                        }
                    }
                }
            }
            i = i + 1;
        }
        r
    }

    /// The formula cells that must recompute after the cells `edited`
    /// change, in canonical order, each once: an edited cell that is a
    /// formula cell, every formula cell that reads an edited cell directly,
    /// and, transitively, every formula cell that reads one of those.
    pub fn dirty_cells(&self, edited: &[CellRef]) -> (r: Vec<CellRef>)
        requires
            self.wf(),
        ensures
            strictly_sorted(cell_views(r@)),
            forall|k: CellKey| #[trigger] cell_views(r@).contains(k) <==> exists|i: int|
                0 <= i < self.keys().len() && self.keys()[i] == k && self.dirty_at(cell_views(edited@), i),
    {
        let ghost ed = cell_views(edited@);
        let n = self.precedents.len();
        let mut starts: Vec<usize> = Vec::new();
        let mut i: usize = 0;
        while i < n
            invariant
                self.wf(),
                n == self.precedents@.len() == self.keys().len(),
                ed == cell_views(edited@),
                i <= n,
                forall|k: int| 0 <= k < starts@.len() ==> #[trigger] starts@[k] < i && self.seeded_by(starts@[k] as int, ed),
                forall|x: int| 0 <= x < i && #[trigger] self.seeded_by(x, ed) ==> starts@.contains(x as usize),
            decreases n - i,
        {
            let mut seeded = false;
            let mut e: usize = 0;
            while e < edited.len()
                invariant
                    self.wf(),
                    n == self.precedents@.len() == self.keys().len(),
                    ed == cell_views(edited@),
                    ed.len() == edited@.len(),
                    i < n,
                    e <= edited@.len(),
                    seeded <==> exists|t: int| 0 <= t < e && #[trigger] self.seeds_with(i as int, ed[t]),
                decreases edited@.len() - e,
            {
                proof {
                    assert(self.keys()[i as int] == self.precedents@[i as int].0@);
                    assert(ed[e as int] == edited@[e as int]@);
                }
                let hit = compare_cells(&self.precedents[i].0, &edited[e]) == 0 || self.formula_reads(i, &edited[e]);
                proof {
                    assert(hit == self.seeds_with(i as int, ed[e as int]));
                    if !hit {
                        assert forall|t: int| 0 <= t < e + 1 && #[trigger] self.seeds_with(i as int, ed[t]) implies t < e by {}
                    }
                }
                if hit {
                    seeded = true;
                }
                e = e + 1;
            }
            proof {
                assert(seeded == self.seeded_by(i as int, ed));
            }
            let ghost before = starts@;
            if seeded {
                starts.push(i);
            }
            proof {
                assert forall|k: int| 0 <= k < starts@.len() implies #[trigger] starts@[k] < i + 1 && self.seeded_by(starts@[k] as int, ed) by {
                    if k < before.len() {
                        assert(starts@[k] == before[k]);
                    }
                }
                assert forall|x: int| 0 <= x < i + 1 && #[trigger] self.seeded_by(x, ed) implies starts@.contains(x as usize) by {
                    if x == i {
                        assert(starts@[before.len() as int] == i);
                    } else {
                        assert(before.contains(x as usize));
                        let k = choose|k: int| 0 <= k < before.len() && before[k] == x as usize;
                        assert(starts@[k] == before[k]);
                    }
                }
            }
            i = i + 1;
        }
        let (preds, succ) = self.position_graph();
        let marks = reach_marks(&preds, &succ, &starts);
        proof {
            let g = lists_view(preds@);
            self.lemma_dep_lists();
            assert(same_edges(g, self.dep_lists()));
            lemma_same_edges_walks(g, self.dep_lists());
            assert forall|x: int| 0 <= x < n implies (marks@[x] <==> self.dirty_at(ed, x)) by {
                if marks@[x] {
                    let k = choose|k: int| 0 <= k < starts@.len() && reaches(g, starts@[k] as int, x);
                    let s = starts@[k] as int;
                    assert(starts@[k] < n);
                    assert(self.seeded_by(s, ed));
                    assert(reaches(self.dep_lists(), s, x));
                }
                if self.dirty_at(ed, x) {
                    let s = choose|s: int| 0 <= s < self.keys().len() && #[trigger] self.seeded_by(s, ed) && reaches(self.dep_lists(), s, x);
                    assert(starts@.contains(s as usize));
                    let k = choose|k: int| 0 <= k < starts@.len() && starts@[k] == s as usize;
                    assert(reaches(g, starts@[k] as int, x));
                    assert(reached_from(g, starts@, x));
                }
            }
        }
        self.cells_flagged(&marks)
    }
}

/// What must recompute after an edit is closed under reading: a seeded
/// formula cell is dirty, and a formula cell that reads a dirty formula cell
/// is dirty too.
pub proof fn law_dirty_closed_under_readers(g: DependencyGraph, edited: Seq<CellKey>, i: int, j: int)
    requires
        g.wf(),
        0 <= i < g.keys().len(),
        0 <= j < g.keys().len(),
    ensures
        g.seeded_by(i, edited) ==> g.dirty_at(edited, i),
        g.dirty_at(edited, j) && g.reads_cell(i, g.keys()[j]) ==> g.dirty_at(edited, i),
{
    assert(g.keys().len() == g.precedents@.len());
    assert(g.precedents@.len() == g.precedents.len());
    g.lemma_dep_lists();
    let d = g.dep_lists();
    if g.seeded_by(i, edited) {
        let p = seq![i];
        assert(p[0] == i && p.last() == i);
        assert(is_path(d, p));
        assert(reaches(d, i, i));
    }
    if g.dirty_at(edited, j) && g.reads_cell(i, g.keys()[j]) {
        let s = choose|s: int| 0 <= s < g.keys().len() && #[trigger] g.seeded_by(s, edited) && reaches(d, s, j);
        let p = choose|p: Seq<int>| is_path(d, p) && p[0] == s && p.last() == j;
        assert(g.depends(i, j));
        assert(edge(d, j, i));
        let q = p.push(i);
        assert forall|k: int| 0 <= k < q.len() - 1 implies edge(d, #[trigger] q[k], q[k + 1]) by {
            if k < p.len() - 1 {
                assert(q[k] == p[k] && q[k + 1] == p[k + 1]);
            } else {
                assert(q[k] == j && q[k + 1] == i);
            }
        }
        assert forall|k: int| 0 <= k < q.len() implies 0 <= #[trigger] q[k] < d.len() by {
            if k < p.len() {
                assert(q[k] == p[k]);
            }
        }
        assert(is_path(d, q));
        assert(q[0] == s && q.last() == i);
        assert(reaches(d, s, i));
    }
}

impl DependencyGraph {
    /// A topological order of the formula cells: every cell after all the
    /// formula cells it reads, ties broken by canonical order (smallest ready
    /// cell first).
    ///
    /// `Ok(order)` when no formula cell lies on a cycle; otherwise
    /// `Err(cycle)` with exactly the cells [`cycle_cells`](Self::cycle_cells)
    /// returns. Only edges between formula cells take part.
    pub fn topological_order(&self) -> (r: Result<Vec<CellRef>, Vec<CellRef>>)
        requires
            self.wf(),
        ensures
            is_kahn_order(self.dep_lists(), no_exclusions(self.keys().len() as int), self.kahn_positions(no_exclusions(self.keys().len() as int))),
            r is Ok <==> forall|i: int| 0 <= i < self.keys().len() ==> !self.on_cycle_at(i),
            match r {
                Ok(order) => cell_views(order@) == self.cells_at(self.kahn_positions(no_exclusions(self.keys().len() as int))),
                Err(cycle) => strictly_sorted(cell_views(cycle@)) && forall|k: CellKey| #[trigger] cell_views(cycle@).contains(k) <==> exists|i: int|
                    0 <= i < self.keys().len() && self.keys()[i] == k && self.on_cycle_at(i),
            },
    {
        let n = self.precedents.len();
        let mut none: Vec<bool> = Vec::new();
        let mut i: usize = 0;
        while i < n
            invariant
                i <= n,
                none@.len() == i,
                forall|x: int| 0 <= x < i ==> !none@[x],
            decreases n - i,
        {
            none.push(false);
            i = i + 1;
        }
        proof {
            assert(self.keys().len() == n);
            assert(none@ =~= no_exclusions(n as int));
        }
        let pos = self.order_with(&none);
        proof {
            let d = self.dep_lists();
            self.lemma_dep_lists();
            // A cell on a cycle is blocked by itself.
            assert forall|v: int| 0 <= v < n && self.on_cycle_at(v) implies blocked(d, none@, v) by {
                let p = seq![v];
                assert(is_path(d, p) && p[0] == v && p.last() == v);
                assert(reaches(d, v, v));
            }
            // A blocked cell has a cycle upstream, as nothing is excluded.
            assert forall|v: int| 0 <= v < n && blocked(d, none@, v) implies exists|u: int| 0 <= u < n && self.on_cycle_at(u) by {
                let u = choose|u: int| 0 <= u < d.len() && (none@[u] || on_cycle(d, u)) && reaches(d, u, v);
                assert(self.on_cycle_at(u));
            }
        }
        if pos.len() == n {
            proof {
                lemma_pigeonhole(pos@, n as nat);
                assert forall|v: int| 0 <= v < n implies !self.on_cycle_at(v) by {
                    assert(pos@.contains(v as usize));
                }
            }
            Ok(self.cells_of(&pos))
        } else {
            proof {
                lemma_pigeonhole(pos@, n as nat);
                let v = choose|v: usize| v < n && !pos@.contains(v);
                assert(blocked(self.dep_lists(), none@, v as int));
            }
            Err(self.cycle_cells())
        }
    }

    /// A topological order over the formula cells outside `cycle`: cells that
    /// read a cell of `cycle`, or come after one, are left out; the rest come
    /// in dependency order with canonical tie-breaking. With `cycle` the set
    /// [`cycle_cells`](Self::cycle_cells) returns, this is every cell not on
    /// or downstream of a cycle, and on an acyclic graph it equals
    /// [`topological_order`](Self::topological_order).
    pub fn acyclic_order_excluding(&self, cycle: &Vec<CellRef>) -> (r: Vec<CellRef>)
        requires
            self.wf(),
        ensures
            is_kahn_order(self.dep_lists(), self.cycle_excluded(cell_views(cycle@)), self.kahn_positions(self.cycle_excluded(cell_views(cycle@)))),
            cell_views(r@) == self.cells_at(self.kahn_positions(self.cycle_excluded(cell_views(cycle@)))),
            forall|v: usize| v < self.keys().len() ==> (#[trigger] self.kahn_positions(self.cycle_excluded(cell_views(cycle@))).contains(v)
                <==> !blocked(self.dep_lists(), self.cycle_excluded(cell_views(cycle@)), v as int)),
    {
        let n = self.precedents.len();
        let mut excluded: Vec<bool> = Vec::new();
        let mut i: usize = 0;
        while i < n
            invariant
                i <= n,
                n == self.keys().len() == self.precedents@.len(),
                excluded@.len() == i,
                forall|x: int| 0 <= x < i ==> excluded@[x] == cell_views(cycle@).contains(#[trigger] self.keys()[x]),
            decreases n - i,
        {
            let mut hit = false;
            let mut t: usize = 0;
            while t < cycle.len()
                invariant
                    i < n,
                    n == self.keys().len() == self.precedents@.len(),
                    t <= cycle@.len(),
                    hit == cell_views(cycle@).take(t as int).contains(self.keys()[i as int]),
                decreases cycle@.len() - t,
            {
                proof {
                    assert(self.keys()[i as int] == self.precedents@[i as int].0@);
                    assert(cell_views(cycle@).take(t as int + 1) =~= cell_views(cycle@).take(t as int).push(cycle@[t as int]@));
                }
                let same = compare_cells(&cycle[t], &self.precedents[i].0) == 0;
                proof {
                    let key = self.keys()[i as int];
                    let s0 = cell_views(cycle@).take(t as int);
                    let s1 = cell_views(cycle@).take(t as int + 1);
                    if s0.contains(key) {
                        let k = choose|k: int| 0 <= k < s0.len() && s0[k] == key;
                        assert(s1[k] == key);
                    }
                    if s1.contains(key) {
                        let k = choose|k: int| 0 <= k < s1.len() && s1[k] == key;
                        if k < t {
                            assert(s0[k] == key);
                        }
                    }
                    if same {
                        assert(s1[t as int] == key);
                    }
                }
                if same {
                    hit = true;
                }
                t = t + 1;
            }
            proof {
                assert(cell_views(cycle@).take(t as int) =~= cell_views(cycle@));
            }
            excluded.push(hit);
            i = i + 1;
        }
        proof {
            assert(excluded@ =~= self.cycle_excluded(cell_views(cycle@)));
        }
        let pos = self.order_with(&excluded);
        self.cells_of(&pos)
    }
}

/// On a graph with no cycle, the order that leaves out the cycle set
/// ([`DependencyGraph::acyclic_order_excluding`] given the empty result of
/// [`DependencyGraph::cycle_cells`]) is the topological order.
pub proof fn law_acyclic_order_is_topological(g: DependencyGraph)
    requires
        g.wf(),
        forall|i: int| 0 <= i < g.keys().len() ==> !g.on_cycle_at(i),
    ensures
        g.kahn_positions(g.cycle_excluded(Seq::<CellKey>::empty())) == g.kahn_positions(no_exclusions(g.keys().len() as int)),
{
    assert(g.cycle_excluded(Seq::<CellKey>::empty()) =~= no_exclusions(g.keys().len() as int));
}

/// On a graph with no cycle, an order that follows the smallest-ready-first
/// rule with nothing excluded (the order [`DependencyGraph::topological_order`]
/// returns) lists every formula cell exactly once, and no cell before a
/// formula cell it reads.
pub proof fn law_topological_order_respects_reads(g: DependencyGraph, pos: Seq<usize>)
    requires
        g.wf(),
        forall|i: int| 0 <= i < g.keys().len() ==> !g.on_cycle_at(i),
        is_kahn_order(g.dep_lists(), no_exclusions(g.keys().len() as int), pos),
    ensures
        pos.len() == g.keys().len(),
        pos.no_duplicates(),
        forall|v: usize| v < g.keys().len() ==> #[trigger] pos.contains(v),
        forall|a: int, b: int| 0 <= a < b < pos.len() ==> !g.depends(#[trigger] pos[a] as int, #[trigger] pos[b] as int),
{
    let d = g.dep_lists();
    let n = g.keys().len();
    let none = no_exclusions(n as int);
    assert(g.keys().len() == g.precedents@.len());
    assert(g.precedents@.len() == g.precedents.len());
    g.lemma_dep_lists();
    assert forall|k: int| 0 <= k < pos.len() implies #[trigger] pos[k] < n by {
        assert(eligible(d, none, pos.take(k), pos[k] as int));
    }
    assert(pos.no_duplicates()) by {
        assert forall|a: int, b: int| 0 <= a < b < pos.len() implies pos[a] != pos[b] by {
            assert(eligible(d, none, pos.take(b), pos[b] as int));
            assert(pos.take(b)[a] == pos[a]);
        }
    }
    assert forall|a: int, b: int| 0 <= a < b < pos.len() implies !g.depends(#[trigger] pos[a] as int, #[trigger] pos[b] as int) by {
        assert(eligible(d, none, pos.take(a), pos[a] as int));
        if g.depends(pos[a] as int, pos[b] as int) {
            assert(edge(d, pos[b] as int, pos[a] as int));
            let q = choose|q: int| 0 <= q < d[pos[a] as int].len() && d[pos[a] as int][q] == pos[b];
            assert(pos.take(a).contains(d[pos[a] as int][q]));
            let t = choose|t: int| 0 <= t < pos.take(a).len() && pos.take(a)[t] == pos[b];
            assert(pos[t] == pos[b]);
        }
    }
    // Every cell is listed: an unlisted cell would be stuck behind a cycle.
    let done = Seq::new(n, |x: int| pos.contains(x as usize));
    assert forall|x: int|
        0 <= x < d.len() && !done[x] && !none[x] implies exists|q: int|
            0 <= q < d[x].len() && !done[#[trigger] d[x][q] as int] by {
        assert(!eligible(d, none, pos, x));
        assert(!pos.contains(x as usize));
        let q = choose|q: int| 0 <= q < d[x].len() && !pos.contains(#[trigger] d[x][q]);
        assert(!done[d[x][q] as int]);
    }
    assert forall|v: usize| v < n implies #[trigger] pos.contains(v) by {
        if !pos.contains(v) {
            assert(!done[v as int]);
            lemma_stuck_nodes(d, none, done, v as int);
            let u = choose|u: int| 0 <= u < d.len() && (none[u] || on_cycle(d, u)) && reaches(d, u, v as int);
            assert(g.on_cycle_at(u));
        }
    }
    lemma_pigeonhole(pos, n);
}

impl DependencyGraph {
    /// Whether the precedent list of formula cell `i` names `n`.
    fn names_reference(&self, i: usize, n: &String) -> (b: bool)
        requires
            i < self.keys().len(),
        ensures
            b == self.precs()[i as int].contains(PrecedentView::Name(n@)),
    {
        let ps = &self.precedents[i].1;
        let mut q: usize = 0;
        while q < ps.len()
            invariant
                i < self.keys().len(),
                ps@ == self.precedents@[i as int].1@,
                q <= ps@.len(),
                forall|t: int| 0 <= t < q ==> self.precs()[i as int][t] != PrecedentView::Name(n@),
            decreases ps@.len() - q,
        {
            proof {
                assert(self.precs()[i as int][q as int] == ps@[q as int]@);
            }
            match &ps[q] {
                Precedent::Name(m) => {
                    if same_text(m, n) {
                        return true;
                    }
                },
                _ => {},
            }
            q = q + 1;
        }
        false
    }

    /// The formula cells that reference the named range `name` (any case),
    /// in canonical order: the cells a retarget of the name dirties.
    pub fn name_dependents_of(&self, name: &str) -> (r: Vec<CellRef>)
        requires
            self.wf(),
        ensures
            strictly_sorted(cell_views(r@)),
            forall|k: CellKey| #[trigger] cell_views(r@).contains(k) <==> exists|i: int|
                0 <= i < self.keys().len() && self.keys()[i] == k && self.precs()[i].contains(PrecedentView::Name(folded(name@))),
    {
        let f = simple_fold(name);
        let mut r: Vec<CellRef> = Vec::new();
        let mut i: usize = 0;
        while i < self.precedents.len()
            invariant
                self.wf(),
                f@ == folded(name@),
                i <= self.keys().len(),
                self.keys().len() == self.precedents@.len(),
                strictly_sorted(cell_views(r@)),
                forall|a: int| 0 <= a < r@.len() ==> self.keys().take(i as int).contains(#[trigger] cell_views(r@)[a]),
                forall|k: CellKey| #[trigger] cell_views(r@).contains(k) <==> exists|t: int|
                    0 <= t < i && self.keys()[t] == k && self.precs()[t].contains(PrecedentView::Name(f@)),
            decreases self.precedents@.len() - i,
        {
            if self.names_reference(i, &f) {
                let c = copy_cell(&self.precedents[i].0);
                let ghost before = r@;
                r.push(c);
                proof {
                    assert(c@ == self.keys()[i as int]);
                    assert(cell_views(r@) =~= cell_views(before).push(c@));
                    assert forall|a: int, b: int| 0 <= a < b < cell_views(r@).len() implies cell_lt(#[trigger] cell_views(r@)[a], #[trigger] cell_views(r@)[b]) by {
                        assert(cell_views(r@)[a] == cell_views(before)[a]);
                        if b == cell_views(r@).len() - 1 {
                            assert(self.keys().take(i as int).contains(cell_views(before)[a]));
                            let t = choose|t: int| 0 <= t < i && self.keys().take(i as int)[t] == cell_views(before)[a];
                            assert(self.keys()[t] == cell_views(before)[a]);
                            assert(cell_lt(self.keys()[t], self.keys()[i as int]));
                        } else {
                            assert(cell_views(r@)[b] == cell_views(before)[b]);
                        }
                    }
                    assert forall|a: int| 0 <= a < r@.len() implies self.keys().take(i as int + 1).contains(#[trigger] cell_views(r@)[a]) by {
                        if a < before.len() {
                            assert(cell_views(r@)[a] == cell_views(before)[a]);
                            assert(self.keys().take(i as int).contains(cell_views(before)[a]));
                            let t = choose|t: int| 0 <= t < i && self.keys().take(i as int)[t] == cell_views(before)[a];
                            assert(self.keys().take(i as int + 1)[t] == cell_views(r@)[a]);
                        } else {
                            assert(self.keys().take(i as int + 1)[i as int] == cell_views(r@)[a]);
                        }
                    }
                    assert forall|k: CellKey| #[trigger] cell_views(r@).contains(k) <==> exists|t: int|
                        0 <= t < i + 1 && self.keys()[t] == k && self.precs()[t].contains(PrecedentView::Name(f@)) by {
                        if cell_views(r@).contains(k) {
                            let a = choose|a: int| 0 <= a < cell_views(r@).len() && cell_views(r@)[a] == k;
                            if a < before.len() {
                                assert(cell_views(before)[a] == k);
                                assert(cell_views(before).contains(k));
                            } else {
                                assert(self.keys()[i as int] == k);
                            }
                        }
                        if exists|t: int| 0 <= t < i + 1 && self.keys()[t] == k && self.precs()[t].contains(PrecedentView::Name(f@)) {
                            let t = choose|t: int| 0 <= t < i + 1 && self.keys()[t] == k && self.precs()[t].contains(PrecedentView::Name(f@));
                            if t < i {
                                assert(cell_views(before).contains(k));
                                let a = choose|a: int| 0 <= a < cell_views(before).len() && cell_views(before)[a] == k;
                                assert(cell_views(r@)[a] == k);
                            } else {
                                assert(cell_views(r@)[before.len() as int] == k);
                            }
                        }
                    }
                }
            } else {
                proof {
                    assert forall|a: int| 0 <= a < r@.len() implies self.keys().take(i as int + 1).contains(#[trigger] cell_views(r@)[a]) by {
                        assert(self.keys().take(i as int).contains(cell_views(r@)[a]));
                        let t = choose|t: int| 0 <= t < i && self.keys().take(i as int)[t] == cell_views(r@)[a];
                        assert(self.keys().take(i as int + 1)[t] == cell_views(r@)[a]);
                    }
                    assert forall|k: CellKey| #[trigger] cell_views(r@).contains(k) <==> exists|t: int|
                        0 <= t < i + 1 && self.keys()[t] == k && self.precs()[t].contains(PrecedentView::Name(f@)) by {
                        if exists|t: int| 0 <= t < i + 1 && self.keys()[t] == k && self.precs()[t].contains(PrecedentView::Name(f@)) {
                            let t = choose|t: int| 0 <= t < i + 1 && self.keys()[t] == k && self.precs()[t].contains(PrecedentView::Name(f@));
                            assert(t < i);
                        }
                    }
                }
            }
            i = i + 1;
        }
        r
    }
}

/// Adds `c` to a strictly sorted list of cells unless it is already there.
pub fn insert_sorted(v: &mut Vec<CellRef>, c: CellRef)
    requires
        strictly_sorted(cell_views(old(v)@)),
    ensures
        strictly_sorted(cell_views(final(v)@)),
        forall|k: CellKey| #[trigger] cell_views(final(v)@).contains(k) <==> (cell_views(old(v)@).contains(k) || k == c@),
{
    let ghost before = cell_views(v@);
    let mut i: usize = 0;
    while i < v.len() && compare_cells(&v[i], &c) == -1
        invariant
            before == cell_views(v@),
            strictly_sorted(before),
            i <= v@.len(),
            forall|j: int| 0 <= j < i ==> cell_lt(#[trigger] before[j], c@),
        decreases v@.len() - i,
    {
        proof {
            assert(before[i as int] == v@[i as int]@);
        }
        i = i + 1;
    }
    if i < v.len() {
        let r = compare_cells(&v[i], &c);
        proof {
            assert(before[i as int] == v@[i as int]@);
        }
        if r == 0 {
            proof {
                assert(before[i as int] == c@);
                assert forall|k: CellKey| #[trigger] before.contains(k) <==> (before.contains(k) || k == c@) by {
                    if k == c@ {
                        assert(before[i as int] == k);
                    }
                }
            }
            return;
        }
        proof {
            assert(cell_lt(c@, before[i as int]));
        }
    }
    let ghost k0 = c@;
    v.insert(i, c);
    proof {
        let after = cell_views(v@);
        assert(after =~= before.insert(i as int, k0));
        assert forall|a: int, b: int| 0 <= a < b < after.len() implies cell_lt(#[trigger] after[a], #[trigger] after[b]) by {
            if b < i {
                assert(cell_lt(before[a], before[b]));
            } else if b == i {
                assert(cell_lt(before[a], k0));
            } else if a < i {
                assert(cell_lt(before[a], k0));
                assert(cell_lt(k0, before[i as int]));
                if b - 1 > i {
                    assert(cell_lt(before[i as int], before[b - 1]));
                    lemma_cell_order(k0, before[i as int], before[b - 1]);
                }
                lemma_cell_order(before[a], k0, before[b - 1]);
            } else if a == i {
                if b - 1 > i {
                    assert(cell_lt(before[i as int], before[b - 1]));
                    lemma_cell_order(k0, before[i as int], before[b - 1]);
                }
            } else {
                assert(cell_lt(before[a - 1], before[b - 1]));
            }
        }
        assert forall|k: CellKey| #[trigger] after.contains(k) <==> (before.contains(k) || k == k0) by {
            if after.contains(k) {
                let t = choose|t: int| 0 <= t < after.len() && after[t] == k;
                if t < i {
                    assert(before[t] == k);
                } else if t > i {
                    assert(before[t - 1] == k);
                }
            }
            if before.contains(k) {
                let t = choose|t: int| 0 <= t < before.len() && before[t] == k;
                if t < i {
                    assert(after[t] == k);
                } else {
                    assert(after[t + 1] == k);
                }
            }
            if k == k0 {
                assert(after[i as int] == k0);
            }
        }
    }
}

} // verus!
