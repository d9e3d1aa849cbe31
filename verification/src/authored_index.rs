//! A per-sheet index of authored cells, built once and then asked "does this
//! rectangle contain a cell nobody authored?".
//!
//! Per sheet it keeps the authored-cell count and, for each occupied row, the
//! authored columns in ascending order; empty rows are not stored, so a
//! reference spanning millions of mostly empty rows costs nothing for them.

use vstd::prelude::*;

use crate::address::Address;
use crate::casefold::{folded, simple_fold};
use crate::depgraph::{RangeKey, RangeRef};
use crate::digraph::lemma_pigeonhole_int;
use crate::text::{chars_equal, chars_of};

verus! {

/// One sheet's authored cells, by row.
struct SheetRows {
    /// Authored cells on the sheet, all rows together.
    total: u64,
    /// Each occupied row with its authored columns, ascending; rows ascending.
    rows: Vec<(u32, Vec<u32>)>,
}

/// Every sheet's authored cells, by folded sheet name and row.
pub struct AuthoredCellIndex {
    sheets: Vec<(String, SheetRows)>,
}

/// A row and its authored columns, as values.
pub type RowView = (u32, Seq<u32>);

/// Strictly increasing.
pub open spec fn increasing(s: Seq<u32>) -> bool {
    forall|i: int, j: int| 0 <= i < j < s.len() ==> #[trigger] s[i] < #[trigger] s[j]
}

/// Rows strictly increasing, each with strictly increasing columns.
pub open spec fn rows_wf(rows: Seq<RowView>) -> bool {
    &&& forall|i: int, j: int| 0 <= i < j < rows.len() ==> (#[trigger] rows[i]).0 < (#[trigger] rows[j]).0
    &&& forall|i: int| 0 <= i < rows.len() ==> increasing(#[trigger] rows[i].1)
}

/// The number of authored cells the rows hold.
pub open spec fn total_of(rows: Seq<RowView>) -> nat
    decreases rows.len(),
{
    if rows.len() == 0 {
        0
    } else {
        total_of(rows.drop_last()) + rows.last().1.len()
    }
}

/// Cell `(row, col)` is authored in `rows`.
pub open spec fn row_holds(rows: Seq<RowView>, row: u32, col: u32) -> bool {
    exists|j: int| 0 <= j < rows.len() && (#[trigger] rows[j]).0 == row && rows[j].1.contains(col)
}

/// The cells of `r` that lie in the rectangle.
pub open spec fn in_range(r: RangeKey, row: u32, col: u32) -> bool {
    r.1.row <= row <= r.2.row && r.1.column <= col <= r.2.column
}

/// Values in a strictly increasing sequence are at least as far apart as
/// their positions.
proof fn lemma_gap(s: Seq<u32>, i: int, j: int)
    requires
        increasing(s),
        0 <= i <= j < s.len(),
    ensures
        s[j] - s[i] >= j - i,
    decreases j - i,
{
    if i < j {
        lemma_gap(s, i, j - 1);
        assert(s[j - 1] < s[j]);
    }
}

/// A strictly increasing sequence holding every value of `[lo, hi]` has at
/// least `hi - lo + 1` entries.
proof fn lemma_holds_interval(s: Seq<u32>, lo: int, hi: int)
    requires
        increasing(s),
        lo <= hi,
        forall|c: u32| lo <= c <= hi ==> #[trigger] s.contains(c),
        0 <= lo,
        hi <= u32::MAX,
    ensures
        s.len() >= hi - lo + 1,
{
    let n = hi - lo + 1;
    let idx = Seq::new(n as nat, |k: int| choose|t: int| 0 <= t < s.len() && s[t] == (lo + k) as u32);
    assert forall|k: int| 0 <= k < n implies 0 <= #[trigger] idx[k] < s.len() && s[idx[k]] == (lo + k) as u32 by {
        assert(s.contains((lo + k) as u32));
    }
    assert(idx.no_duplicates()) by {
        assert forall|a: int, b: int| 0 <= a < idx.len() && 0 <= b < idx.len() && a != b implies idx[a] != idx[b] by {
            assert(s[idx[a]] == (lo + a) as u32);
            assert(s[idx[b]] == (lo + b) as u32);
        }
    }
    lemma_pigeonhole_int(idx, s.len() as int);
}

/// Every cell of a non-empty rectangle is authored only if the rows hold at
/// least as many cells as the rectangle.
proof fn lemma_full_rect_total(rows: Seq<RowView>, r1: int, r2: int, c1: int, c2: int)
    requires
        rows_wf(rows),
        0 <= r1 <= r2 <= u32::MAX,
        0 <= c1 <= c2 <= u32::MAX,
        forall|row: u32, col: u32| r1 <= row <= r2 && c1 <= col <= c2 ==> #[trigger] row_holds(rows, row, col),
    ensures
        total_of(rows) >= (r2 - r1 + 1) * (c2 - c1 + 1),
    decreases rows.len(),
{
    let w = c2 - c1 + 1;
    assert(row_holds(rows, r2 as u32, c1 as u32));
    let jr = choose|j: int| 0 <= j < rows.len() && (#[trigger] rows[j]).0 == r2 as u32 && rows[j].1.contains(c1 as u32);
    let last = rows.last();
    let init = rows.drop_last();
    assert(rows_wf(init)) by {
        assert forall|i: int, j: int| 0 <= i < j < init.len() implies (#[trigger] init[i]).0 < (#[trigger] init[j]).0 by {
            assert(rows[i].0 < rows[j].0);
        }
        assert forall|i: int| 0 <= i < init.len() implies increasing(#[trigger] init[i].1) by {
            assert(increasing(rows[i].1));
        }
    }
    if jr < rows.len() - 1 {
        assert(rows[jr].0 < last.0);
    }
    if last.0 > r2 {
        assert forall|row: u32, col: u32| r1 <= row <= r2 && c1 <= col <= c2 implies #[trigger] row_holds(init, row, col) by {
            assert(row_holds(rows, row, col));
            let j = choose|j: int| 0 <= j < rows.len() && (#[trigger] rows[j]).0 == row && rows[j].1.contains(col);
            assert(j != rows.len() - 1);
            assert(init[j] == rows[j]);
        }
        lemma_full_rect_total(init, r1, r2, c1, c2);
    } else {
        assert(last.0 == r2);
        assert forall|c: u32| c1 <= c <= c2 implies #[trigger] last.1.contains(c) by {
            assert(row_holds(rows, r2 as u32, c));
            let j = choose|j: int| 0 <= j < rows.len() && (#[trigger] rows[j]).0 == r2 as u32 && rows[j].1.contains(c);
            if j < rows.len() - 1 {
                assert(rows[j].0 < rows[rows.len() - 1].0);
            }
        }
        assert(increasing(rows[rows.len() - 1].1));
        lemma_holds_interval(last.1, c1, c2);
        if r1 < r2 {
            assert forall|row: u32, col: u32| r1 <= row <= r2 - 1 && c1 <= col <= c2 implies #[trigger] row_holds(init, row, col) by {
                assert(row_holds(rows, row, col));
                let j = choose|j: int| 0 <= j < rows.len() && (#[trigger] rows[j]).0 == row && rows[j].1.contains(col);
                assert(j != rows.len() - 1);
                assert(init[j] == rows[j]);
            }
            lemma_full_rect_total(init, r1, r2 - 1, c1, c2);
            assert((r2 - 1 - r1 + 1) * w + w == (r2 - r1 + 1) * w) by (nonlinear_arith);
        } else {
            assert((r2 - r1 + 1) * w == w) by (nonlinear_arith)
                requires
                    r1 == r2;
        }
    }
}

/// Column `c` is kept by the search: below `bound`, or at most `bound` when
/// `inclusive`.
pub open spec fn keeps(c: u32, bound: u32, inclusive: bool) -> bool {
    if inclusive {
        c <= bound
    } else {
        c < bound
    }
}

/// How many elements a binary search for the end of the kept prefix probes
/// in `cols[lo..hi]`.
pub open spec fn probes(cols: Seq<u32>, lo: int, hi: int, bound: u32, inclusive: bool) -> nat
    decreases hi - lo,
{
    if lo >= hi {
        0
    } else {
        let mid = lo + (hi - lo) / 2;
        1 + if keeps(cols[mid], bound, inclusive) {
            probes(cols, mid + 1, hi, bound, inclusive)
        } else {
            probes(cols, lo, mid, bound, inclusive)
        }
    }
}

proof fn lemma_probes_bound(cols: Seq<u32>, lo: int, hi: int, bound: u32, inclusive: bool)
    ensures
        lo <= hi ==> probes(cols, lo, hi, bound, inclusive) <= hi - lo,
    decreases hi - lo,
{
    if lo < hi {
        let mid = lo + (hi - lo) / 2;
        lemma_probes_bound(cols, mid + 1, hi, bound, inclusive);
        lemma_probes_bound(cols, lo, mid, bound, inclusive);
    }
}

/// The length of the prefix of ascending `columns` that is kept (below
/// `bound`, or at most `bound` when `inclusive`), by binary search; adds one
/// to `examined` per element probed.
fn partition_point(columns: &[u32], examined: &mut usize, bound: u32, inclusive: bool) -> (r: usize)
    requires
        increasing(columns@),
        *old(examined) + columns@.len() <= usize::MAX,
    ensures
        r <= columns@.len(),
        forall|k: int| 0 <= k < r ==> keeps(#[trigger] columns@[k], bound, inclusive),
        forall|k: int| r <= k < columns@.len() ==> !keeps(#[trigger] columns@[k], bound, inclusive),
        *final(examined) == *old(examined) + probes(columns@, 0, columns@.len() as int, bound, inclusive),
{
    let ghost start = *examined;
    let mut lo: usize = 0;
    let mut hi: usize = columns.len();
    proof {
        lemma_probes_bound(columns@, 0, columns@.len() as int, bound, inclusive);
    }
    while lo < hi
        invariant
            increasing(columns@),
            lo <= hi <= columns@.len(),
            forall|k: int| 0 <= k < lo ==> keeps(#[trigger] columns@[k], bound, inclusive),
            forall|k: int| hi <= k < columns@.len() ==> !keeps(#[trigger] columns@[k], bound, inclusive),
            start + probes(columns@, 0, columns@.len() as int, bound, inclusive) == *examined + probes(columns@, lo as int, hi as int, bound, inclusive),
            *examined + (hi - lo) <= usize::MAX,
        decreases hi - lo,
    {
        let mid = lo + (hi - lo) / 2;
        proof {
            lemma_probes_bound(columns@, mid + 1, hi as int, bound, inclusive);
            lemma_probes_bound(columns@, lo as int, mid as int, bound, inclusive);
        }
        *examined = *examined + 1;
        let keep = if inclusive {
            columns[mid] <= bound
        } else {
            columns[mid] < bound
        };
        if keep {
            proof {
                assert forall|k: int| 0 <= k < mid + 1 implies keeps(#[trigger] columns@[k], bound, inclusive) by {
                    if k < mid {
                        assert(columns@[k] < columns@[mid as int]);
                    }
                }
            }
            lo = mid + 1;
        } else {
            proof {
                assert forall|k: int| mid <= k < columns@.len() implies !keeps(#[trigger] columns@[k], bound, inclusive) by {
                    if k > mid {
                        assert(columns@[mid as int] < columns@[k]);
                    }
                }
            }
            hi = mid;
        }
    }
    lo
}

proof fn lemma_total_concat(a: Seq<RowView>, b: Seq<RowView>)
    ensures
        total_of(a + b) == total_of(a) + total_of(b),
    decreases b.len(),
{
    if b.len() > 0 {
        lemma_total_concat(a, b.drop_last());
        assert((a + b).drop_last() =~= a + b.drop_last());
    } else {
        assert(a + b =~= a);
    }
}

proof fn lemma_total_single(x: RowView)
    ensures
        total_of(seq![x]) == x.1.len(),
{
    reveal_with_fuel(total_of, 2);
    assert(seq![x].drop_last() =~= Seq::<RowView>::empty());
}

proof fn lemma_push_contains(s: Seq<Address>, x: Address, y: Address)
    ensures
        s.push(x).contains(y) == (s.contains(y) || y == x),
{
    if s.push(x).contains(y) {
        let t = choose|t: int| 0 <= t < s.push(x).len() && s.push(x)[t] == y;
        if t < s.len() {
            assert(s[t] == y);
        }
    }
    if s.contains(y) {
        let t = choose|t: int| 0 <= t < s.len() && s[t] == y;
        assert(s.push(x)[t] == y);
    }
    if y == x {
        assert(s.push(x)[s.len() as int] == y);
    }
}

/// The rows as values.
pub open spec fn rows_view(rows: Seq<(u32, Vec<u32>)>) -> Seq<RowView> {
    Seq::new(rows.len(), |j: int| (rows[j].0, rows[j].1@))
}

/// Inserts `c` into an increasing list that does not hold it.
fn insert_column(cols: &mut Vec<u32>, c: u32)
    requires
        increasing(old(cols)@),
        !old(cols)@.contains(c),
    ensures
        increasing(final(cols)@),
        final(cols)@.len() == old(cols)@.len() + 1,
        forall|x: u32| #[trigger] final(cols)@.contains(x) <==> (old(cols)@.contains(x) || x == c),
{
    let ghost before = cols@;
    let mut k: usize = 0;
    while k < cols.len() && cols[k] < c
        invariant
            before == cols@,
            k <= cols@.len(),
            forall|t: int| 0 <= t < k ==> cols@[t] < c,
        decreases cols@.len() - k,
    {
        k = k + 1;
    }
    proof {
        if k < before.len() {
            assert(before[k as int] != c);
        }
    }
    cols.insert(k, c);
    proof {
        assert forall|a: int, b: int| 0 <= a < b < cols@.len() implies #[trigger] cols@[a] < #[trigger] cols@[b] by {
            if b < k {
                assert(before[a] < before[b]);
            } else if b == k {
            } else if a < k {
                assert(before[a] < c);
                if b - 1 > k {
                    assert(before[k as int] < before[b - 1]);
                }
            } else if a == k {
                if b - 1 > k {
                    assert(before[k as int] < before[b - 1]);
                }
            } else {
                assert(before[a - 1] < before[b - 1]);
            }
        }
        assert forall|x: u32| #[trigger] cols@.contains(x) <==> (before.contains(x) || x == c) by {
            if cols@.contains(x) {
                let t = choose|t: int| 0 <= t < cols@.len() && cols@[t] == x;
                if t < k {
                    assert(before[t] == x);
                } else if t > k {
                    assert(before[t - 1] == x);
                }
            }
            if before.contains(x) {
                let t = choose|t: int| 0 <= t < before.len() && before[t] == x;
                if t < k {
                    assert(cols@[t] == x);
                } else {
                    assert(cols@[t + 1] == x);
                }
            }
            if x == c {
                assert(cols@[k as int] == c);
            }
        }
    }
}

/// Indexes one sheet's authored cells by row.
#[verifier::spinoff_prover]
fn rows_of(cells: &[Address]) -> (rows: Vec<(u32, Vec<u32>)>)
    requires
        cells@.no_duplicates(),
    ensures
        rows_wf(rows_view(rows@)),
        total_of(rows_view(rows@)) == cells@.len(),
        forall|row: u32, col: u32| #[trigger] row_holds(rows_view(rows@), row, col) <==> cells@.contains(Address { row, column: col }),
{
    let mut rows: Vec<(u32, Vec<u32>)> = Vec::new();
    let mut i: usize = 0;
    while i < cells.len()
        invariant
            cells@.no_duplicates(),
            i <= cells@.len(),
            rows_wf(rows_view(rows@)),
            total_of(rows_view(rows@)) == i,
            forall|row: u32, col: u32| #[trigger] row_holds(rows_view(rows@), row, col) <==> cells@.take(i as int).contains(Address { row, column: col }),
        decreases cells@.len() - i,
    {
        let a = cells[i];
        let ghost before = rows_view(rows@);
        proof {
            assert(!cells@.take(i as int).contains(a)) by {
                if cells@.take(i as int).contains(a) {
                    let t = choose|t: int| 0 <= t < i && cells@.take(i as int)[t] == a;
                    assert(cells@[t] == cells@[i as int]);
                }
            }
            assert(!row_holds(before, a.row, a.column));
            assert(cells@.take(i as int + 1) =~= cells@.take(i as int).push(a));
        }
        let mut p: usize = 0;
        while p < rows.len() && rows[p].0 < a.row
            invariant
                before == rows_view(rows@),
                p <= rows@.len(),
                forall|t: int| 0 <= t < p ==> before[t].0 < a.row,
            decreases rows@.len() - p,
        {
            p = p + 1;
        }
        if p < rows.len() && rows[p].0 == a.row {
            proof {
                assert(!before[p as int].1.contains(a.column));
                assert(increasing(before[p as int].1));
            }
            let ghost old_cols = rows@[p as int].1@;
            rows[p].1 = {
                let mut cols = Vec::new();
                std::mem::swap(&mut cols, &mut rows[p].1);
                insert_column(&mut cols, a.column);
                cols
            };
            proof {
                let after = rows_view(rows@);
                let x = after[p as int];
                assert(after =~= before.update(p as int, x));
                assert(x.0 == a.row && x.1.len() == old_cols.len() + 1);
                assert(rows_wf(after)) by {
                    assert forall|s: int, t: int| 0 <= s < t < after.len() implies (#[trigger] after[s]).0 < (#[trigger] after[t]).0 by {
                        assert(before[s].0 < before[t].0);
                    }
                    assert forall|s: int| 0 <= s < after.len() implies increasing(#[trigger] after[s].1) by {
                        if s != p as int {
                            assert(increasing(before[s].1));
                        }
                    }
                }
                assert(before =~= before.take(p as int) + seq![before[p as int]] + before.skip(p as int + 1));
                assert(after =~= before.take(p as int) + seq![x] + before.skip(p as int + 1));
                lemma_total_concat(before.take(p as int) + seq![before[p as int]], before.skip(p as int + 1));
                lemma_total_concat(before.take(p as int), seq![before[p as int]]);
                lemma_total_concat(before.take(p as int) + seq![x], before.skip(p as int + 1));
                lemma_total_concat(before.take(p as int), seq![x]);
                lemma_total_single(x);
                lemma_total_single(before[p as int]);
                assert forall|row: u32, col: u32| #[trigger] row_holds(after, row, col) <==> cells@.take(i as int + 1).contains(Address { row, column: col }) by {
                    lemma_push_contains(cells@.take(i as int), a, Address { row, column: col });
                    if row_holds(after, row, col) {
                        let j = choose|j: int| 0 <= j < after.len() && (#[trigger] after[j]).0 == row && after[j].1.contains(col);
                        if j != p as int {
                            assert(row_holds(before, row, col));
                        } else if col != a.column {
                            assert(old_cols.contains(col));
                            assert(row_holds(before, row, col));
                        }
                    }
                    if row_holds(before, row, col) {
                        let j = choose|j: int| 0 <= j < before.len() && (#[trigger] before[j]).0 == row && before[j].1.contains(col);
                        if j != p as int {
                            assert(after[j] == before[j]);
                        } else {
                            assert(x.1.contains(col));
                        }
                        assert(row_holds(after, row, col));
                    }
                    if row == a.row && col == a.column {
                        assert(x.1.contains(col));
                        assert(row_holds(after, row, col));
                    }
                }
            }
        } else {
            let mut cols: Vec<u32> = Vec::new();
            cols.push(a.column);
            let ghost x: RowView = (a.row, cols@);
            rows.insert(p, (a.row, cols));
            proof {
                let after = rows_view(rows@);
                assert(after =~= before.insert(p as int, x));
                assert(rows_wf(after)) by {
                    assert forall|s: int, t: int| 0 <= s < t < after.len() implies (#[trigger] after[s]).0 < (#[trigger] after[t]).0 by {
                        if t < p {
                            assert(before[s].0 < before[t].0);
                        } else if t == p {
                        } else if s < p {
                            assert(before[s].0 < a.row);
                            if t - 1 > p {
                                assert(before[p as int].0 < before[t - 1].0);
                            }
                        } else if s == p {
                            if t - 1 > p {
                                assert(before[p as int].0 < before[t - 1].0);
                            }
                        } else {
                            assert(before[s - 1].0 < before[t - 1].0);
                        }
                    }
                    assert forall|s: int| 0 <= s < after.len() implies increasing(#[trigger] after[s].1) by {
                        if s < p {
                            assert(increasing(before[s].1));
                        } else if s > p {
                            assert(increasing(before[s - 1].1));
                        }
                    }
                }
                assert(after =~= before.take(p as int) + seq![x] + before.skip(p as int));
                assert(before =~= before.take(p as int) + before.skip(p as int));
                lemma_total_concat(before.take(p as int) + seq![x], before.skip(p as int));
                lemma_total_concat(before.take(p as int), seq![x]);
                lemma_total_concat(before.take(p as int), before.skip(p as int));
                lemma_total_single(x);
                assert forall|row: u32, col: u32| #[trigger] row_holds(after, row, col) <==> cells@.take(i as int + 1).contains(Address { row, column: col }) by {
                    lemma_push_contains(cells@.take(i as int), a, Address { row, column: col });
                    if row_holds(after, row, col) {
                        let j = choose|j: int| 0 <= j < after.len() && (#[trigger] after[j]).0 == row && after[j].1.contains(col);
                        if j < p {
                            assert(before[j] == after[j]);
                            assert(row_holds(before, row, col));
                        } else if j > p {
                            assert(before[j - 1] == after[j]);
                            assert(row_holds(before, row, col));
                        } else {
                            assert(x.1 == seq![a.column]);
                        }
                    }
                    if row_holds(before, row, col) {
                        let j = choose|j: int| 0 <= j < before.len() && (#[trigger] before[j]).0 == row && before[j].1.contains(col);
                        if j < p {
                            assert(after[j] == before[j]);
                        } else {
                            assert(after[j + 1] == before[j]);
                        }
                        assert(row_holds(after, row, col));
                    }
                    if row == a.row && col == a.column {
                        assert(after[p as int] == x);
                        assert(x.1[0] == col);
                        assert(row_holds(after, row, col));
                    }
                }
            }
        }
        i = i + 1;
    }
    proof {
        assert(cells@.take(i as int) =~= cells@);
    }
    rows
}

/// The kept-prefix length of `cols` (the split point of a binary search).
pub open spec fn kept_len(cols: Seq<u32>, bound: u32, inclusive: bool) -> int
    decreases cols.len(),
{
    if cols.len() == 0 || !keeps(cols[0], bound, inclusive) {
        0
    } else {
        1 + kept_len(cols.drop_first(), bound, inclusive)
    }
}

proof fn lemma_kept_len(cols: Seq<u32>, bound: u32, inclusive: bool, r: int)
    requires
        0 <= r <= cols.len(),
        forall|k: int| 0 <= k < r ==> keeps(#[trigger] cols[k], bound, inclusive),
        forall|k: int| r <= k < cols.len() ==> !keeps(#[trigger] cols[k], bound, inclusive),
    ensures
        kept_len(cols, bound, inclusive) == r,
    decreases cols.len(),
{
    if cols.len() > 0 && r > 0 {
        let d = cols.drop_first();
        assert forall|k: int| 0 <= k < r - 1 implies keeps(#[trigger] d[k], bound, inclusive) by {
            assert(d[k] == cols[k + 1]);
        }
        assert forall|k: int| r - 1 <= k < d.len() implies !keeps(#[trigger] d[k], bound, inclusive) by {
            assert(d[k] == cols[k + 1]);
        }
        lemma_kept_len(d, bound, inclusive, r - 1);
    } else if cols.len() > 0 {
        assert(!keeps(cols[0], bound, inclusive));
    }
}

/// The number of cells of the rectangle `r` (non-inverted).
pub open spec fn rect_area(r: RangeKey) -> int {
    (r.2.row - r.1.row + 1) * (r.2.column - r.1.column + 1)
}

/// The position of the first row at or after `j` whose number is at least
/// `r1`.
pub open spec fn first_row_from(rows: Seq<RowView>, r1: u32, j: int) -> int
    decreases rows.len() - j,
{
    if j < 0 || j >= rows.len() || rows[j].0 >= r1 {
        j
    } else {
        first_row_from(rows, r1, j + 1)
    }
}

/// The authored cells probed while walking the rows of rectangle `r` from
/// row position `j`, expecting row number `expected` next: the two column
/// searches of each row walked, until a row is missing or not fully
/// authored across the rectangle's width.
pub open spec fn walk_examined(rows: Seq<RowView>, j: int, expected: int, r: RangeKey) -> nat
    decreases rows.len() - j,
{
    if j < 0 || j >= rows.len() || rows[j].0 > r.2.row || rows[j].0 != expected {
        0
    } else {
        let cols = rows[j].1;
        let lo_p = probes(cols, 0, cols.len() as int, r.1.column, false);
        let hi_p = probes(cols, 0, cols.len() as int, r.2.column, true);
        let width = r.2.column - r.1.column + 1;
        if kept_len(cols, r.2.column, true) - kept_len(cols, r.1.column, false) != width {
            lo_p + hi_p
        } else {
            lo_p + hi_p + walk_examined(rows, j + 1, expected + 1, r)
        }
    }
}

impl AuthoredCellIndex {
    /// The folded sheet names, by entry.
    pub closed spec fn names(self) -> Seq<Seq<char>> {
        Seq::new(self.sheets@.len(), |i: int| self.sheets@[i].0@)
    }

    /// The rows of entry `i`.
    pub closed spec fn rows_at(self, i: int) -> Seq<RowView> {
        rows_view(self.sheets@[i].1.rows@)
    }

    /// No sheet twice; rows ordered; each total is its rows' cell count.
    pub closed spec fn wf(self) -> bool {
        &&& forall|i: int, j: int| 0 <= i < j < self.sheets@.len() ==> #[trigger] self.names()[i] != #[trigger] self.names()[j]
        &&& forall|i: int|
            0 <= i < self.sheets@.len() ==> rows_wf(#[trigger] self.rows_at(i)) && self.sheets@[i].1.total == total_of(self.rows_at(i))
                && 2 * total_of(self.rows_at(i)) <= usize::MAX
    }

    /// Whether a sheet with folded name `s` is indexed.
    pub closed spec fn has_sheet(self, s: Seq<char>) -> bool {
        self.names().contains(s)
    }

    /// Whether cell `(row, col)` of the sheet with folded name `s` is
    /// authored.
    pub closed spec fn authored(self, s: Seq<char>, row: u32, col: u32) -> bool {
        exists|i: int| 0 <= i < self.sheets@.len() && self.names()[i] == s && #[trigger] row_holds(self.rows_at(i), row, col)
    }

    /// The position of the entry for `s`.
    pub closed spec fn entry_of(self, s: Seq<char>) -> int {
        choose|i: int| 0 <= i < self.sheets@.len() && self.names()[i] == s
    }

    /// The probes a lookup of `r` makes.
    pub closed spec fn examined(self, r: RangeKey) -> nat {
        if r.1.row > r.2.row || r.1.column > r.2.column || !self.has_sheet(r.0) {
            0
        } else {
            let rows = self.rows_at(self.entry_of(r.0));
            if rect_area(r) > total_of(rows) {
                0
            } else {
                walk_examined(rows, first_row_from(rows, r.1.row, 0), r.1.row as int, r)
            }
        }
    }
}

/// Whether the rectangle `r` holds a cell that is not authored: an inverted
/// rectangle and a range on a missing sheet count as all-unauthored.
pub open spec fn spec_has_unauthored(idx: AuthoredCellIndex, r: RangeKey) -> bool {
    ||| r.1.row > r.2.row
    ||| r.1.column > r.2.column
    ||| !idx.has_sheet(r.0)
    ||| exists|row: u32, col: u32| in_range(r, row, col) && !#[trigger] idx.authored(r.0, row, col)
}

/// A row whose columns are searched for `[c1, c2]` (split points `lo` for
/// `< c1` and `hi` for `<= c2`) holds every column of the interval exactly
/// when the interval's width of columns lies between the split points.
proof fn lemma_row_full(cols: Seq<u32>, c1: u32, c2: u32, lo: int, hi: int)
    requires
        increasing(cols),
        c1 <= c2,
        0 <= lo <= cols.len(),
        0 <= hi <= cols.len(),
        forall|k: int| 0 <= k < lo ==> #[trigger] cols[k] < c1,
        forall|k: int| lo <= k < cols.len() ==> #[trigger] cols[k] >= c1,
        forall|k: int| 0 <= k < hi ==> #[trigger] cols[k] <= c2,
        forall|k: int| hi <= k < cols.len() ==> #[trigger] cols[k] > c2,
    ensures
        lo <= hi,
        (hi - lo == c2 - c1 + 1) <==> (forall|c: u32| c1 <= c <= c2 ==> #[trigger] cols.contains(c)),
{
    if lo > hi {
        assert(cols[hi] < c1);
    }
    let w = c2 - c1 + 1;
    if hi - lo == w {
        assert forall|c: u32| c1 <= c <= c2 implies #[trigger] cols.contains(c) by {
            let k = c - c1;
            let t = lo + k;
            lemma_gap(cols, lo, t);
            lemma_gap(cols, t, hi - 1);
            assert(cols[t] == c);
        }
    }
    if forall|c: u32| c1 <= c <= c2 ==> #[trigger] cols.contains(c) {
        let idx = Seq::new(w as nat, |k: int| (choose|t: int| 0 <= t < cols.len() && cols[t] == (c1 + k) as u32) - lo);
        assert forall|k: int| 0 <= k < w implies 0 <= #[trigger] idx[k] < hi - lo && cols[idx[k] + lo] == (c1 + k) as u32 by {
            assert(cols.contains((c1 + k) as u32));
            let t = choose|t: int| 0 <= t < cols.len() && cols[t] == (c1 + k) as u32;
            assert(idx[k] == t - lo);
        }
        assert(idx.no_duplicates()) by {
            assert forall|a: int, b: int| 0 <= a < idx.len() && 0 <= b < idx.len() && a != b implies idx[a] != idx[b] by {
                assert(cols[idx[a] + lo] == (c1 + a) as u32);
                assert(cols[idx[b] + lo] == (c1 + b) as u32);
            }
        }
        lemma_pigeonhole_int(idx, hi - lo);
        if hi - lo > w {
            lemma_gap(cols, lo, hi - 1);
        }
    }
}

proof fn lemma_total_skip(rows: Seq<RowView>, j: int)
    requires
        0 <= j < rows.len(),
    ensures
        total_of(rows.skip(j)) == rows[j].1.len() + total_of(rows.skip(j + 1)),
        total_of(rows.skip(j)) <= total_of(rows),
{
    assert(rows.skip(j) =~= seq![rows[j]] + rows.skip(j + 1));
    lemma_total_concat(seq![rows[j]], rows.skip(j + 1));
    lemma_total_single(rows[j]);
    assert(rows =~= rows.take(j) + rows.skip(j));
    lemma_total_concat(rows.take(j), rows.skip(j));
}

proof fn lemma_first_row_from(rows: Seq<RowView>, r1: u32, p: int, j: int)
    requires
        0 <= j <= p <= rows.len(),
        forall|t: int| 0 <= t < p ==> (#[trigger] rows[t]).0 < r1,
        p == rows.len() || rows[p].0 >= r1,
    ensures
        first_row_from(rows, r1, j) == p,
    decreases p - j,
{
    if j < p {
        lemma_first_row_from(rows, r1, p, j + 1);
    }
}

impl AuthoredCellIndex {
    proof fn lemma_authored_at(self, i: int, row: u32, col: u32)
        requires
            self.wf(),
            0 <= i < self.sheets@.len(),
        ensures
            self.authored(self.names()[i], row, col) == row_holds(self.rows_at(i), row, col),
    {
        if self.authored(self.names()[i], row, col) {
            let k = choose|k: int| 0 <= k < self.sheets@.len() && self.names()[k] == self.names()[i] && #[trigger] row_holds(self.rows_at(k), row, col);
            if k != i {
                if k < i {
                    assert(self.names()[k] != self.names()[i]);
                } else {
                    assert(self.names()[i] != self.names()[k]);
                }
            }
        }
    }
}

impl AuthoredCellIndex {
    /// The entry of the sheet with folded name `name`.
    fn find(&self, name: &String) -> (r: Option<usize>)
        requires
            self.wf(),
        ensures
            match r {
                Some(i) => i < self.sheets@.len() && self.names()[i as int] == name@ && self.entry_of(name@) == i,
                None => !self.has_sheet(name@),
            },
    {
        let key = chars_of(name.as_str());
        let mut i: usize = 0;
        while i < self.sheets.len()
            invariant
                self.wf(),
                key@ == name@,
                i <= self.sheets@.len(),
                forall|j: int| 0 <= j < i ==> self.names()[j] != name@,
            decreases self.sheets@.len() - i,
        {
            let c = chars_of(self.sheets[i].0.as_str());
            if chars_equal(c.as_slice(), key.as_slice()) {
                proof {
                    assert(self.names()[i as int] == name@);
                    let e = self.entry_of(name@);
                    assert(self.names().contains(name@)) by {
                        assert(self.names()[i as int] == name@);
                    }
                    if e != i as int {
                        if e < i {
                            assert(self.names()[e] != self.names()[i as int]);
                        } else {
                            assert(self.names()[i as int] != self.names()[e]);
                        }
                    }
                }
                return Some(i);
            }
            i = i + 1;
        }
        None
    }

    /// Whether the rectangle `r` contains at least one cell that is not
    /// authored (empty, or occupied only by a spill).
    pub fn range_has_unauthored_cell(&self, r: &RangeRef) -> (b: bool)
        requires
            self.wf(),
        ensures
            b == spec_has_unauthored(*self, r@),
    {
        self.range_has_unauthored_cell_examined(r).0
    }

    /// [`range_has_unauthored_cell`](Self::range_has_unauthored_cell), and
    /// how many authored cells the lookup probed to reach its answer.
    ///
    /// A rectangle with its corners the wrong way round, on a sheet that is
    /// not indexed, or with more cells than its sheet has authored anywhere
    /// is answered at once, probing nothing; otherwise the rectangle's rows are walked in order
    /// and the first row that is missing, or not authored across the full
    /// width, ends the walk.
    pub fn range_has_unauthored_cell_examined(&self, r: &RangeRef) -> (res: (bool, usize))
        requires
            self.wf(),
        ensures
            res.0 == spec_has_unauthored(*self, r@),
            res.1 == self.examined(r@),
            r@.1.row > r@.2.row || r@.1.column > r@.2.column || !self.has_sheet(r@.0) || rect_area(r@) > self.authored_cells(
                r@.0,
            ).len() ==> res.1 == 0,
    {
        proof {
            self.lemma_examined_none(r@);
        }
        if r.start.row > r.end.row || r.start.column > r.end.column {
            return (true, 0);
        }
        let i = match self.find(&r.sheet) {
            Some(i) => i,
            None => return (true, 0),
        };
        let ghost rv = r@;
        let ghost rows = self.rows_at(i as int);
        let sheet = &self.sheets[i].1;
        let height: u64 = (r.end.row - r.start.row) as u64 + 1;
        let width: u64 = (r.end.column - r.start.column) as u64 + 1;
        let area: u64 = match height.checked_mul(width) {
            Some(a) => a,
            None => u64::MAX,
        };
        proof {
            assert(rows_wf(rows));
            assert(sheet.total == total_of(rows));
            assert(height * width == rect_area(rv)) by (nonlinear_arith)
                requires
                    height == rv.2.row - rv.1.row + 1,
                    width == rv.2.column - rv.1.column + 1;
            assert forall|row: u32, col: u32| #[trigger] self.authored(rv.0, row, col) == row_holds(rows, row, col) by {
                self.lemma_authored_at(i as int, row, col);
            }
        }
        if area > sheet.total {
            proof {
                if !spec_has_unauthored(*self, rv) {
                    assert forall|row: u32, col: u32|
                        rv.1.row <= row <= rv.2.row && rv.1.column <= col <= rv.2.column implies #[trigger] row_holds(rows, row, col) by {
                        assert(in_range(rv, row, col));
                        assert(self.authored(rv.0, row, col));
                    }
                    lemma_full_rect_total(rows, rv.1.row as int, rv.2.row as int, rv.1.column as int, rv.2.column as int);
                }
            }
            return (true, 0);
        }
        let rs = &sheet.rows;
        let p = lower_row(rs, r.start.row);
        proof {
            lemma_first_row_from(rows, rv.1.row, p as int, 0);
        }
        let res = walk_rows(rs, p, r, width);
        proof {
            if res.0 {
                let (x, c) = choose|x: u32, c: u32| in_range(rv, x, c) && !row_holds(rows, x, c);
                assert(!self.authored(rv.0, x, c));
            } else {
                assert forall|x: u32, c: u32| in_range(rv, x, c) implies #[trigger] self.authored(rv.0, x, c) by {
                    assert(row_holds(rows, x, c));
                }
            }
        }
        res
    }
}

/// The position of the first row whose number is at least `r1`.
fn lower_row(rs: &Vec<(u32, Vec<u32>)>, r1: u32) -> (p: usize)
    requires
        rows_wf(rows_view(rs@)),
    ensures
        p <= rs@.len(),
        forall|t: int| 0 <= t < p ==> (#[trigger] rows_view(rs@)[t]).0 < r1,
        forall|t: int| p <= t < rs@.len() ==> (#[trigger] rows_view(rs@)[t]).0 >= r1,
{
    let ghost rows = rows_view(rs@);
    let mut lo: usize = 0;
    let mut hi: usize = rs.len();
    while lo < hi
        invariant
            rows == rows_view(rs@),
            rows_wf(rows),
            lo <= hi <= rs@.len(),
            forall|t: int| 0 <= t < lo ==> (#[trigger] rows[t]).0 < r1,
            forall|t: int| hi <= t < rs@.len() ==> (#[trigger] rows[t]).0 >= r1,
        decreases hi - lo,
    {
        let mid = lo + (hi - lo) / 2;
        let m = rs[mid].0;
        proof {
            assert(rows[mid as int].0 == m);
        }
        if m < r1 {
            proof {
                assert forall|t: int| 0 <= t < mid + 1 implies (#[trigger] rows[t]).0 < r1 by {
                    if t < mid {
                        assert(rows[t].0 < rows[mid as int].0);
                    }
                }
            }
            lo = mid + 1;
        } else {
            proof {
                assert forall|t: int| mid <= t < rs@.len() implies (#[trigger] rows[t]).0 >= r1 by {
                    if t > mid {
                        assert(rows[mid as int].0 < rows[t].0);
                    }
                }
            }
            hi = mid;
        }
    }
    lo
}

/// Walks the rows of rectangle `r` from the first row at or after its top:
/// whether some cell of the rectangle is not authored, and the probes made.
fn walk_rows(rs: &Vec<(u32, Vec<u32>)>, p: usize, r: &RangeRef, width: u64) -> (res: (bool, usize))
    requires
        rows_wf(rows_view(rs@)),
        2 * total_of(rows_view(rs@)) <= usize::MAX,
        r.start.row <= r.end.row,
        r.start.column <= r.end.column,
        width == r.end.column - r.start.column + 1,
        p <= rs@.len(),
        forall|t: int| 0 <= t < p ==> (#[trigger] rows_view(rs@)[t]).0 < r.start.row,
        forall|t: int| p <= t < rs@.len() ==> (#[trigger] rows_view(rs@)[t]).0 >= r.start.row,
    ensures
        res.0 == exists|x: u32, c: u32| in_range(r@, x, c) && !row_holds(rows_view(rs@), x, c),
        res.1 == walk_examined(rows_view(rs@), p as int, r.start.row as int, r@),
{
    let ghost rows = rows_view(rs@);
    let ghost rv = r@;
    let mut examined: usize = 0;
    proof {
        assert(rows =~= rows.take(p as int) + rows.skip(p as int));
        lemma_total_concat(rows.take(p as int), rows.skip(p as int));
    }
    let mut expected: u64 = r.start.row as u64;
    let mut j: usize = p;
    while j < rs.len() && rs[j].0 <= r.end.row
        invariant
            rows == rows_view(rs@),
            rows_wf(rows),
            rv == r@,
            rv.1.row <= rv.2.row,
            rv.1.column <= rv.2.column,
            width == rv.2.column - rv.1.column + 1,
            p <= j <= rs@.len(),
            forall|t: int| 0 <= t < p ==> (#[trigger] rows[t]).0 < rv.1.row,
            forall|t: int| p <= t < rs@.len() ==> (#[trigger] rows[t]).0 >= rv.1.row,
            expected == rv.1.row + (j - p),
            expected <= rv.2.row + 1,
            forall|t: int| p <= t < j ==> (#[trigger] rows[t]).0 == rv.1.row + (t - p),
            forall|x: u32, c: u32|
                rv.1.row <= x < expected && rv.1.column <= c <= rv.2.column ==> #[trigger] row_holds(rows, x, c),
            examined + walk_examined(rows, j as int, expected as int, rv) == walk_examined(rows, p as int, rv.1.row as int, rv),
            examined + 2 * total_of(rows.skip(j as int)) <= 2 * total_of(rows),
            2 * total_of(rows) <= usize::MAX,
        decreases rs@.len() - j,
    {
        let row = rs[j].0;
        proof {
            assert(rows[j as int].0 == row);
            if j > p {
                assert(rows[j - 1].0 < rows[j as int].0);
            }
        }
        if row as u64 != expected {
            proof {
                assert(rows[j as int].0 > expected);
                let e = expected as u32;
                assert(in_range(rv, e, rv.1.column));
                if row_holds(rows, e, rv.1.column) {
                    let k = choose|k: int| 0 <= k < rows.len() && (#[trigger] rows[k]).0 == e && rows[k].1.contains(rv.1.column);
                    if k < p {
                    } else if k < j {
                        assert(rows[k].0 == rv.1.row + (k - p));
                    } else if k > j {
                        assert(rows[j as int].0 < rows[k].0);
                    }
                }
                assert(walk_examined(rows, j as int, expected as int, rv) == 0);
            }
            return (true, examined);
        }
        let cols = rs[j].1.as_slice();
        proof {
            assert(cols@ == rows[j as int].1);
            assert(increasing(rows[j as int].1));
            lemma_total_skip(rows, j as int);
        }
        let c_lo = partition_point(cols, &mut examined, r.start.column, false);
        proof {
            lemma_probes_bound(cols@, 0, cols@.len() as int, rv.1.column, false);
        }
        let c_hi = partition_point(cols, &mut examined, r.end.column, true);
        proof {
            lemma_probes_bound(cols@, 0, cols@.len() as int, rv.2.column, true);
            lemma_kept_len(cols@, rv.1.column, false, c_lo as int);
            lemma_kept_len(cols@, rv.2.column, true, c_hi as int);
            lemma_row_full(cols@, rv.1.column, rv.2.column, c_lo as int, c_hi as int);
        }
        if (c_hi - c_lo) as u64 != width {
            proof {
                let c = choose|c: u32| rv.1.column <= c <= rv.2.column && !#[trigger] cols@.contains(c);
                let e = row;
                assert(in_range(rv, e, c));
                if row_holds(rows, e, c) {
                    let k = choose|k: int| 0 <= k < rows.len() && (#[trigger] rows[k]).0 == e && rows[k].1.contains(c);
                    if k < j {
                        assert(rows[k].0 < rows[j as int].0);
                    } else if k > j {
                        assert(rows[j as int].0 < rows[k].0);
                    }
                }
            }
            return (true, examined);
        }
        proof {
            assert forall|x: u32, c: u32|
                rv.1.row <= x < expected + 1 && rv.1.column <= c <= rv.2.column implies #[trigger] row_holds(rows, x, c) by {
                if x == expected {
                    assert(cols@.contains(c));
                    assert(rows[j as int].0 == x && rows[j as int].1.contains(c));
                }
            }
        }
        expected = expected + 1;
        j = j + 1;
    }
    proof {
        if j < rs@.len() {
            assert(rows[j as int].0 > rv.2.row);
        }
        assert(walk_examined(rows, j as int, expected as int, rv) == 0);
        if expected <= rv.2.row {
            let e = expected as u32;
            assert(in_range(rv, e, rv.1.column));
            if row_holds(rows, e, rv.1.column) {
                let k = choose|k: int| 0 <= k < rows.len() && (#[trigger] rows[k]).0 == e && rows[k].1.contains(rv.1.column);
                if k < p {
                } else if k < j {
                    assert(rows[k].0 == rv.1.row + (k - p));
                } else {
                    assert(rows[j as int].0 > rv.2.row);
                    if k > j {
                        assert(rows[j as int].0 < rows[k].0);
                    }
                }
            }
        } else {
            assert forall|x: u32, c: u32| in_range(rv, x, c) implies #[trigger] row_holds(rows, x, c) by {}
        }
    }
    (expected <= r.end.row as u64, examined)
}

/// The last of the first `k` sheets whose name folds to `n`.
pub open spec fn last_sheet_with(sheets: Seq<(String, Vec<Address>)>, n: Seq<char>, k: int) -> Option<int>
    decreases k,
{
    if k <= 0 {
        None
    } else if folded(sheets[k - 1].0@) == n {
        Some(k - 1)
    } else {
        last_sheet_with(sheets, n, k - 1)
    }
}

impl AuthoredCellIndex {
    /// Indexes every sheet's authored cells: each sheet is given by its name
    /// and the addresses of its authored cells. A later sheet whose name folds
    /// like an earlier one replaces it.
    pub fn build(sheets: &[(String, Vec<Address>)]) -> (idx: AuthoredCellIndex)
        requires
            forall|i: int| 0 <= i < sheets@.len() ==> (#[trigger] sheets@[i]).1@.no_duplicates() && 2 * sheets@[i].1@.len() <= usize::MAX,
        ensures
            idx.wf(),
            forall|n: Seq<char>| #[trigger] idx.has_sheet(n) == (last_sheet_with(sheets@, n, sheets@.len() as int) is Some),
            forall|n: Seq<char>, row: u32, col: u32| #[trigger] idx.authored(n, row, col) == (last_sheet_with(sheets@, n, sheets@.len() as int) matches Some(i)
                && sheets@[i].1@.contains(Address { row, column: col })),
    {
        let mut idx = AuthoredCellIndex { sheets: Vec::new() };
        let mut k: usize = 0;
        while k < sheets.len()
            invariant
                forall|i: int| 0 <= i < sheets@.len() ==> (#[trigger] sheets@[i]).1@.no_duplicates() && 2 * sheets@[i].1@.len() <= usize::MAX,
                k <= sheets@.len(),
                idx.wf(),
                forall|n: Seq<char>| #[trigger] idx.has_sheet(n) == (last_sheet_with(sheets@, n, k as int) is Some),
                forall|n: Seq<char>, row: u32, col: u32| #[trigger] idx.authored(n, row, col) == (last_sheet_with(sheets@, n, k as int) matches Some(i)
                    && sheets@[i].1@.contains(Address { row, column: col })),
            decreases sheets@.len() - k,
        {
            let cells = &sheets[k].1;
            let rows = rows_of(cells.as_slice());
            let total = cells.len() as u64;
            let name = simple_fold(sheets[k].0.as_str());
            let ghost nv = name@;
            let ghost before = idx;
            let ghost rv = rows_view(rows@);
            let pos = idx.find(&name);
            let entry = (name, SheetRows { total, rows });
            match pos {
                Some(p) => {
                    idx.sheets.set(p, entry);
                },
                None => {
                    idx.sheets.push(entry);
                },
            }
            proof {
                let at = match pos {
                    Some(p) => p as int,
                    None => before.sheets@.len() as int,
                };
                assert(idx.names()[at] == nv);
                assert(idx.rows_at(at) == rv);
                assert forall|t: int| 0 <= t < idx.sheets@.len() && t != at implies idx.sheets@[t] == before.sheets@[t] by {}
                assert forall|a: int, b: int| 0 <= a < b < idx.sheets@.len() implies #[trigger] idx.names()[a] != #[trigger] idx.names()[b] by {
                    if a != at && b != at {
                        assert(before.names()[a] != before.names()[b]);
                    } else if a == at {
                        assert(idx.names()[b] == before.names()[b]);
                        if pos is None {
                            assert(before.names()[b] != nv) by {
                                if before.names()[b] == nv {
                                    assert(before.has_sheet(nv));
                                }
                            }
                        } else {
                            assert(before.names()[at] == nv);
                            assert(before.names()[at] != before.names()[b]);
                        }
                    } else {
                        assert(idx.names()[a] == before.names()[a]);
                        if pos is None {
                            assert(before.names()[a] != nv) by {
                                if before.names()[a] == nv {
                                    assert(before.has_sheet(nv));
                                }
                            }
                        } else {
                            assert(before.names()[a] != before.names()[at]);
                        }
                    }
                }
                assert forall|t: int| 0 <= t < idx.sheets@.len() implies rows_wf(#[trigger] idx.rows_at(t)) && idx.sheets@[t].1.total == total_of(idx.rows_at(t))
                    && 2 * total_of(idx.rows_at(t)) <= usize::MAX by {
                    if t != at {
                        assert(idx.rows_at(t) == before.rows_at(t));
                    }
                }
                assert(idx.wf());
                assert forall|n: Seq<char>| #[trigger] idx.has_sheet(n) == (last_sheet_with(sheets@, n, k + 1) is Some) by {
                    if n == nv {
                        assert(idx.names()[at] == n);
                    } else {
                        if idx.has_sheet(n) {
                            let t = choose|t: int| 0 <= t < idx.names().len() && idx.names()[t] == n;
                            assert(t != at);
                            assert(before.names()[t] == n);
                        }
                        if before.has_sheet(n) {
                            let t = choose|t: int| 0 <= t < before.names().len() && before.names()[t] == n;
                            assert(t != at);
                            assert(idx.names()[t] == n);
                        }
                    }
                }
                assert forall|n: Seq<char>, row: u32, col: u32| #[trigger] idx.authored(n, row, col) == (last_sheet_with(sheets@, n, k + 1) matches Some(i)
                    && sheets@[i].1@.contains(Address { row, column: col })) by {
                    if n == nv {
                        idx.lemma_authored_at(at, row, col);
                    } else {
                        if idx.authored(n, row, col) {
                            let t = choose|t: int| 0 <= t < idx.sheets@.len() && idx.names()[t] == n && #[trigger] row_holds(idx.rows_at(t), row, col);
                            assert(t != at);
                            assert(before.names()[t] == n && before.rows_at(t) == idx.rows_at(t));
                            assert(before.authored(n, row, col));
                        }
                        if before.authored(n, row, col) {
                            let t = choose|t: int| 0 <= t < before.sheets@.len() && before.names()[t] == n && #[trigger] row_holds(before.rows_at(t), row, col);
                            assert(t != at);
                            assert(idx.names()[t] == n && before.rows_at(t) == idx.rows_at(t));
                            assert(idx.authored(n, row, col));
                        }
                    }
                }
            }
            k = k + 1;
        }
        idx
    }
}


/// The cells `(row, column)` with the row in `[r1, r2]` and the column in
/// `[c1, c2]`.
pub open spec fn cell_block(r1: int, r2: int, c1: int, c2: int) -> Set<(u32, u32)> {
    Set::new(|p: (u32, u32)| r1 <= p.0 <= r2 && c1 <= p.1 <= c2)
}

/// The authored cells of the rectangle `r`.
pub open spec fn authored_in(idx: AuthoredCellIndex, r: RangeKey) -> Set<(u32, u32)> {
    Set::new(|p: (u32, u32)| in_range(r, p.0, p.1) && idx.authored(r.0, p.0, p.1))
}

/// One row of a block has as many cells as columns.
proof fn lemma_block_row(row: int, c1: int, c2: int)
    requires
        0 <= row <= u32::MAX,
        0 <= c1 <= c2 + 1,
        c2 <= u32::MAX,
    ensures
        cell_block(row, row, c1, c2).finite(),
        cell_block(row, row, c1, c2).len() == c2 - c1 + 1,
    decreases c2 - c1 + 1,
{
    if c2 < c1 {
        assert(cell_block(row, row, c1, c2) =~= Set::<(u32, u32)>::empty());
    } else {
        lemma_block_row(row, c1, c2 - 1);
        let p: (u32, u32) = (row as u32, c2 as u32);
        assert(cell_block(row, row, c1, c2) =~= cell_block(row, row, c1, c2 - 1).insert(p));
        assert(!cell_block(row, row, c1, c2 - 1).contains(p));
    }
}

/// A block has (rows) * (columns) cells.
proof fn lemma_block(r1: int, r2: int, c1: int, c2: int)
    requires
        0 <= r1 <= r2 + 1,
        r2 <= u32::MAX,
        0 <= c1 <= c2 + 1,
        c2 <= u32::MAX,
    ensures
        cell_block(r1, r2, c1, c2).finite(),
        cell_block(r1, r2, c1, c2).len() == (r2 - r1 + 1) * (c2 - c1 + 1),
    decreases r2 - r1 + 1,
{
    let w = c2 - c1 + 1;
    if r2 < r1 {
        assert(cell_block(r1, r2, c1, c2) =~= Set::<(u32, u32)>::empty());
        assert((r2 - r1 + 1) * w == 0) by (nonlinear_arith)
            requires
                r2 - r1 + 1 == 0;
    } else {
        lemma_block(r1, r2 - 1, c1, c2);
        lemma_block_row(r2, c1, c2);
        let a = cell_block(r1, r2 - 1, c1, c2);
        let b = cell_block(r2, r2, c1, c2);
        assert(cell_block(r1, r2, c1, c2) =~= a + b);
        assert(a.disjoint(b));
        vstd::set_lib::lemma_set_disjoint_lens(a, b);
        assert((r2 - r1 + 1) * w == (r2 - 1 - r1 + 1) * w + w) by (nonlinear_arith);
    }
}

/// Answering by a missing cell is answering by count: a rectangle with its
/// corners the right way round holds a cell that is not authored exactly
/// when its sheet is not indexed or fewer of its cells are authored than it
/// has cells.
pub proof fn law_unauthored_iff_authored_count_below_area(idx: AuthoredCellIndex, r: RangeKey)
    requires
        r.1.row <= r.2.row,
        r.1.column <= r.2.column,
    ensures
        authored_in(idx, r).finite(),
        spec_has_unauthored(idx, r) <==> (!idx.has_sheet(r.0) || authored_in(idx, r).len() < rect_area(r)),
{
    let rr = cell_block(r.1.row as int, r.2.row as int, r.1.column as int, r.2.column as int);
    lemma_block(r.1.row as int, r.2.row as int, r.1.column as int, r.2.column as int);
    let s = authored_in(idx, r);
    assert(s.subset_of(rr));
    vstd::set_lib::lemma_len_subset(s, rr);
    if exists|row: u32, col: u32| in_range(r, row, col) && !#[trigger] idx.authored(r.0, row, col) {
        let (row, col) = choose|row: u32, col: u32| in_range(r, row, col) && !#[trigger] idx.authored(r.0, row, col);
        let p: (u32, u32) = (row, col);
        assert(rr.contains(p));
        assert(s.subset_of(rr.remove(p)));
        vstd::set_lib::lemma_len_subset(s, rr.remove(p));
    } else {
        assert(s =~= rr);
    }
}

/// The authored cells of `rows`.
pub open spec fn rows_cells(rows: Seq<RowView>) -> Set<(u32, u32)> {
    Set::new(|p: (u32, u32)| row_holds(rows, p.0, p.1))
}

/// The cells of row `row` at the columns `cols`.
pub open spec fn row_cells(row: u32, cols: Seq<u32>) -> Set<(u32, u32)> {
    Set::new(|p: (u32, u32)| p.0 == row && cols.contains(p.1))
}

/// A row holds as many cells as it lists columns.
proof fn lemma_row_cells_len(row: u32, cols: Seq<u32>)
    requires
        increasing(cols),
    ensures
        row_cells(row, cols).finite(),
        row_cells(row, cols).len() == cols.len(),
    decreases cols.len(),
{
    if cols.len() == 0 {
        assert(row_cells(row, cols) =~= Set::<(u32, u32)>::empty());
    } else {
        let d = cols.drop_last();
        assert forall|i: int, j: int| 0 <= i < j < d.len() implies #[trigger] d[i] < #[trigger] d[j] by {
            assert(d[i] == cols[i] && d[j] == cols[j]);
        }
        lemma_row_cells_len(row, d);
        let x = cols.last();
        assert forall|p: (u32, u32)| #[trigger] row_cells(row, cols).contains(p) == row_cells(row, d).insert((row, x)).contains(p) by {
            if p.0 == row && cols.contains(p.1) {
                let k = choose|k: int| 0 <= k < cols.len() && cols[k] == p.1;
                if k < cols.len() - 1 {
                    assert(d[k] == p.1);
                }
            }
            if p.0 == row && d.contains(p.1) {
                let k = choose|k: int| 0 <= k < d.len() && d[k] == p.1;
                assert(cols[k] == p.1);
            }
        }
        assert(row_cells(row, cols) =~= row_cells(row, d).insert((row, x)));
        if d.contains(x) {
            let k = choose|k: int| 0 <= k < d.len() && d[k] == x;
            assert(cols[k] < cols[cols.len() - 1]);
        }
        assert(!row_cells(row, d).contains((row, x)));
    }
}

/// Rows hold as many cells as their total counts.
proof fn lemma_rows_cells_len(rows: Seq<RowView>)
    requires
        rows_wf(rows),
    ensures
        rows_cells(rows).finite(),
        rows_cells(rows).len() == total_of(rows),
    decreases rows.len(),
{
    if rows.len() == 0 {
        assert(rows_cells(rows) =~= Set::<(u32, u32)>::empty());
    } else {
        let d = rows.drop_last();
        let x = rows.last();
        assert(rows_wf(d)) by {
            assert forall|i: int, j: int| 0 <= i < j < d.len() implies (#[trigger] d[i]).0 < (#[trigger] d[j]).0 by {
                assert(d[i] == rows[i] && d[j] == rows[j]);
            }
            assert forall|i: int| 0 <= i < d.len() implies increasing(#[trigger] d[i].1) by {
                assert(d[i] == rows[i]);
            }
        }
        lemma_rows_cells_len(d);
        assert(increasing(rows[rows.len() - 1].1));
        lemma_row_cells_len(x.0, x.1);
        let a = rows_cells(d);
        let b = row_cells(x.0, x.1);
        assert forall|p: (u32, u32)| #[trigger] rows_cells(rows).contains(p) == (a + b).contains(p) by {
            if row_holds(rows, p.0, p.1) {
                let j = choose|j: int| 0 <= j < rows.len() && (#[trigger] rows[j]).0 == p.0 && rows[j].1.contains(p.1);
                if j < rows.len() - 1 {
                    assert(d[j] == rows[j]);
                    assert(row_holds(d, p.0, p.1));
                }
            }
            if a.contains(p) {
                let j = choose|j: int| 0 <= j < d.len() && (#[trigger] d[j]).0 == p.0 && d[j].1.contains(p.1);
                assert(rows[j] == d[j]);
                assert(row_holds(rows, p.0, p.1));
            }
            if b.contains(p) {
                assert(rows[rows.len() - 1] == x);
                assert(row_holds(rows, p.0, p.1));
            }
        }
        assert(rows_cells(rows) =~= a + b);
        assert(a.disjoint(b)) by {
            assert forall|p: (u32, u32)| a.contains(p) implies !b.contains(p) by {
                let j = choose|j: int| 0 <= j < d.len() && (#[trigger] d[j]).0 == p.0 && d[j].1.contains(p.1);
                assert(d[j] == rows[j]);
                assert(rows[j].0 < rows[rows.len() - 1].0);
            }
        }
        vstd::set_lib::lemma_set_disjoint_lens(a, b);
    }
}

impl AuthoredCellIndex {
    /// The authored cells of the sheet whose folded name is `s`.
    pub open spec fn authored_cells(self, s: Seq<char>) -> Set<(u32, u32)> {
        Set::new(|p: (u32, u32)| self.authored(s, p.0, p.1))
    }

    /// A sheet has finitely many authored cells, and a lookup probes none
    /// for a rectangle whose corners are the wrong way round, for a sheet
    /// that is not indexed, or for a rectangle with more cells than its
    /// sheet has authored cells.
    pub proof fn lemma_examined_none(self, r: RangeKey)
        requires
            self.wf(),
        ensures
            self.authored_cells(r.0).finite(),
            r.1.row > r.2.row || r.1.column > r.2.column || !self.has_sheet(r.0) || rect_area(r) > self.authored_cells(
                r.0,
            ).len() ==> self.examined(r) == 0,
    {
        if self.has_sheet(r.0) {
            let i = self.entry_of(r.0);
            assert(0 <= i < self.sheets@.len() && self.names()[i] == r.0);
            assert forall|p: (u32, u32)| #[trigger] self.authored_cells(r.0).contains(p) == rows_cells(self.rows_at(i)).contains(p) by {
                self.lemma_authored_at(i, p.0, p.1);
            }
            assert(self.authored_cells(r.0) =~= rows_cells(self.rows_at(i)));
            assert(rows_wf(self.rows_at(i)));
            lemma_rows_cells_len(self.rows_at(i));
        } else {
            assert(self.authored_cells(r.0) =~= Set::<(u32, u32)>::empty());
        }
    }
}
} // verus!
