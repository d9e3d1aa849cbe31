//! Array-spill geometry and the blocked-spill policy.
//!
//! A formula whose result is an `m × n` array is a spill anchor: it stores the
//! full array and occupies the rectangle `(r..r+m-1, c..c+n-1)` anchored at
//! the formula cell `(r, c)`, in reading order. The non-anchor cells of that
//! rectangle are spilled cells: a derived view, never authored and never
//! serialized. A spill whose rectangle would leave the sheet's address bounds
//! is blocked.

use vstd::prelude::*;

use crate::address::{in_bounds, Address};
use crate::limits::{MAX_COLUMN, MAX_ROW};

verus! {

/// The Sheets blocked-spill error code: a blocked array expansion reports
/// `#REF!`.
pub const BLOCKED_SPILL_ERROR: &'static str = "#REF!";

/// The error a cell on, or downstream of, a circular dependency takes:
/// Sheets reports a circular dependency as `#REF!`.
pub const CIRCULAR_ERROR: &'static str = "#REF!";

/// An in-bounds spill rectangle: the geometry of one anchor's reconstructed
/// array.
#[derive(Debug, Clone, Copy, PartialEq, Eq, Structural)]
pub struct SpillRect {
    /// The anchor (top-left) cell: the authored formula cell.
    pub anchor: Address,
    /// Row count of the array (≥ 1).
    pub rows: u32,
    /// Column count of the array (≥ 1).
    pub cols: u32,
}

impl SpillRect {
    /// Whether the rectangle is non-empty and lies inside the grid (every
    /// rectangle [`spill_rect`] returns is).
    pub open spec fn wf(self) -> bool {
        &&& self.anchor.wf()
        &&& self.rows >= 1
        &&& self.cols >= 1
        &&& self.anchor.row + self.rows - 1 <= MAX_ROW
        &&& self.anchor.column + self.cols - 1 <= MAX_COLUMN
    }

    /// Whether `addr` lies inside this rectangle (anchor included).
    pub open spec fn spec_contains(self, addr: Address) -> bool {
        &&& self.anchor.row <= addr.row < self.anchor.row + self.rows
        &&& self.anchor.column <= addr.column < self.anchor.column + self.cols
    }

    /// Whether `addr` lies inside this rectangle (anchor included).
    pub fn contains(&self, addr: Address) -> (b: bool)
        requires
            self.wf(),
        ensures
            b == self.spec_contains(addr),
    {
        addr.row >= self.anchor.row && addr.row < self.anchor.row + self.rows && addr.column
            >= self.anchor.column && addr.column < self.anchor.column + self.cols
    }

    /// The `(i, j)` offset of `addr` within this rectangle (anchor =
    /// `(0, 0)`), or `None` if `addr` is outside it. The element of the
    /// anchor's array at `[i][j]` is the value spilled to `addr`.
    pub fn offset_of(&self, addr: Address) -> (r: Option<(usize, usize)>)
        requires
            self.wf(),
        ensures
            r == (if self.spec_contains(addr) {
                Some(
                    (
                        (addr.row - self.anchor.row) as usize,
                        (addr.column - self.anchor.column) as usize,
                    ),
                )
            } else {
                None
            }),
    {
        if !self.contains(addr) {
            return None;
        }
        Some(((addr.row - self.anchor.row) as usize, (addr.column - self.anchor.column) as usize))
    }

    /// The **non-anchor** cells of the rectangle (the spilled cells), in
    /// reading order.
    pub fn spilled_cells(&self) -> (v: Vec<Address>)
        requires
            self.wf(),
        ensures
            forall|a: Address|
                v@.contains(a) <==> (self.spec_contains(a) && a != self.anchor),
            forall|k: int| 0 <= k < v@.len() ==> (#[trigger] v@[k]).wf(),
            forall|k: int, l: int| 0 <= k < l < v@.len() ==> reading_before(v@[k], v@[l]),
    {
        let anchor = self.anchor;
        let mut v: Vec<Address> = Vec::new();
        let mut i: u32 = 0;
        while i < self.rows
            invariant
                self.wf(),
                anchor == self.anchor,
                i <= self.rows,
                forall|a: Address|
                    v@.contains(a) <==> (self.spec_contains(a) && a != anchor && a.row < anchor.row
                        + i),
                forall|k: int| 0 <= k < v@.len() ==> (#[trigger] v@[k]).wf(),
                forall|k: int, l: int| 0 <= k < l < v@.len() ==> reading_before(v@[k], v@[l]),
                forall|k: int| 0 <= k < v@.len() ==> (#[trigger] v@[k]).row < anchor.row + i,
            decreases self.rows - i,
        {
            let mut j: u32 = 0;
            while j < self.cols
                invariant
                    self.wf(),
                    anchor == self.anchor,
                    i < self.rows,
                    j <= self.cols,
                    forall|a: Address|
                        v@.contains(a) <==> (self.spec_contains(a) && a != anchor && (a.row
                            < anchor.row + i || (a.row == anchor.row + i && a.column < anchor.column
                            + j))),
                    forall|k: int| 0 <= k < v@.len() ==> (#[trigger] v@[k]).wf(),
                    forall|k: int, l: int| 0 <= k < l < v@.len() ==> reading_before(v@[k], v@[l]),
                    forall|k: int|
                        0 <= k < v@.len() ==> (#[trigger] v@[k]).row < anchor.row + i || (
                        v@[k].row == anchor.row + i && v@[k].column < anchor.column + j),
                decreases self.cols - j,
            {
                if !(i == 0 && j == 0) {
                    let a = Address { row: anchor.row + i, column: anchor.column + j };
                    let ghost old_v = v@;
                    v.push(a);
                    assert forall|b: Address|
                        v@.contains(b) <==> (self.spec_contains(b) && b != anchor && (b.row
                            < anchor.row + i || (b.row == anchor.row + i && b.column
                            < anchor.column + j + 1))) by {
                        if b == a {
                            assert(v@[old_v.len() as int] == a);
                        }
                        if old_v.contains(b) {
                            let k = choose|k: int| 0 <= k < old_v.len() && old_v[k] == b;
                            assert(v@[k] == b);
                        }
                        if v@.contains(b) && b != a {
                            let k = choose|k: int| 0 <= k < v@.len() && v@[k] == b;
                            assert(k < old_v.len());
                            assert(old_v[k] == b);
                        }
                    }
                } else {
                    assert forall|b: Address|
                        v@.contains(b) <==> (self.spec_contains(b) && b != anchor && (b.row
                            < anchor.row + i || (b.row == anchor.row + i && b.column
                            < anchor.column + j + 1))) by {
                        if self.spec_contains(b) && b != anchor && b.row == anchor.row + i
                            && b.column < anchor.column + 1 {
                            assert(b.column == anchor.column);
                            assert(b.row == anchor.row);
                        }
                    }
                }
                j = j + 1;
            }
            i = i + 1;
        }
        v
    }
}

/// Whether `a` comes strictly before `b` in reading order (row, then column).
pub open spec fn reading_before(a: Address, b: Address) -> bool {
    a.row < b.row || (a.row == b.row && a.column < b.column)
}

/// The rectangle an `rows × cols` array spills into, anchored at `anchor`
/// (reading order). Returns `None` if the rectangle would leave the sheet's
/// address bounds (a blocked, out-of-bounds spill).
pub fn spill_rect(anchor: Address, rows: usize, cols: usize) -> (r: Option<SpillRect>)
    requires
        anchor.wf(),
        rows >= 1,
        cols >= 1,
    ensures
        r == (if anchor.row + rows - 1 <= MAX_ROW && anchor.column + cols - 1 <= MAX_COLUMN {
            Some(SpillRect { anchor, rows: rows as u32, cols: cols as u32 })
        } else {
            None
        }),
        r matches Some(rect) ==> rect.wf(),
{
    let last_row: u128 = anchor.row as u128 + rows as u128 - 1;
    let last_col: u128 = anchor.column as u128 + cols as u128 - 1;
    if last_row > MAX_ROW as u128 || last_col > MAX_COLUMN as u128 {
        return None;
    }
    Some(SpillRect { anchor, rows: rows as u32, cols: cols as u32 })
}

} // verus!
