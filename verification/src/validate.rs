//! Document-validity rules on spill rectangles and sheet names.

use vstd::prelude::*;

use crate::address::Address;
use crate::error::WorkbookError;
use crate::limits::{MAX_COLUMN, MAX_ROW, MAX_SHEET_NAME_LEN};
use crate::text::{chars_of, debug_quoted, decimal_digits, decimal_string, push_str, spec_debug_quoted};

verus! {

/// Whether `p` lies in the `rows × cols` rectangle whose top-left cell is
/// `anchor`.
pub open spec fn spec_in_rect(p: Address, anchor: Address, rows: int, cols: int) -> bool {
    &&& anchor.row <= p.row < anchor.row + rows
    &&& anchor.column <= p.column < anchor.column + cols
}

/// Whether two anchored rectangles share a cell.
pub open spec fn spec_rects_overlap(a: Address, ar: int, ac: int, b: Address, br: int, bc: int) -> bool {
    &&& a.row <= b.row + br - 1
    &&& b.row <= a.row + ar - 1
    &&& a.column <= b.column + bc - 1
    &&& b.column <= a.column + ac - 1
}

fn in_rect(p: &Address, anchor: &Address, rows: usize, cols: usize) -> (b: bool)
    requires
        anchor.row + rows <= u32::MAX,
        anchor.column + cols <= u32::MAX,
    ensures
        b == spec_in_rect(*p, *anchor, rows as int, cols as int),
{
    p.row >= anchor.row && p.row < anchor.row + rows as u32 && p.column >= anchor.column && p.column
        < anchor.column + cols as u32
}

fn rects_overlap(a: &Address, ar: usize, ac: usize, b: &Address, br: usize, bc: usize) -> (r: bool)
    requires
        1 <= a.row + ar <= u32::MAX,
        1 <= a.column + ac <= u32::MAX,
        1 <= b.row + br <= u32::MAX,
        1 <= b.column + bc <= u32::MAX,
    ensures
        r == spec_rects_overlap(*a, ar as int, ac as int, *b, br as int, bc as int),
{
    let a_r0 = a.row;
    let a_r1 = a.row + ar as u32 - 1;
    let a_c0 = a.column;
    let a_c1 = a.column + ac as u32 - 1;
    let b_r0 = b.row;
    let b_r1 = b.row + br as u32 - 1;
    let b_c0 = b.column;
    let b_c1 = b.column + bc as u32 - 1;
    a_r0 <= b_r1 && b_r0 <= a_r1 && a_c0 <= b_c1 && b_c0 <= a_c1
}

/// An anchor and the dimensions of the rectangle it reconstructs.
pub type Anchor = (Address, usize, usize);

/// The anchor's rectangle runs past the last row or column.
pub open spec fn anchor_out_of_bounds(an: Anchor) -> bool {
    an.0.row + an.1 - 1 > MAX_ROW || an.0.column + an.2 - 1 > MAX_COLUMN
}

/// Authored cell `p` lies inside the anchor's rectangle and is not the anchor.
pub open spec fn inside_other(p: Address, an: Anchor) -> bool {
    p != an.0 && spec_in_rect(p, an.0, an.1 as int, an.2 as int)
}

/// The anchor breaks a rule on its own.
pub open spec fn anchor_fails(authored: Seq<Address>, an: Anchor) -> bool {
    anchor_out_of_bounds(an) || exists|t: int| 0 <= t < authored.len() && #[trigger] inside_other(authored[t], an)
}

/// The rectangles of anchors `i` and `j` overlap.
pub open spec fn anchors_overlap(anchors: Seq<Anchor>, i: int, j: int) -> bool {
    spec_rects_overlap(anchors[i].0, anchors[i].1 as int, anchors[i].2 as int, anchors[j].0, anchors[j].1 as int, anchors[j].2 as int)
}

/// The message for an anchor whose rectangle leaves the grid.
pub open spec fn out_of_bounds_message(an: Anchor, sheet: Seq<char>) -> Seq<char> {
    "spill anchor at row "@ + decimal_digits(an.0.row as nat) + " col "@ + decimal_digits(an.0.column as nat)
        + " in sheet "@ + spec_debug_quoted(sheet) + " reconstructs a "@ + decimal_digits(an.1 as nat) + "\u{d7}"@
        + decimal_digits(an.2 as nat) + " rectangle that exceeds the sheet's address bounds (schema spec \u{a7}5)"@
}

/// The message for an authored cell inside another anchor's rectangle.
pub open spec fn authored_inside_message(p: Address, an: Anchor, sheet: Seq<char>) -> Seq<char> {
    "authored cell at row "@ + decimal_digits(p.row as nat) + " col "@ + decimal_digits(p.column as nat)
        + " in sheet "@ + spec_debug_quoted(sheet) + " lies inside the spill rectangle of the anchor at row "@
        + decimal_digits(an.0.row as nat) + " col "@ + decimal_digits(an.0.column as nat) + " (schema spec \u{a7}5)"@
}

/// The message for two overlapping rectangles.
pub open spec fn overlap_message(a: Anchor, b: Anchor, sheet: Seq<char>) -> Seq<char> {
    "spill rectangles of the anchors at row "@ + decimal_digits(a.0.row as nat) + " col "@ + decimal_digits(
        a.0.column as nat,
    ) + " and row "@ + decimal_digits(b.0.row as nat) + " col "@ + decimal_digits(b.0.column as nat) + " in sheet "@
        + spec_debug_quoted(sheet) + " overlap (schema spec \u{a7}5)"@
}

fn out_of_bounds_msg(an: &Anchor, sheet: &str) -> (m: String)
    ensures
        m@ == out_of_bounds_message(*an, sheet@),
{
    let mut m = String::new();
    push_str(&mut m, "spill anchor at row ");
    push_str(&mut m, decimal_string(an.0.row as u64).as_str());
    push_str(&mut m, " col ");
    push_str(&mut m, decimal_string(an.0.column as u64).as_str());
    push_str(&mut m, " in sheet ");
    push_str(&mut m, debug_quoted(sheet).as_str());
    push_str(&mut m, " reconstructs a ");
    push_str(&mut m, decimal_string(an.1 as u64).as_str());
    push_str(&mut m, "\u{d7}");
    push_str(&mut m, decimal_string(an.2 as u64).as_str());
    push_str(&mut m, " rectangle that exceeds the sheet's address bounds (schema spec \u{a7}5)");
    assert(m@ =~= out_of_bounds_message(*an, sheet@));
    m
}

fn authored_inside_msg(p: &Address, an: &Anchor, sheet: &str) -> (m: String)
    ensures
        m@ == authored_inside_message(*p, *an, sheet@),
{
    let mut m = String::new();
    push_str(&mut m, "authored cell at row ");
    push_str(&mut m, decimal_string(p.row as u64).as_str());
    push_str(&mut m, " col ");
    push_str(&mut m, decimal_string(p.column as u64).as_str());
    push_str(&mut m, " in sheet ");
    push_str(&mut m, debug_quoted(sheet).as_str());
    push_str(&mut m, " lies inside the spill rectangle of the anchor at row ");
    push_str(&mut m, decimal_string(an.0.row as u64).as_str());
    push_str(&mut m, " col ");
    push_str(&mut m, decimal_string(an.0.column as u64).as_str());
    push_str(&mut m, " (schema spec \u{a7}5)");
    assert(m@ =~= authored_inside_message(*p, *an, sheet@));
    m
}

fn overlap_msg(a: &Anchor, b: &Anchor, sheet: &str) -> (m: String)
    ensures
        m@ == overlap_message(*a, *b, sheet@),
{
    let mut m = String::new();
    push_str(&mut m, "spill rectangles of the anchors at row ");
    push_str(&mut m, decimal_string(a.0.row as u64).as_str());
    push_str(&mut m, " col ");
    push_str(&mut m, decimal_string(a.0.column as u64).as_str());
    push_str(&mut m, " and row ");
    push_str(&mut m, decimal_string(b.0.row as u64).as_str());
    push_str(&mut m, " col ");
    push_str(&mut m, decimal_string(b.0.column as u64).as_str());
    push_str(&mut m, " in sheet ");
    push_str(&mut m, debug_quoted(sheet).as_str());
    push_str(&mut m, " overlap (schema spec \u{a7}5)");
    assert(m@ =~= overlap_message(*a, *b, sheet@));
    m
}

/// Anchor `k` is the first that breaks a rule on its own.
pub open spec fn first_failing_anchor(authored: Seq<Address>, anchors: Seq<Anchor>, k: int) -> bool {
    &&& 0 <= k < anchors.len()
    &&& anchor_fails(authored, anchors[k])
    &&& forall|k2: int| 0 <= k2 < k ==> !anchor_fails(authored, #[trigger] anchors[k2])
}

/// Authored cell `t` is the first inside the anchor's rectangle.
pub open spec fn first_inside(authored: Seq<Address>, an: Anchor, t: int) -> bool {
    &&& 0 <= t < authored.len()
    &&& inside_other(authored[t], an)
    &&& forall|t2: int| 0 <= t2 < t ==> !inside_other(#[trigger] authored[t2], an)
}

/// Pair `(i, j)` is the first overlapping pair in row-major pair order.
pub open spec fn first_overlap(anchors: Seq<Anchor>, i: int, j: int) -> bool {
    &&& 0 <= i < j < anchors.len()
    &&& anchors_overlap(anchors, i, j)
    &&& forall|i2: int, j2: int|
        0 <= i2 < j2 < anchors.len() && (i2 < i || (i2 == i && j2 < j)) ==> !#[trigger] anchors_overlap(anchors, i2, j2)
}

/// `m` is the message for the first violation: an anchor out of bounds, an
/// authored cell inside an anchor's rectangle (both checked anchor by anchor),
/// or else two overlapping rectangles.
pub open spec fn spill_error(authored: Seq<Address>, anchors: Seq<Anchor>, sheet: Seq<char>, m: Seq<char>) -> bool {
    ||| exists|k: int|
        first_failing_anchor(authored, anchors, k) && anchor_out_of_bounds(anchors[k]) && m == out_of_bounds_message(anchors[k], sheet)
    ||| exists|k: int, t: int|
        first_failing_anchor(authored, anchors, k) && !anchor_out_of_bounds(anchors[k]) && first_inside(authored, anchors[k], t)
            && m == authored_inside_message(authored[t], anchors[k], sheet)
    ||| (forall|k: int| 0 <= k < anchors.len() ==> !anchor_fails(authored, #[trigger] anchors[k])) && exists|i: int, j: int|
        first_overlap(anchors, i, j) && m == overlap_message(anchors[i], anchors[j], sheet)
}

/// Spill rules of one sheet: no authored cell may lie inside another anchor's
/// rectangle, no two anchors' rectangles may overlap, and no rectangle may
/// run past the sheet's address bounds. Reports the first violation.
pub fn validate_spill_rectangles(authored: &[Address], anchors: &[Anchor], sheet: &str) -> (res: Result<(), String>)
    requires
        forall|k: int| 0 <= k < anchors@.len() ==> (#[trigger] anchors@[k]).0.wf(),
    ensures
        match res {
            Ok(()) => (forall|k: int| 0 <= k < anchors@.len() ==> !anchor_fails(authored@, #[trigger] anchors@[k])) && (forall|i: int, j: int|
                0 <= i < j < anchors@.len() ==> !#[trigger] anchors_overlap(anchors@, i, j)),
            Err(m) => spill_error(authored@, anchors@, sheet@, m@),
        },
{
    let mut k: usize = 0;
    while k < anchors.len()
        invariant
            k <= anchors@.len(),
            forall|k2: int| 0 <= k2 < anchors@.len() ==> (#[trigger] anchors@[k2]).0.wf(),
            forall|k2: int| 0 <= k2 < k ==> !anchor_fails(authored@, #[trigger] anchors@[k2]),
        decreases anchors@.len() - k,
    {
        let an = &anchors[k];
        let last_row: u128 = an.0.row as u128 + an.1 as u128 - 1;
        let last_col: u128 = an.0.column as u128 + an.2 as u128 - 1;
        if last_row > MAX_ROW as u128 || last_col > MAX_COLUMN as u128 {
            let m = out_of_bounds_msg(an, sheet);
            proof {
                assert(first_failing_anchor(authored@, anchors@, k as int));
            }
            return Err(m);
        }
        let mut t: usize = 0;
        while t < authored.len()
            invariant
                k < anchors@.len(),
                *an == anchors@[k as int],
                !anchor_out_of_bounds(*an),
                an.0.wf(),
                t <= authored@.len(),
                forall|k2: int| 0 <= k2 < k ==> !anchor_fails(authored@, #[trigger] anchors@[k2]),
                forall|t2: int| 0 <= t2 < t ==> !inside_other(#[trigger] authored@[t2], *an),
            decreases authored@.len() - t,
        {
            let a = &authored[t];
            if *a != an.0 {
                if in_rect(a, &an.0, an.1, an.2) {
                    let m = authored_inside_msg(a, an, sheet);
                    proof {
                        assert(inside_other(authored@[t as int], *an));
                        assert(first_failing_anchor(authored@, anchors@, k as int));
                        assert(first_inside(authored@, anchors@[k as int], t as int));
                    }
                    return Err(m);
                }
            }
            t = t + 1;
        }
        proof {
            assert(!anchor_fails(authored@, anchors@[k as int])) by {
                if exists|t2: int| 0 <= t2 < authored@.len() && #[trigger] inside_other(authored@[t2], *an) {
                    let t2 = choose|t2: int| 0 <= t2 < authored@.len() && #[trigger] inside_other(authored@[t2], *an);
                }
            }
        }
        k = k + 1;
    }
    let n = anchors.len();
    let mut i: usize = 0;
    while i < n
        invariant
            n == anchors@.len(),
            i <= n,
            forall|k2: int| 0 <= k2 < n ==> (#[trigger] anchors@[k2]).0.wf(),
            forall|k2: int| 0 <= k2 < n ==> !anchor_fails(authored@, #[trigger] anchors@[k2]),
            forall|i2: int, j2: int| 0 <= i2 < j2 < n && i2 < i ==> !#[trigger] anchors_overlap(anchors@, i2, j2),
        decreases n - i,
    {
        let mut j: usize = i + 1;
        while j < n
            invariant
                n == anchors@.len(),
                i < n,
                i + 1 <= j <= n,
                forall|k2: int| 0 <= k2 < n ==> (#[trigger] anchors@[k2]).0.wf(),
                forall|k2: int| 0 <= k2 < n ==> !anchor_fails(authored@, #[trigger] anchors@[k2]),
                forall|i2: int, j2: int|
                    0 <= i2 < j2 < n && (i2 < i || (i2 == i && j2 < j)) ==> !#[trigger] anchors_overlap(anchors@, i2, j2),
            decreases n - j,
        {
            let a = &anchors[i];
            let b = &anchors[j];
            proof {
                assert(!anchor_fails(authored@, anchors@[i as int]));
                assert(!anchor_fails(authored@, anchors@[j as int]));
            }
            if rects_overlap(&a.0, a.1, a.2, &b.0, b.1, b.2) {
                let m = overlap_msg(a, b, sheet);
                proof {
                    assert(first_overlap(anchors@, i as int, j as int));
                }
                return Err(m);
            }
            j = j + 1;
        }
        i = i + 1;
    }
    Ok(())
}

/// The message for an over-long sheet name.
pub open spec fn long_sheet_name_message(name: Seq<char>) -> Seq<char> {
    "worksheet name "@ + spec_debug_quoted(name) + " has "@ + decimal_digits(name.len()) + " scalar values, exceeding the limit of "@
        + decimal_digits(MAX_SHEET_NAME_LEN as nat) + " (schema spec \u{a7}3)"@
}

/// The per-name shape rule for a sheet name: non-empty and at most
/// [`MAX_SHEET_NAME_LEN`] Unicode scalar values.
pub fn validate_sheet_name(name: &str) -> (r: Result<(), WorkbookError>)
    ensures
        match r {
            Ok(()) => 1 <= name@.len() <= MAX_SHEET_NAME_LEN,
            Err(e) => e is SheetManagement && ((name@.len() == 0 && e.spec_message()
                == "a worksheet name must be non-empty (schema spec \u{a7}3)"@) || (name@.len() > MAX_SHEET_NAME_LEN
                && e.spec_message() == long_sheet_name_message(name@))),
        },
{
    let v = chars_of(name);
    let len = v.len();
    if len == 0 {
        return Err(WorkbookError::SheetManagement(String::from_str("a worksheet name must be non-empty (schema spec \u{a7}3)")));
    }
    if len > MAX_SHEET_NAME_LEN {
        let mut m = String::new();
        push_str(&mut m, "worksheet name ");
        push_str(&mut m, debug_quoted(name).as_str());
        push_str(&mut m, " has ");
        push_str(&mut m, decimal_string(len as u64).as_str());
        push_str(&mut m, " scalar values, exceeding the limit of ");
        push_str(&mut m, decimal_string(MAX_SHEET_NAME_LEN as u64).as_str());
        push_str(&mut m, " (schema spec \u{a7}3)");
        assert(m@ =~= long_sheet_name_message(name@));
        return Err(WorkbookError::SheetManagement(m));
    }
    Ok(())
}

} // verus!
