//! Small pure helpers of the recalc engine: recognising a function call in an
//! upper-cased formula, spill/range geometry, and the SplitMix64 finalizer
//! behind the seeded random-number key.

use vstd::prelude::*;

use vstd::string::StringSliceAdditionalSpecFns;

use crate::depgraph::{
    cell_views, compare_cells, copy_cell, insert_sorted, strictly_sorted, CellKey, CellRef, RangeKey, RangeRef,
};
use crate::address::Address;
use crate::spill::SpillRect;

verus! {

/// Whether byte `b` can be part of an identifier: an ASCII letter or digit,
/// or `_`.
pub open spec fn spec_is_ident_byte(b: u8) -> bool {
    (48 <= b <= 57) || (65 <= b <= 90) || (97 <= b <= 122) || b == 95
}

/// Whether `b` is an identifier byte (ASCII alphanumeric or `_`).
pub fn is_ident_byte(b: u8) -> (r: bool)
    ensures
        r == spec_is_ident_byte(b),
{
    (b >= 48 && b <= 57) || (b >= 65 && b <= 90) || (b >= 97 && b <= 122) || b == 95
}

/// `needle` occurs in `haystack` at position `i`.
pub open spec fn occurs_at(haystack: Seq<u8>, needle: Seq<u8>, i: int) -> bool {
    0 <= i && i + needle.len() <= haystack.len() && haystack.subrange(i, i + needle.len()) == needle
}

/// The first position at or after `from` where a non-empty `needle` occurs in
/// `haystack`.
pub fn find_from(haystack: &[u8], needle: &[u8], from: usize) -> (r: Option<usize>)
    requires
        from + needle@.len() <= usize::MAX,
    ensures
        match r {
            Some(p) => needle@.len() > 0 && from <= p && occurs_at(haystack@, needle@, p as int) && forall|q: int|
                from <= q < p ==> !occurs_at(haystack@, needle@, q),
            None => needle@.len() == 0 || forall|q: int| from <= q ==> !occurs_at(haystack@, needle@, q),
        },
{
    let n = needle.len();
    if n == 0 || from + n > haystack.len() {
        return None;
    }
    let last = haystack.len() - n;
    assert(haystack@.len() == haystack.len());
    let mut i: usize = from;
    while i <= last
        invariant
            n == needle@.len() > 0,
            last + n == haystack@.len(),
            haystack@.len() <= usize::MAX,
            from <= i,
            forall|q: int| from <= q < i ==> !occurs_at(haystack@, needle@, q),
        decreases last + 1 - i,
    {
        let mut k: usize = 0;
        while k < n && haystack[i + k] == needle[k]
            invariant
                n == needle@.len(),
                i <= last,
                last + n == haystack@.len(),
                haystack@.len() <= usize::MAX,
                k <= n,
                forall|t: int| 0 <= t < k ==> haystack@[i + t] == needle@[t],
            decreases n - k,
        {
            k = k + 1;
        }
        if k == n {
            proof {
                assert(haystack@.subrange(i as int, i + n) =~= needle@);
            }
            return Some(i);
        }
        proof {
            assert(haystack@.subrange(i as int, i + n)[k as int] == haystack@[i + k]);
        }
        i = i + 1;
    }
    proof {
        assert forall|q: int| from <= q implies !occurs_at(haystack@, needle@, q) by {
            if q >= i {
                assert(q + n > haystack@.len());
            }
        }
    }
    None
}

/// The first byte at or after `j` that is not a space is `(`.
pub open spec fn paren_after_spaces(u: Seq<u8>, j: int) -> bool {
    exists|k: int| j <= k < u.len() && u[k] == 40 && forall|m: int| j <= m < k ==> #[trigger] u[m] == 32
}

/// A call of `name` starts at `pos` in `u`: `name` occurs there, is not the
/// tail of a longer identifier, and is followed, past any spaces, by `(`.
pub open spec fn call_at(u: Seq<u8>, name: Seq<u8>, pos: int) -> bool {
    &&& name.len() > 0
    &&& occurs_at(u, name, pos)
    &&& (pos == 0 || !spec_is_ident_byte(u[pos - 1]))
    &&& paren_after_spaces(u, pos + name.len())
}

/// Whether `upper` (an upper-cased formula) calls the function `name`: `name`
/// appears, not as the tail of a longer identifier, followed by `(` after any
/// spaces.
pub fn contains_call(upper: &str, name: &str) -> (r: bool)
    ensures
        r == exists|pos: int| call_at(upper.spec_bytes(), name.spec_bytes(), pos),
{
    calls_in(upper.as_bytes(), name.as_bytes())
}

/// Whether the bytes `bytes` hold a call of the function whose name is
/// `nb`.
fn calls_in(bytes: &[u8], nb: &[u8]) -> (r: bool)
    ensures
        r == exists|pos: int| call_at(bytes@, nb@, pos),
{
    let ghost u = bytes@;
    let ghost w = nb@;
    let mut i: usize = 0;
    while i <= bytes.len()
        invariant
            bytes@ == u,
            nb@ == w,
            forall|q: int| 0 <= q < i ==> !call_at(u, w, q),
        decreases bytes@.len() + 1 - i,
    {
        if nb.len() > bytes.len() - i {
            proof {
                assert forall|q: int| 0 <= q implies !call_at(u, w, q) by {
                    if q >= i {
                        assert(q + w.len() > u.len());
                    }
                }
                assert(!exists|pos: int| call_at(u, w, pos));
            }
            return false;
        }
        match find_from(bytes, nb, i) {
            None => {
                proof {
                    assert forall|q: int| 0 <= q implies !call_at(u, w, q) by {
                        if q >= i && w.len() > 0 {
                            assert(!occurs_at(u, w, q));
                        }
                    }
                    assert(!exists|pos: int| call_at(u, w, pos));
                }
                return false;
            },
            Some(pos) => {
                let before_ok = pos == 0 || !is_ident_byte(bytes[pos - 1]);
                let mut j: usize = pos + nb.len();
                while j < bytes.len() && bytes[j] == 32
                    invariant
                        bytes@ == u,
                        pos + nb@.len() <= j <= bytes@.len(),
                        forall|m: int| pos + nb@.len() <= m < j ==> #[trigger] u[m] == 32,
                    decreases bytes@.len() - j,
                {
                    j = j + 1;
                }
                let after_ok = j < bytes.len() && bytes[j] == 40;
                proof {
                    let start = pos + w.len();
                    if paren_after_spaces(u, start) {
                        let k = choose|k: int| start <= k < u.len() && u[k] == 40 && forall|m: int| start <= m < k ==> #[trigger] u[m] == 32;
                        if k < j {
                            assert(u[k] == 32);
                        }
                        if k > j && j < u.len() {
                            assert(u[j as int] == 32);
                        }
                    }
                }
                if before_ok && after_ok {
                    proof {
                        assert(call_at(u, w, pos as int));
                    }
                    return true;
                }
                proof {
                    assert forall|q: int| 0 <= q < pos + 1 implies !call_at(u, w, q) by {
                        if q >= i && q < pos {
                            assert(!occurs_at(u, w, q));
                        }
                    }
                }
                i = pos + 1;
            },
        }
    }
    proof {
        assert forall|q: int| 0 <= q implies !call_at(u, w, q) by {
            if q >= i {
                assert(q + w.len() > u.len());
            }
        }
    }
    false
}

/// A byte upper-cased as ASCII: `a`..=`z` become `A`..=`Z`; any other byte
/// stays.
pub open spec fn ascii_upper(b: u8) -> u8 {
    if 97 <= b <= 122 {
        (b - 32) as u8
    } else {
        b
    }
}

/// Bytes upper-cased as ASCII.
pub open spec fn upper_bytes(s: Seq<u8>) -> Seq<u8> {
    s.map_values(|b: u8| ascii_upper(b))
}

/// Whether a cell's formula (`None` for a cell without one) calls one of
/// `volatile_functions` (upper-case function names): its text, upper-cased
/// as ASCII, holds a call of one of them. Such a cell is recomputed by
/// every incremental recalculation.
pub fn is_volatile(formula: Option<&str>, volatile_functions: &[&str]) -> (r: bool)
    ensures
        r == match formula {
            None => false,
            Some(f) => exists|i: int, pos: int|
                0 <= i < volatile_functions@.len() && #[trigger] call_at(
                    upper_bytes(f.spec_bytes()),
                    volatile_functions@[i].spec_bytes(),
                    pos,
                ),
        },
{
    let f = match formula {
        Some(f) => f,
        None => return false,
    };
    let bytes = f.as_bytes();
    let ghost target = upper_bytes(f.spec_bytes());
    let mut upper: Vec<u8> = Vec::new();
    let mut k: usize = 0;
    proof {
        assert(upper@ =~= target.take(0));
    }
    while k < bytes.len()
        invariant
            k <= bytes@.len(),
            bytes@ == f.spec_bytes(),
            target == upper_bytes(f.spec_bytes()),
            upper@ == target.take(k as int),
        decreases bytes@.len() - k,
    {
        let b = bytes[k];
        let c: u8 = if b >= 97 && b <= 122 {
            b - 32
        } else {
            b
        };
        upper.push(c);
        proof {
            assert(b == f.spec_bytes()[k as int]);
            assert(target[k as int] == ascii_upper(b));
            assert(upper@ =~= target.take(k as int + 1));
        }
        k = k + 1;
    }
    proof {
        assert(upper@ =~= target);
    }
    let mut i: usize = 0;
    while i < volatile_functions.len()
        invariant
            i <= volatile_functions@.len(),
            upper@ == target,
            target == upper_bytes(f.spec_bytes()),
            formula == Some(f),
            forall|i2: int, pos: int| 0 <= i2 < i ==> !#[trigger] call_at(target, volatile_functions@[i2].spec_bytes(), pos),
        decreases volatile_functions@.len() - i,
    {
        let name = volatile_functions[i];
        let nb = name.as_bytes();
        proof {
            assert(name == volatile_functions@[i as int]);
            assert(nb@ == name.spec_bytes());
        }
        if calls_in(upper.as_slice(), nb) {
            proof {
                assert(exists|pos: int| call_at(target, name.spec_bytes(), pos));
                let pos = choose|pos: int| call_at(target, name.spec_bytes(), pos);
                assert(call_at(upper_bytes(f.spec_bytes()), volatile_functions@[i as int].spec_bytes(), pos));
                assert(formula->0.spec_bytes() == f.spec_bytes());
            }
            return true;
        }
        i = i + 1;
    }
    false
}

/// Whether a spill rectangle and a range's inclusive row/column extents
/// intersect (the sheet is compared by the caller).
pub open spec fn spec_rect_overlaps_range(rect: SpillRect, range: RangeKey) -> bool {
    &&& rect.anchor.row <= range.2.row
    &&& rect.anchor.row + rect.rows - 1 >= range.1.row
    &&& rect.anchor.column <= range.2.column
    &&& rect.anchor.column + rect.cols - 1 >= range.1.column
}

/// Whether spill rectangle `rect` and range `range` overlap in rows and
/// columns (same sheet assumed checked by the caller).
pub fn rect_overlaps_range(rect: &SpillRect, range: &RangeRef) -> (b: bool)
    requires
        rect.wf(),
    ensures
        b == spec_rect_overlaps_range(*rect, range@),
{
    let rect_r0 = rect.anchor.row;
    let rect_r1 = rect.anchor.row + rect.rows - 1;
    let rect_c0 = rect.anchor.column;
    let rect_c1 = rect.anchor.column + rect.cols - 1;
    rect_r0 <= range.end.row && rect_r1 >= range.start.row && rect_c0 <= range.end.column && rect_c1
        >= range.start.column
}

/// The SplitMix64 finalizer.
pub open spec fn spec_mix64(z: u64) -> u64 {
    let z1 = z.wrapping_add(0x9E37_79B9_7F4A_7C15);
    let z2 = (z1 ^ (z1 >> 30u64)).wrapping_mul(0xBF58_476D_1CE4_E5B9);
    let z3 = (z2 ^ (z2 >> 27u64)).wrapping_mul(0x94D0_49BB_1331_11EB);
    z3 ^ (z3 >> 31u64)
}

/// SplitMix64 finalizer: a fast, well-distributed integer mix.
pub fn mix64(z: u64) -> (r: u64)
    ensures
        r == spec_mix64(z),
{
    let mut z = z;
    z = z.wrapping_add(0x9E37_79B9_7F4A_7C15);
    z = (z ^ (z >> 30)).wrapping_mul(0xBF58_476D_1CE4_E5B9);
    z = (z ^ (z >> 27)).wrapping_mul(0x94D0_49BB_1331_11EB);
    z ^ (z >> 31)
}

/// The rectangle recorded for anchor `k` in `m` (its first entry), if any.
pub open spec fn rect_for(m: Seq<(CellRef, SpillRect)>, k: CellKey) -> Option<SpillRect>
    decreases m.len(),
{
    if m.len() == 0 {
        None
    } else if m[0].0@ == k {
        Some(m[0].1)
    } else {
        rect_for(m.drop_first(), k)
    }
}

/// `a` is a spilled (non-anchor) cell of `rect`.
pub open spec fn spilled(rect: SpillRect, a: Address) -> bool {
    rect.spec_contains(a) && a != rect.anchor
}

/// Entry `i` of `m` has no identical rectangle in `other`, and cell `c` is
/// one of its spilled cells.
pub open spec fn contributes(m: Seq<(CellRef, SpillRect)>, other: Seq<(CellRef, SpillRect)>, i: int, c: CellKey) -> bool {
    &&& rect_for(other, m[i].0@) != Some(m[i].1)
    &&& m[i].0@.0 == c.0
    &&& spilled(m[i].1, c.1)
}

/// One of the first `n` entries of `m` contributes cell `c`.
pub open spec fn some_contributes(m: Seq<(CellRef, SpillRect)>, other: Seq<(CellRef, SpillRect)>, n: int, c: CellKey) -> bool {
    exists|i: int| 0 <= i < n && #[trigger] contributes(m, other, i, c)
}

/// The rectangle `m` records for anchor `k`.
fn rect_in(m: &[(CellRef, SpillRect)], k: &CellRef) -> (r: Option<SpillRect>)
    ensures
        r == rect_for(m@, k@),
{
    let mut i: usize = 0;
    assert(m@.skip(0) =~= m@);
    while i < m.len()
        invariant
            i <= m@.len(),
            rect_for(m@, k@) == rect_for(m@.skip(i as int), k@),
        decreases m@.len() - i,
    {
        proof {
            assert(m@.skip(i as int)[0] == m@[i as int]);
            assert(m@.skip(i as int).drop_first() =~= m@.skip(i as int + 1));
        }
        if compare_cells(&m[i].0, k) == 0 {
            return Some(m[i].1);
        }
        i = i + 1;
    }
    proof {
        assert(m@.skip(i as int).len() == 0);
    }
    None
}

/// Adds the spilled cells of every entry of `m` whose rectangle `other` does
/// not record identically.
fn add_changed(out: &mut Vec<CellRef>, m: &[(CellRef, SpillRect)], other: &[(CellRef, SpillRect)])
    requires
        strictly_sorted(cell_views(old(out)@)),
        forall|i: int| 0 <= i < m@.len() ==> (#[trigger] m@[i]).1.wf(),
    ensures
        strictly_sorted(cell_views(final(out)@)),
        forall|c: CellKey| #[trigger] cell_views(final(out)@).contains(c) <==> (cell_views(old(out)@).contains(c)
            || some_contributes(m@, other@, m@.len() as int, c)),
{
    let ghost start = cell_views(out@);
    let mut i: usize = 0;
    while i < m.len()
        invariant
            i <= m@.len(),
            forall|t: int| 0 <= t < m@.len() ==> (#[trigger] m@[t]).1.wf(),
            strictly_sorted(cell_views(out@)),
            forall|c: CellKey| #[trigger] cell_views(out@).contains(c) <==> (start.contains(c) || some_contributes(m@, other@, i as int, c)),
        decreases m@.len() - i,
    {
        let anchor = &m[i].0;
        let rect = m[i].1;
        let existing = rect_in(other, anchor);
        let same = match existing {
            Some(r2) => r2 == rect,
            None => false,
        };
        if !same {
            let cells = rect.spilled_cells();
            let ghost mid = cell_views(out@);
            let mut t: usize = 0;
            while t < cells.len()
                invariant
                    i < m@.len(),
                    *anchor == m@[i as int].0,
                    rect == m@[i as int].1,
                    rect_for(other@, anchor@) != Some(rect),
                    t <= cells@.len(),
                    forall|a: Address| cells@.contains(a) <==> spilled(rect, a),
                    strictly_sorted(cell_views(out@)),
                    forall|c: CellKey| #[trigger] cell_views(out@).contains(c) <==> (mid.contains(c) || (c.0 == anchor@.0
                        && cells@.take(t as int).contains(c.1))),
                decreases cells@.len() - t,
            {
                let c = CellRef { sheet: crate::text::string_of(anchor.sheet.as_str()), addr: cells[t] };
                let ghost cv = c@;
                let ghost prev = cell_views(out@);
                insert_sorted(out, c);
                proof {
                    assert(cells@.take(t as int + 1) =~= cells@.take(t as int).push(cells@[t as int]));
                    assert forall|x: CellKey| #[trigger] cell_views(out@).contains(x) <==> (mid.contains(x) || (x.0 == anchor@.0
                        && cells@.take(t as int + 1).contains(x.1))) by {
                        if x == cv {
                            assert(cells@.take(t as int + 1)[t as int] == x.1);
                        }
                        if x.0 == anchor@.0 && cells@.take(t as int + 1).contains(x.1) && x != cv {
                            let k = choose|k: int| 0 <= k < t + 1 && #[trigger] cells@.take(t as int + 1)[k] == x.1;
                            if k == t as int {
                                assert(x == cv);
                            } else {
                                assert(cells@.take(t as int)[k] == x.1);
                            }
                        }
                        if x.0 == anchor@.0 && cells@.take(t as int).contains(x.1) {
                            let k = choose|k: int| 0 <= k < t && #[trigger] cells@.take(t as int)[k] == x.1;
                            assert(cells@.take(t as int + 1)[k] == x.1);
                        }
                    }
                }
                t = t + 1;
            }
            proof {
                assert(cells@.take(cells@.len() as int) =~= cells@);
                assert forall|c: CellKey| #[trigger] cell_views(out@).contains(c) <==> (start.contains(c) || some_contributes(m@, other@, i + 1, c)) by {
                    if some_contributes(m@, other@, i + 1, c) {
                        let j = choose|j: int| 0 <= j < i + 1 && #[trigger] contributes(m@, other@, j, c);
                        if j < i {
                            assert(some_contributes(m@, other@, i as int, c));
                        } else {
                            assert(cells@.contains(c.1));
                        }
                    }
                    if mid.contains(c) {
                    }
                    if c.0 == anchor@.0 && cells@.contains(c.1) {
                        assert(contributes(m@, other@, i as int, c));
                    }
                    if some_contributes(m@, other@, i as int, c) {
                        let j = choose|j: int| 0 <= j < i && #[trigger] contributes(m@, other@, j, c);
                        assert(contributes(m@, other@, j, c));
                    }
                }
            }
        } else {
            proof {
                assert forall|c: CellKey| #[trigger] cell_views(out@).contains(c) <==> (start.contains(c) || some_contributes(m@, other@, i + 1, c)) by {
                    if some_contributes(m@, other@, i + 1, c) {
                        let j = choose|j: int| 0 <= j < i + 1 && #[trigger] contributes(m@, other@, j, c);
                        if j == i as int {
                            assert(rect_for(other@, m@[i as int].0@) == Some(rect));
                        }
                        assert(some_contributes(m@, other@, i as int, c));
                    }
                    if some_contributes(m@, other@, i as int, c) {
                        let j = choose|j: int| 0 <= j < i && #[trigger] contributes(m@, other@, j, c);
                        assert(contributes(m@, other@, j, c));
                    }
                }
            }
        }
        i = i + 1;
    }
}

/// The cells whose spill coverage changed between two anchor → rectangle
/// maps: every spilled cell of a rectangle that appeared, vanished, or
/// changed, in canonical order, each once. The anchors themselves are formula
/// cells with their own edges and are not included.
pub fn changed_rectangle_cells(before: &[(CellRef, SpillRect)], after: &[(CellRef, SpillRect)]) -> (out: Vec<CellRef>)
    requires
        forall|i: int| 0 <= i < before@.len() ==> (#[trigger] before@[i]).1.wf(),
        forall|i: int| 0 <= i < after@.len() ==> (#[trigger] after@[i]).1.wf(),
    ensures
        strictly_sorted(cell_views(out@)),
        forall|c: CellKey| #[trigger] cell_views(out@).contains(c) <==> (some_contributes(before@, after@, before@.len() as int, c)
            || some_contributes(after@, before@, after@.len() as int, c)),
{
    let mut out: Vec<CellRef> = Vec::new();
    proof {
        assert(cell_views(out@) =~= Seq::<CellKey>::empty());
    }
    add_changed(&mut out, before, after);
    add_changed(&mut out, after, before);
    out
}

} // verus!
