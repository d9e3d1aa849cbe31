//! Table-specific validation beyond the name and `ref` rules of named
//! references: range overlap between two tables, and header-row column-name
//! validity.

use vstd::prelude::*;

use crate::address::{parse_a1_seq, parsed_a1, Address};
use crate::casefold::{fold_chars, folded};
use crate::named_ref::{spec_is_valid_name, valid_name_chars, ParsedRef};
use crate::address::a1_text;
use crate::text::{chars_equal, chars_of, debug_quoted, find_char, push_str, spec_debug_quoted, string_of, sub_chars};

verus! {

/// A canonical range's sheet and inclusive row/column bounds, for overlap
/// checking.
#[derive(Debug)]
pub struct ParsedRangeBounds {
    pub sheet: String,
    pub row_start: u32,
    pub row_end: u32,
    pub col_start: u32,
    pub col_end: u32,
}

/// The bounds as values: sheet, first row, last row, first column, last
/// column.
pub type BoundsView = (Seq<char>, u32, u32, u32, u32);

impl View for ParsedRangeBounds {
    type V = BoundsView;

    open spec fn view(&self) -> BoundsView {
        (self.sheet@, self.row_start, self.row_end, self.col_start, self.col_end)
    }
}

/// The position of the last `c` in `s`, or `-1`.
pub open spec fn last_index_of(s: Seq<char>, c: char) -> int
    decreases s.len(),
{
    if s.len() == 0 {
        -1
    } else if s.last() == c {
        s.len() - 1
    } else {
        last_index_of(s.drop_last(), c)
    }
}

/// The position of the first `c` in `s`, or `-1`.
pub open spec fn first_index_of(s: Seq<char>, c: char) -> int
    decreases s.len(),
{
    if s.len() == 0 {
        -1
    } else if s[0] == c {
        0
    } else if first_index_of(s.drop_first(), c) < 0 {
        -1
    } else {
        first_index_of(s.drop_first(), c) + 1
    }
}

proof fn lemma_last_index_of(s: Seq<char>, c: char)
    ensures
        -1 <= last_index_of(s, c) < s.len(),
        last_index_of(s, c) >= 0 ==> s[last_index_of(s, c)] == c,
        forall|j: int| last_index_of(s, c) < j < s.len() ==> s[j] != c,
    decreases s.len(),
{
    if s.len() > 0 && s.last() != c {
        lemma_last_index_of(s.drop_last(), c);
        assert forall|j: int| last_index_of(s, c) < j < s.len() implies s[j] != c by {
            if j < s.len() - 1 {
                assert(s[j] == s.drop_last()[j]);
            }
        }
    }
}

proof fn lemma_first_index_of(s: Seq<char>, c: char)
    ensures
        -1 <= first_index_of(s, c) < s.len(),
        first_index_of(s, c) >= 0 ==> s[first_index_of(s, c)] == c,
        first_index_of(s, c) >= 0 ==> forall|j: int| 0 <= j < first_index_of(s, c) ==> s[j] != c,
        first_index_of(s, c) < 0 ==> forall|j: int| 0 <= j < s.len() ==> s[j] != c,
    decreases s.len(),
{
    if s.len() > 0 && s[0] != c {
        lemma_first_index_of(s.drop_first(), c);
        assert forall|j: int| 1 <= j < s.len() implies s[j] == s.drop_first()[j - 1] by {}
    }
}

/// The A1 part of `r`: what follows its last `!`.
pub open spec fn a1_part(r: Seq<char>) -> Seq<char> {
    r.subrange(last_index_of(r, '!') + 1, r.len() as int)
}

/// `r` names a range (`Sheet!A1:B2`) rather than a single cell: its A1 part
/// holds a `:`.
pub open spec fn spec_is_range_ref(r: Seq<char>) -> bool {
    last_index_of(r, '!') >= 0 && first_index_of(a1_part(r), ':') >= 0
}

/// The bounds of `r` (`Sheet!A1:B2`, or `Sheet!A1` for the one cell): the
/// part after the last `!`, split at its first `:`, each half a valid A1
/// address, or, with no `:`, one valid A1 address that is both corners;
/// `sheet` is the sheet name already parsed out of `r`.
pub open spec fn spec_range_bounds(r: Seq<char>, sheet: Seq<char>) -> Option<BoundsView> {
    let b = last_index_of(r, '!');
    if b < 0 {
        None
    } else {
        let a1 = r.subrange(b + 1, r.len() as int);
        let c = first_index_of(a1, ':');
        if c < 0 {
            match parsed_a1(a1) {
                Some(s) => Some((sheet, s.row, s.row, s.column, s.column)),
                None => None,
            }
        } else {
            match (parsed_a1(a1.take(c)), parsed_a1(a1.subrange(c + 1, a1.len() as int))) {
                (Some(s), Some(e)) => Some((sheet, s.row, e.row, s.column, e.column)),
                _ => None,
            }
        }
    }
}

/// Extracts row/column bounds from an already canonical `ref` and its
/// pre-parsed sheet; a single-cell `ref` gives that cell as both corners.
/// Returns `None` only if `r` is malformed in a way canonical parsing
/// rejects.
pub fn parsed_range_bounds(r: &str, parsed: &ParsedRef) -> (res: Option<ParsedRangeBounds>)
    ensures
        match res {
            Some(b) => spec_range_bounds(r@, parsed.sheet@) == Some(b@),
            None => spec_range_bounds(r@, parsed.sheet@) is None,
        },
{
    let v = chars_of(r);
    let n = v.len();
    proof {
        lemma_last_index_of(v@, '!');
    }
    let mut i: usize = n;
    while i > 0 && v[i - 1] != '!'
        invariant
            i <= n == v@.len(),
            v@ == r@,
            forall|j: int| i <= j < n ==> v@[j] != '!',
            last_index_of(v@, '!') < i,
            -1 <= last_index_of(v@, '!'),
            last_index_of(v@, '!') >= 0 ==> v@[last_index_of(v@, '!')] == '!',
        decreases i,
    {
        i = i - 1;
    }
    if i == 0 {
        return None;
    }
    proof {
        assert(last_index_of(v@, '!') == i - 1);
    }
    let a1 = sub_chars(v.as_slice(), i, n);
    proof {
        lemma_first_index_of(a1@, ':');
    }
    let colon = find_char(a1.as_slice(), ':');
    match colon {
        None => {
            proof {
                if first_index_of(a1@, ':') >= 0 {
                    assert(a1@[first_index_of(a1@, ':')] == ':');
                }
            }
            match parse_a1_seq(a1.as_slice()) {
                Some(s) => Some(
                    ParsedRangeBounds {
                        sheet: string_of(parsed.sheet.as_str()),
                        row_start: s.row,
                        row_end: s.row,
                        col_start: s.column,
                        col_end: s.column,
                    },
                ),
                None => None,
            }
        },
        Some(c) => {
            proof {
                assert(first_index_of(a1@, ':') == c) by {
                    let f = first_index_of(a1@, ':');
                    if f < 0 {
                        assert(a1@[c as int] == ':');
                    } else if f < c {
                        assert(a1@[f] == ':');
                    } else if f > c {
                        assert(a1@[c as int] == ':');
                    }
                }
            }
            let m = a1.len();
            let start_raw = sub_chars(a1.as_slice(), 0, c);
            let end_raw = sub_chars(a1.as_slice(), c + 1, m);
            proof {
                assert(start_raw@ =~= a1@.take(c as int));
            }
            let start = parse_a1_seq(start_raw.as_slice());
            let end = parse_a1_seq(end_raw.as_slice());
            match (start, end) {
                (Some(s), Some(e)) => Some(
                    ParsedRangeBounds {
                        sheet: string_of(parsed.sheet.as_str()),
                        row_start: s.row,
                        row_end: e.row,
                        col_start: s.column,
                        col_end: e.column,
                    },
                ),
                _ => None,
            }
        },
    }
}

/// Whether two bounded ranges overlap: same sheet and intersecting
/// rectangles.
pub open spec fn spec_ranges_overlap(a: BoundsView, b: BoundsView) -> bool {
    &&& a.0 == b.0
    &&& a.1 <= b.2
    &&& b.1 <= a.2
    &&& a.3 <= b.4
    &&& b.3 <= a.4
}

/// Do two table ranges overlap? Different sheets never overlap; on the same
/// sheet, the standard rectangle-intersection test.
pub fn ranges_overlap(a: &ParsedRangeBounds, b: &ParsedRangeBounds) -> (r: bool)
    ensures
        r == spec_ranges_overlap(a@, b@),
{
    let x = chars_of(a.sheet.as_str());
    let y = chars_of(b.sheet.as_str());
    chars_equal(x.as_slice(), y.as_slice()) && a.row_start <= b.row_end && b.row_start <= a.row_end
        && a.col_start <= b.col_end && b.col_start <= a.col_end
}

/// Overlap is symmetric.
pub proof fn law_ranges_overlap_symmetric(a: BoundsView, b: BoundsView)
    ensures
        spec_ranges_overlap(a, b) == spec_ranges_overlap(b, a),
{
}

/// The characters of each string.
pub open spec fn texts(cells: Seq<&str>) -> Seq<Seq<char>> {
    Seq::new(cells.len(), |i: int| cells[i]@)
}

/// The characters of each owned string.
pub open spec fn string_texts(v: Seq<String>) -> Seq<Seq<char>> {
    Seq::new(v.len(), |i: int| v[i]@)
}

/// Header cell `i` is not a valid column name, or folds like an earlier one.
pub open spec fn header_error_at(cells: Seq<Seq<char>>, i: int) -> bool {
    !spec_is_valid_name(cells[i]) || exists|j: int| 0 <= j < i && #[trigger] folded(cells[j]) == folded(cells[i])
}

/// The message for an invalid header cell.
pub open spec fn invalid_header_message(cell: Seq<char>) -> Seq<char> {
    "table header cell "@ + spec_debug_quoted(cell)
        + " is not a valid column name (must match ^[A-Za-z_][A-Za-z0-9_]*$, not an A1 address, not a boolean literal)"@
}

/// The message for a header cell that repeats an earlier column name.
pub open spec fn duplicate_column_message(cell: Seq<char>) -> Seq<char> {
    "duplicate table column name "@ + spec_debug_quoted(cell)
}

/// The message for the failing header cell `i`.
pub open spec fn header_message(cells: Seq<Seq<char>>, i: int) -> Seq<char> {
    if !spec_is_valid_name(cells[i]) {
        invalid_header_message(cells[i])
    } else {
        duplicate_column_message(cells[i])
    }
}

/// Validates a table's header-row cell texts as column names: each must be a
/// valid name (the rule for table and named-range names) and all must be
/// distinct up to simple case folding. Returns the column names in order, or
/// the message for the first cell that fails.
pub fn header_row_columns(header_row_cells: &[&str]) -> (res: Result<Vec<String>, String>)
    ensures
        match res {
            Ok(cols) => string_texts(cols@) == texts(header_row_cells@) && forall|i: int|
                0 <= i < header_row_cells@.len() ==> !header_error_at(texts(header_row_cells@), i),
            Err(m) => exists|i: int|
                0 <= i < header_row_cells@.len() && header_error_at(texts(header_row_cells@), i) && (forall|j: int|
                    0 <= j < i ==> !header_error_at(texts(header_row_cells@), j)) && m@ == header_message(texts(header_row_cells@), i),
        },
{
    let ghost cells = texts(header_row_cells@);
    let mut seen: Vec<Vec<char>> = Vec::new();
    let mut columns: Vec<String> = Vec::new();
    let mut i: usize = 0;
    while i < header_row_cells.len()
        invariant
            cells == texts(header_row_cells@),
            i <= header_row_cells@.len(),
            seen@.len() == i,
            forall|k: int| 0 <= k < i ==> (#[trigger] seen@[k])@ == folded(cells[k]),
            forall|k: int| 0 <= k < i ==> !header_error_at(cells, k),
            string_texts(columns@) == cells.take(i as int),
        decreases header_row_cells@.len() - i,
    {
        let cell = header_row_cells[i];
        let v = chars_of(cell);
        if !valid_name_chars(v.as_slice()) {
            let mut m = String::new();
            push_str(&mut m, "table header cell ");
            let q = debug_quoted(cell);
            push_str(&mut m, q.as_str());
            push_str(
                &mut m,
                " is not a valid column name (must match ^[A-Za-z_][A-Za-z0-9_]*$, not an A1 address, not a boolean literal)",
            );
            proof {
                assert(cells[i as int] == cell@);
                assert(m@ =~= header_message(cells, i as int));
            }
            return Err(m);
        }
        let f = fold_chars(v.as_slice());
        proof {
            assert(cells[i as int] == cell@);
        }
        let mut k: usize = 0;
        while k < seen.len()
            invariant
                cells == texts(header_row_cells@),
                i < header_row_cells@.len(),
                cell@ == cells[i as int],
                seen@.len() == i,
                forall|t: int| 0 <= t < i ==> (#[trigger] seen@[t])@ == folded(cells[t]),
                f@ == folded(cells[i as int]),
                spec_is_valid_name(cells[i as int]),
                forall|t: int| 0 <= t < i ==> !header_error_at(cells, t),
                k <= seen@.len(),
                forall|t: int| 0 <= t < k ==> (#[trigger] seen@[t])@ != f@,
            decreases seen@.len() - k,
        {
            if chars_equal(seen[k].as_slice(), f.as_slice()) {
                let mut m = String::new();
                push_str(&mut m, "duplicate table column name ");
                let q = debug_quoted(cell);
                push_str(&mut m, q.as_str());
                proof {
                    assert(cells[i as int] == cell@);
                    assert(folded(cells[k as int]) == folded(cells[i as int]));
                    assert(header_error_at(cells, i as int));
                    assert(m@ =~= header_message(cells, i as int));
                }
                return Err(m);
            }
            k = k + 1;
        }
        proof {
            assert(cells[i as int] == cell@);
            assert(!header_error_at(cells, i as int)) by {
                if exists|j: int| 0 <= j < i && #[trigger] folded(cells[j]) == folded(cells[i as int]) {
                    let j = choose|j: int| 0 <= j < i && #[trigger] folded(cells[j]) == folded(cells[i as int]);
                    assert(seen@[j]@ == f@);
                }
            }
        }
        seen.push(f);
        let c = string_of(cell);
        let ghost before = columns@;
        columns.push(c);
        proof {
            assert(columns@ == before.push(c));
            assert(string_texts(before).len() == i);
            assert(string_texts(columns@) =~= cells.take(i as int + 1));
        }
        i = i + 1;
    }
    proof {
        assert(cells.take(i as int) =~= cells);
    }
    Ok(columns)
}

/// The position of the last `c` in `v`, if any.
pub fn last_position(v: &[char], c: char) -> (r: Option<usize>)
    ensures
        match r {
            Some(i) => i == last_index_of(v@, c) && i < v@.len(),
            None => last_index_of(v@, c) < 0,
        },
{
    proof {
        lemma_last_index_of(v@, c);
    }
    let n = v.len();
    let mut i: usize = n;
    while i > 0 && v[i - 1] != c
        invariant
            i <= n == v@.len(),
            forall|j: int| i <= j < n ==> v@[j] != c,
            last_index_of(v@, c) < i,
            -1 <= last_index_of(v@, c),
            last_index_of(v@, c) >= 0 ==> v@[last_index_of(v@, c)] == c,
        decreases i,
    {
        i = i - 1;
    }
    if i == 0 {
        None
    } else {
        Some(i - 1)
    }
}

/// The position of the first `c` in `v`, if any.
pub fn first_position(v: &[char], c: char) -> (r: Option<usize>)
    ensures
        match r {
            Some(i) => i == first_index_of(v@, c) && i < v@.len(),
            None => first_index_of(v@, c) < 0,
        },
{
    proof {
        lemma_first_index_of(v@, c);
    }
    let r = find_char(v, c);
    proof {
        match r {
            Some(p) => {
                let f = first_index_of(v@, c);
                if f < 0 {
                    assert(v@[p as int] == c);
                } else if f < p {
                    assert(v@[f] == c);
                } else if f > p {
                    assert(v@[p as int] == c);
                }
            },
            None => {
                if first_index_of(v@, c) >= 0 {
                    assert(v@[first_index_of(v@, c)] == c);
                }
            },
        }
    }
    r
}

/// Bounds read from a reference lie inside the grid.
pub proof fn lemma_range_bounds_in_grid(r: Seq<char>, sheet: Seq<char>)
    requires
        spec_range_bounds(r, sheet) is Some,
    ensures
        ({
            let b = spec_range_bounds(r, sheet)->0;
            crate::address::in_bounds(b.1 as int, b.3 as int) && crate::address::in_bounds(b.2 as int, b.4 as int)
        }),
{
    let bang = last_index_of(r, '!');
    let a1 = r.subrange(bang + 1, r.len() as int);
    let c = first_index_of(a1, ':');
    if c < 0 {
        assert(exists|a: Address| a.wf() && crate::address::a1_text(a) == a1);
    } else {
        let x = a1.take(c);
        let y = a1.subrange(c + 1, a1.len() as int);
        assert(exists|a: Address| a.wf() && crate::address::a1_text(a) == x);
        assert(exists|a: Address| a.wf() && crate::address::a1_text(a) == y);
    }
}

/// Whether `r` names a range rather than a single cell (its A1 part, after
/// the last `!`, holds a `:`).
pub fn is_range_ref(r: &str) -> (b: bool)
    ensures
        b == spec_is_range_ref(r@),
{
    let v = chars_of(r);
    match last_position(v.as_slice(), '!') {
        None => false,
        Some(i) => {
            let n = v.len();
            let part = sub_chars(v.as_slice(), i + 1, n);
            proof {
                assert(part@ =~= a1_part(r@));
            }
            first_position(part.as_slice(), ':').is_some()
        },
    }
}


/// The characters of an in-bounds A1 key are letters and digits.
proof fn lemma_a1_chars(a: Address)
    requires
        a.wf(),
    ensures
        forall|j: int| 0 <= j < a1_text(a).len() ==> a1_text(a)[j] != '!' && a1_text(a)[j] != ':',
{
    crate::address::lemma_a1_shape(a);
    let l = crate::address::column_letters(a.column as nat);
    let d = crate::text::decimal_digits(a.row as nat);
    assert forall|j: int| 0 <= j < a1_text(a).len() implies a1_text(a)[j] != '!' && a1_text(a)[j] != ':' by {
        if j < l.len() {
            assert(a1_text(a)[j] == l[j]);
            assert(crate::address::is_upper(l[j]));
        } else {
            assert(a1_text(a)[j] == d[j - l.len()]);
            assert(crate::text::is_digit(d[j - l.len()]));
        }
    }
}

/// The range `ref` written from two in-bounds corners reads back as those
/// corners.
pub proof fn lemma_range_text_bounds(sheet: Seq<char>, a: Address, b: Address)
    requires
        a.wf(),
        b.wf(),
    ensures
        spec_range_bounds(
            crate::named_ref::spec_quote_sheet(sheet) + seq!['!'] + a1_text(a) + seq![':'] + a1_text(b),
            sheet,
        ) == Some((sheet, a.row, b.row, a.column, b.column)),
{
    let q = crate::named_ref::spec_quote_sheet(sheet);
    let part = a1_text(a) + seq![':'] + a1_text(b);
    let r = q + seq!['!'] + part;
    assert(r =~= q + seq!['!'] + a1_text(a) + seq![':'] + a1_text(b));
    lemma_a1_chars(a);
    lemma_a1_chars(b);
    assert forall|j: int| 0 <= j < part.len() implies part[j] != '!' by {
        if j < a1_text(a).len() {
            assert(part[j] == a1_text(a)[j]);
        } else if j > a1_text(a).len() {
            assert(part[j] == a1_text(b)[j - a1_text(a).len() - 1]);
        }
    }
    lemma_last_index_of(r, '!');
    let bang = last_index_of(r, '!');
    assert(r[q.len() as int] == '!');
    if bang != q.len() {
        if bang < q.len() {
            assert(r[q.len() as int] != '!');
        } else {
            assert(r[bang] == part[bang - q.len() - 1]);
        }
    }
    let a1 = r.subrange(bang + 1, r.len() as int);
    assert(a1 =~= part);
    lemma_first_index_of(part, ':');
    let c = first_index_of(part, ':');
    let n = a1_text(a).len() as int;
    assert(part[n] == ':');
    if c != n {
        if c < 0 {
        } else if c < n {
            assert(part[c] == a1_text(a)[c]);
        }
    }
    assert(part.take(n) =~= a1_text(a));
    assert(part.subrange(n + 1, part.len() as int) =~= a1_text(b));
    crate::address::law_a1_parse_after_render(a);
    crate::address::law_a1_parse_after_render(b);
}


/// The single-cell `ref` of an in-bounds cell reads back as that cell for
/// both corners, and is no range.
pub proof fn lemma_cell_text_bounds(sheet: Seq<char>, a: Address)
    requires
        a.wf(),
    ensures
        spec_range_bounds(crate::named_ref::spec_quote_sheet(sheet) + seq!['!'] + a1_text(a), sheet) == Some(
            (sheet, a.row, a.row, a.column, a.column),
        ),
        !spec_is_range_ref(crate::named_ref::spec_quote_sheet(sheet) + seq!['!'] + a1_text(a)),
{
    let q = crate::named_ref::spec_quote_sheet(sheet);
    let part = a1_text(a);
    let r = q + seq!['!'] + part;
    lemma_a1_chars(a);
    lemma_last_index_of(r, '!');
    let bang = last_index_of(r, '!');
    assert(r[q.len() as int] == '!');
    if bang != q.len() {
        if bang < q.len() {
            assert(r[q.len() as int] != '!');
        } else {
            assert(r[bang] == part[bang - q.len() - 1]);
        }
    }
    let a1 = r.subrange(bang + 1, r.len() as int);
    assert(a1 =~= part);
    lemma_first_index_of(part, ':');
    if first_index_of(part, ':') >= 0 {
        assert(part[first_index_of(part, ':')] == ':');
    }
    crate::address::law_a1_parse_after_render(a);
}

} // verus!
