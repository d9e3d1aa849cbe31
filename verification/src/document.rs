//! Document-level validation of a parsed workbook file: the rules that span
//! fields and that a typed deserializer cannot express. Sheet names (count,
//! length, uniqueness under simple case folding), cell keys, per-value
//! resource limits, spill rectangles, the populated-cell limit, and named
//! ranges (name shape, canonical `ref`, existing target sheet, uniqueness).
//! The first violation is reported.

use vstd::prelude::*;

use crate::address::{parse_a1, parsed_a1, Address};
use crate::casefold::{folded, simple_fold};
use crate::json::{array_at, get, get_array, get_object, get_text, lookup, object_at, text_at, Json};
use crate::limits::{
    MAX_ARRAY_ELEMENTS, MAX_CELLS_PER_WORKBOOK, MAX_FORMULA_LEN, MAX_NAMED_RANGES, MAX_SHEETS,
    MAX_SHEET_NAME_LEN, MAX_TEXT_LEN,
};
use crate::named_ref::{is_valid_name, parse_canonical_ref, ref_error, spec_canonical_ref, spec_is_valid_name};
use crate::text::{
    debug_quoted, decimal_digits, decimal_string, decimal_string_wide, push_str, spec_debug_quoted,
    str_equal, string_of,
};
use crate::validate::{
    anchor_fails, anchors_overlap, long_sheet_name_message, spill_error, validate_spill_rectangles,
    Anchor,
};
use vstd::string::StringSliceAdditionalSpecFns;
use vstd::utf8::encode_utf8;

verus! {

// ---------------------------------------------------------------------------
// Failures and their messages
// ---------------------------------------------------------------------------

/// The first rule a document breaks.
pub enum DocFail {
    /// A rule whose message is fixed by the failure.
    Message(Seq<char>),
    /// The spill rules of one sheet (authored cells, anchors, sheet name).
    Spill(Seq<Address>, Seq<Anchor>, Seq<char>),
}

/// `m` is a message reporting failure `f`.
pub open spec fn fail_message(f: DocFail, m: Seq<char>) -> bool {
    match f {
        DocFail::Message(x) => m == x,
        DocFail::Spill(authored, anchors, sheet) => spill_error(authored, anchors, sheet, m),
    }
}

/// `s` rendered with `Debug` quoting.
pub open spec fn dq(s: Seq<char>) -> Seq<char> {
    spec_debug_quoted(s)
}

/// `n` in decimal.
pub open spec fn dec(n: int) -> Seq<char> {
    decimal_digits(n as nat)
}

pub open spec fn too_many_sheets_message(n: int) -> Seq<char> {
    "workbook has "@ + dec(n) + " sheets, exceeding the limit of "@ + dec(MAX_SHEETS as int)
        + " (scope ADR Decision 5)"@
}

pub open spec fn duplicate_sheet_message(name: Seq<char>, prev: Seq<char>) -> Seq<char> {
    "duplicate sheet name: "@ + dq(name) + " collides with "@ + dq(prev)
        + " under simple case folding (schema spec \u{a7}2)"@
}

pub open spec fn too_many_cells_message(n: int) -> Seq<char> {
    "workbook has "@ + dec(n) + " populated cells, exceeding the limit of "@ + dec(
        MAX_CELLS_PER_WORKBOOK as int,
    ) + " (scope ADR Decision 5)"@
}

pub open spec fn cells_not_object_message(sheet: Seq<char>) -> Seq<char> {
    "worksheet "@ + dq(sheet) + " \"cells\" must be an object"@
}

pub open spec fn invalid_key_message(key: Seq<char>, sheet: Seq<char>) -> Seq<char> {
    "invalid cell address "@ + dq(key) + " in sheet "@ + dq(sheet)
        + ": keys must match ^[A-Z]{1,3}[1-9][0-9]{0,7}$ and lie within the address bounds (schema spec \u{a7}3)"@
}

pub open spec fn cell_not_object_message(key: Seq<char>, sheet: Seq<char>) -> Seq<char> {
    "cell "@ + dq(key) + " in sheet "@ + dq(sheet) + " must be an object"@
}

pub open spec fn long_formula_message(key: Seq<char>, sheet: Seq<char>, len: int) -> Seq<char> {
    "formula in cell "@ + dq(key) + " of sheet "@ + dq(sheet) + " is "@ + dec(len)
        + " bytes, exceeding the limit of "@ + dec(MAX_FORMULA_LEN as int) + " (scope ADR Decision 5)"@
}

pub open spec fn long_text_message(key: Seq<char>, sheet: Seq<char>, len: int) -> Seq<char> {
    "text value in cell "@ + dq(key) + " of sheet "@ + dq(sheet) + " has "@ + dec(len)
        + " scalar values, exceeding the limit of "@ + dec(MAX_TEXT_LEN as int) + " (scope ADR Decision 5)"@
}

pub open spec fn large_array_message(key: Seq<char>, sheet: Seq<char>, elems: int) -> Seq<char> {
    "array value in cell "@ + dq(key) + " of sheet "@ + dq(sheet) + " has "@ + dec(elems)
        + " elements, exceeding the limit of "@ + dec(MAX_ARRAY_ELEMENTS as int) + " (scope ADR Decision 5)"@
}

pub open spec fn too_many_names_message(n: int) -> Seq<char> {
    "workbook has "@ + dec(n) + " named ranges, exceeding the limit of "@ + dec(
        MAX_NAMED_RANGES as int,
    ) + " (scope ADR Decision 5)"@
}

pub open spec fn invalid_name_message(name: Seq<char>) -> Seq<char> {
    "named-range name "@ + dq(name)
        + " is invalid: it must match ^[A-Za-z_][A-Za-z0-9_]*$ and must not be an A1 address, an R1C1-style reference, or a boolean literal (schema spec \u{a7}7)"@
}

pub open spec fn dangling_ref_message(name: Seq<char>, sheet: Seq<char>) -> Seq<char> {
    "named range "@ + dq(name) + " refers to sheet "@ + dq(sheet) + ", which does not exist (schema spec \u{a7}7)"@
}

pub open spec fn duplicate_name_message(name: Seq<char>, prev: Seq<char>) -> Seq<char> {
    "duplicate named range: "@ + dq(name) + " collides with "@ + dq(prev)
        + " under simple case folding (schema spec \u{a7}7)"@
}

/// `a + dq(x) + b` as a string.
pub(crate) fn quoted_one(a: &str, x: &str, b: &str) -> (m: String)
    ensures
        m@ == a@ + dq(x@) + b@,
{
    let mut m = string_of(a);
    push_str(&mut m, debug_quoted(x).as_str());
    push_str(&mut m, b);
    m
}

/// `a + dq(x) + b + dq(y) + c` as a string.
pub(crate) fn quoted_pair(a: &str, x: &str, b: &str, y: &str, c: &str) -> (m: String)
    ensures
        m@ == a@ + dq(x@) + b@ + dq(y@) + c@,
{
    let mut m = string_of(a);
    push_str(&mut m, debug_quoted(x).as_str());
    push_str(&mut m, b);
    push_str(&mut m, debug_quoted(y).as_str());
    push_str(&mut m, c);
    m
}

/// `a + dq(x) + b + dq(y) + c + dec(n) + d + dec(limit) + e` as a string.
fn quoted_pair_counted(
    a: &str,
    x: &str,
    b: &str,
    y: &str,
    c: &str,
    n: u128,
    d: &str,
    limit: u128,
    e: &str,
) -> (m: String)
    ensures
        m@ == a@ + dq(x@) + b@ + dq(y@) + c@ + dec(n as int) + d@ + dec(limit as int) + e@,
{
    let mut m = quoted_pair(a, x, b, y, c);
    push_str(&mut m, decimal_string_wide(n).as_str());
    push_str(&mut m, d);
    push_str(&mut m, decimal_string_wide(limit).as_str());
    push_str(&mut m, e);
    m
}

/// `a + dec(n) + b` as a string.
pub(crate) fn numbered(a: &str, n: u128, b: &str) -> (m: String)
    ensures
        m@ == a@ + dec(n as int) + b@,
{
    let mut m = string_of(a);
    push_str(&mut m, decimal_string_wide(n).as_str());
    push_str(&mut m, b);
    m
}

/// `a + dec(n) + b + dec(limit) + c` as a string.
pub(crate) fn counted(a: &str, n: u128, b: &str, limit: u128, c: &str) -> (m: String)
    ensures
        m@ == a@ + dec(n as int) + b@ + dec(limit as int) + c@,
{
    let mut m = string_of(a);
    push_str(&mut m, decimal_string_wide(n).as_str());
    push_str(&mut m, b);
    push_str(&mut m, decimal_string_wide(limit).as_str());
    push_str(&mut m, c);
    m
}

// ---------------------------------------------------------------------------
// Cell values
// ---------------------------------------------------------------------------

/// The `(rows, columns)` of an `array` cell value: the number of rows, and
/// the length of the first row (0 when there is none or it is not an array).
pub open spec fn spec_array_dims(value: Json) -> Option<(int, int)> {
    match value {
        Json::Object(o) => if text_at(o@, "type"@) == Some("array"@) {
            match lookup(o@, "value"@) {
                Some(Json::Array(rows)) => Some(
                    (
                        rows.len() as int,
                        if rows.len() == 0 {
                            0int
                        } else {
                            match rows@[0] {
                                Json::Array(first) => first.len() as int,
                                _ => 0int,
                            }
                        },
                    ),
                ),
                _ => None,
            }
        } else {
            None
        },
        _ => None,
    }
}

/// The dimensions of an `array` cell value, `None` for any other value.
pub fn array_dims(value: &Json) -> (r: Option<(usize, usize)>)
    ensures
        match r {
            Some((rows, cols)) => spec_array_dims(*value) == Some((rows as int, cols as int)),
            None => spec_array_dims(*value) is None,
        },
{
    let obj = match value {
        Json::Object(o) => o,
        _ => return None,
    };
    let is_array = match get_text(obj, "type") {
        Some(t) => str_equal(t.as_str(), "array"),
        None => false,
    };
    if !is_array {
        return None;
    }
    let rows = match get(obj, "value") {
        Some(Json::Array(rows)) => rows,
        _ => return None,
    };
    let r = rows.len();
    let c = if r == 0 {
        0
    } else {
        match &rows[0] {
            Json::Array(first) => first.len(),
            _ => 0,
        }
    };
    Some((r, c))
}

/// The resource-limit violation of one cell value, if any: a text value
/// over [`MAX_TEXT_LEN`] scalar values, or an array value over
/// [`MAX_ARRAY_ELEMENTS`] elements. Other shapes pass (they are the typed
/// layer's concern).
pub open spec fn value_limit_error(value: Json, key: Seq<char>, sheet: Seq<char>) -> Option<Seq<char>> {
    match value {
        Json::Object(o) => if text_at(o@, "type"@) == Some("text"@) {
            match text_at(o@, "value"@) {
                Some(s) => if s.len() > MAX_TEXT_LEN {
                    Some(long_text_message(key, sheet, s.len() as int))
                } else {
                    None
                },
                None => None,
            }
        } else if text_at(o@, "type"@) == Some("array"@) {
            match spec_array_dims(value) {
                Some((rows, cols)) => if rows * cols > MAX_ARRAY_ELEMENTS {
                    Some(large_array_message(key, sheet, rows * cols))
                } else {
                    None
                },
                None => None,
            }
        } else {
            None
        },
        _ => None,
    }
}

/// Checks one cell value against the per-value resource limits.
pub fn validate_value_limits(value: &Json, key: &str, sheet: &str) -> (r: Result<(), String>)
    ensures
        match r {
            Ok(()) => value_limit_error(*value, key@, sheet@) is None,
            Err(m) => value_limit_error(*value, key@, sheet@) == Some(m@),
        },
{
    let obj = match value {
        Json::Object(o) => o,
        _ => return Ok(()),
    };
    let ty = match get_text(obj, "type") {
        Some(t) => t,
        None => return Ok(()),
    };
    if str_equal(ty.as_str(), "text") {
        if let Some(s) = get_text(obj, "value") {
            let len = crate::text::chars_of(s.as_str()).len();
            if len > MAX_TEXT_LEN {
                return Err(
                    quoted_pair_counted(
                        "text value in cell ",
                        key,
                        " of sheet ",
                        sheet,
                        " has ",
                        len as u128,
                        " scalar values, exceeding the limit of ",
                        MAX_TEXT_LEN as u128,
                        " (scope ADR Decision 5)",
                    ),
                );
            }
        }
    } else if str_equal(ty.as_str(), "array") {
        if let Some((rows, cols)) = array_dims(value) {
            let r128 = rows as u128;
            let c128 = cols as u128;
            assert(r128 * c128 <= u128::MAX) by (nonlinear_arith)
                requires
                    r128 <= u64::MAX,
                    c128 <= u64::MAX,
            ;
            let elems: u128 = r128 * c128;
            if elems > MAX_ARRAY_ELEMENTS as u128 {
                return Err(
                    quoted_pair_counted(
                        "array value in cell ",
                        key,
                        " of sheet ",
                        sheet,
                        " has ",
                        elems,
                        " elements, exceeding the limit of ",
                        MAX_ARRAY_ELEMENTS as u128,
                        " (scope ADR Decision 5)",
                    ),
                );
            }
        }
    }
    Ok(())
}


// ---------------------------------------------------------------------------
// One sheet's cells
// ---------------------------------------------------------------------------

/// The UTF-8 length of a cell's formula (0 when it has none), as `str::len`
/// reports it.
pub open spec fn formula_len(cell: Seq<(String, Json)>) -> int {
    match text_at(cell, "formula"@) {
        Some(f) => (encode_utf8(f).len() as usize) as int,
        None => 0,
    }
}

/// One cell entry `key: cell` of a sheet, after the earlier entries gave
/// authored addresses `au` and spill anchors `an`: the extended lists, or the
/// first rule the entry breaks.
pub open spec fn cell_step(
    au: Seq<Address>,
    an: Seq<Anchor>,
    key: Seq<char>,
    cell: Json,
    sheet: Seq<char>,
) -> Result<(Seq<Address>, Seq<Anchor>), Seq<char>> {
    match parsed_a1(key) {
        None => Err(invalid_key_message(key, sheet)),
        Some(addr) => match cell {
            Json::Object(co) => if formula_len(co@) > MAX_FORMULA_LEN {
                Err(long_formula_message(key, sheet, formula_len(co@)))
            } else {
                match lookup(co@, "value"@) {
                    None => Ok((au.push(addr), an)),
                    Some(v) => match value_limit_error(v, key, sheet) {
                        Some(m) => Err(m),
                        None => Ok(
                            (
                                au.push(addr),
                                match spec_array_dims(v) {
                                    Some((rows, cols)) => an.push((addr, rows as usize, cols as usize)),
                                    None => an,
                                },
                            ),
                        ),
                    },
                }
            },
            _ => Err(cell_not_object_message(key, sheet)),
        },
    }
}

/// The cell entries of a sheet, read in order: every authored address and
/// every spill anchor, or the first rule an entry breaks.
pub open spec fn scan_cells(cells: Seq<(String, Json)>, sheet: Seq<char>) -> Result<
    (Seq<Address>, Seq<Anchor>),
    Seq<char>,
>
    decreases cells.len(),
{
    if cells.len() == 0 {
        Ok((Seq::empty(), Seq::empty()))
    } else {
        match scan_cells(cells.drop_last(), sheet) {
            Err(m) => Err(m),
            Ok((au, an)) => cell_step(au, an, cells.last().0@, cells.last().1, sheet),
        }
    }
}

/// No spill rule of a sheet is broken.
pub open spec fn spill_ok(au: Seq<Address>, an: Seq<Anchor>) -> bool {
    &&& forall|k: int| 0 <= k < an.len() ==> !anchor_fails(au, #[trigger] an[k])
    &&& forall|i: int, j: int| 0 <= i < j < an.len() ==> !#[trigger] anchors_overlap(an, i, j)
}

/// How many populated cells authored cell `a` stands for: an anchor counts
/// its whole rectangle (the first anchor at `a`), any other cell counts 1.
pub open spec fn cell_weight(anchors: Seq<Anchor>, a: Address) -> int
    decreases anchors.len(),
{
    if anchors.len() == 0 {
        1
    } else if anchors[0].0 == a {
        anchors[0].1 * anchors[0].2
    } else {
        cell_weight(anchors.drop_first(), a)
    }
}

/// The populated-cell count of a sheet.
pub open spec fn populated_count(authored: Seq<Address>, anchors: Seq<Anchor>) -> int
    decreases authored.len(),
{
    if authored.len() == 0 {
        0
    } else {
        populated_count(authored.drop_last(), anchors) + cell_weight(anchors, authored.last())
    }
}

/// A sheet object's cells: its populated-cell count, or its first failure.
pub open spec fn sheet_cells_result(sheet_obj: Seq<(String, Json)>, name: Seq<char>) -> Result<int, DocFail> {
    match object_at(sheet_obj, "cells"@) {
        None => Err(DocFail::Message(cells_not_object_message(name))),
        Some(cells) => match scan_cells(cells, name) {
            Err(m) => Err(DocFail::Message(m)),
            Ok((au, an)) => if spill_ok(au, an) {
                Ok(populated_count(au, an))
            } else {
                Err(DocFail::Spill(au, an, name))
            },
        },
    }
}

/// Every anchor's rectangle has at most [`MAX_ARRAY_ELEMENTS`] cells.
pub open spec fn anchors_bounded(an: Seq<Anchor>) -> bool {
    forall|k: int| 0 <= k < an.len() ==> (#[trigger] an[k]).1 * an[k].2 <= MAX_ARRAY_ELEMENTS && an[k].0.wf()
}

/// The weight of authored cell `a`.
fn weight_of(anchors: &Vec<Anchor>, a: &Address) -> (w: u128)
    requires
        anchors_bounded(anchors@),
    ensures
        w == cell_weight(anchors@, *a),
        1 <= w <= MAX_ARRAY_ELEMENTS || w == 0,
{
    let mut i: usize = 0;
    proof {
        assert(anchors@.skip(0) =~= anchors@);
    }
    while i < anchors.len()
        invariant
            i <= anchors@.len(),
            anchors_bounded(anchors@),
            cell_weight(anchors@, *a) == cell_weight(anchors@.skip(i as int), *a),
        decreases anchors@.len() - i,
    {
        proof {
            assert(anchors@.skip(i as int)[0] == anchors@[i as int]);
            assert(anchors@.skip(i as int).drop_first() =~= anchors@.skip(i as int + 1));
        }
        if anchors[i].0 == *a {
            let r = anchors[i].1 as u128;
            let c = anchors[i].2 as u128;
            proof {
                assert(anchors@[i as int].1 * anchors@[i as int].2 <= MAX_ARRAY_ELEMENTS);
            }
            assert(r * c <= MAX_ARRAY_ELEMENTS);
            return r * c;
        }
        i = i + 1;
    }
    1
}

/// Checks one sheet object's cells: each key a valid in-bounds A1 address,
/// each cell an object, the formula and value limits, and the spill rules.
/// Returns the sheet's populated-cell count: an anchor counts its whole
/// rectangle, any other authored cell counts 1.
pub fn validate_sheet_cells(sheet_obj: &Vec<(String, Json)>, name: &str) -> (r: Result<u128, String>)
    ensures
        match r {
            Ok(count) => sheet_cells_result(sheet_obj@, name@) == Ok::<int, DocFail>(count as int)
                && count <= u64::MAX * MAX_ARRAY_ELEMENTS,
            Err(m) => match sheet_cells_result(sheet_obj@, name@) {
                Err(f) => fail_message(f, m@),
                Ok(_) => false,
            },
        },
{
    let cells = match get_object(sheet_obj, "cells") {
        Some(c) => c,
        None => return Err(quoted_one("worksheet ", name, " \"cells\" must be an object")),
    };
    let mut authored: Vec<Address> = Vec::new();
    let mut anchors: Vec<Anchor> = Vec::new();
    let mut i: usize = 0;
    proof {
        assert(cells@.take(0) =~= Seq::<(String, Json)>::empty());
    }
    while i < cells.len()
        invariant
            i <= cells@.len(),
            object_at(sheet_obj@, "cells"@) == Some(cells@),
            scan_cells(cells@.take(i as int), name@) == Ok::<(Seq<Address>, Seq<Anchor>), Seq<char>>(
                (authored@, anchors@),
            ),
            anchors_bounded(anchors@),
            authored@.len() <= i,
        decreases cells@.len() - i,
    {
        let key = &cells[i].0;
        let cell = &cells[i].1;
        proof {
            assert(cells@.take(i as int + 1).drop_last() =~= cells@.take(i as int));
            assert(cells@.take(i as int + 1).last() == cells@[i as int]);
        }
        let addr = match parse_a1(key.as_str()) {
            Some(a) => a,
            None => {
                proof {
                    lemma_scan_cells_err(cells@, name@, i as int + 1);
                }
                return Err(
                    quoted_pair(
                        "invalid cell address ",
                        key.as_str(),
                        " in sheet ",
                        name,
                        ": keys must match ^[A-Z]{1,3}[1-9][0-9]{0,7}$ and lie within the address bounds (schema spec \u{a7}3)",
                    ),
                );
            },
        };
        proof {
            crate::address::law_a1_render_after_parse(key@);
        }
        let co = match cell {
            Json::Object(co) => co,
            _ => {
                proof {
                    lemma_scan_cells_err(cells@, name@, i as int + 1);
                }
                return Err(quoted_pair("cell ", key.as_str(), " in sheet ", name, " must be an object"));
            },
        };
        if let Some(f) = get_text(co, "formula") {
            let flen = f.as_str().len();
            if flen > MAX_FORMULA_LEN {
                proof {
                    lemma_scan_cells_err(cells@, name@, i as int + 1);
                }
                return Err(
                    quoted_pair_counted(
                        "formula in cell ",
                        key.as_str(),
                        " of sheet ",
                        name,
                        " is ",
                        flen as u128,
                        " bytes, exceeding the limit of ",
                        MAX_FORMULA_LEN as u128,
                        " (scope ADR Decision 5)",
                    ),
                );
            }
        }
        match get(co, "value") {
            Some(v) => {
                match validate_value_limits(v, key.as_str(), name) {
                    Ok(()) => {},
                    Err(m) => {
                        proof {
                            lemma_scan_cells_err(cells@, name@, i as int + 1);
                        }
                        return Err(m);
                    },
                }
                if let Some((rows, cols)) = array_dims(v) {
                    proof {
                        lemma_array_is_not_text();
                    }
                    anchors.push((addr, rows, cols));
                }
            },
            None => {},
        }
        authored.push(addr);
        i = i + 1;
    }
    proof {
        assert(cells@.take(i as int) =~= cells@);
    }
    match validate_spill_rectangles(authored.as_slice(), anchors.as_slice(), name) {
        Ok(()) => {},
        Err(m) => {
            proof {
                lemma_spill_error_not_ok(authored@, anchors@, name@, m@);
            }
            return Err(m);
        },
    }
    let mut count: u128 = 0;
    let mut t: usize = 0;
    while t < authored.len()
        invariant
            t <= authored@.len(),
            anchors_bounded(anchors@),
            count == populated_count(authored@.take(t as int), anchors@),
            count <= t * MAX_ARRAY_ELEMENTS,
        decreases authored@.len() - t,
    {
        let w = weight_of(&anchors, &authored[t]);
        proof {
            assert(authored@.take(t as int + 1).drop_last() =~= authored@.take(t as int));
            assert(authored@.take(t as int + 1).last() == authored@[t as int]);
            assert(t * MAX_ARRAY_ELEMENTS <= u64::MAX * MAX_ARRAY_ELEMENTS) by (nonlinear_arith)
                requires
                    t <= u64::MAX,
            ;
        }
        count = count + w;
        t = t + 1;
    }
    proof {
        assert(authored@.take(t as int) =~= authored@);
        assert(t * MAX_ARRAY_ELEMENTS <= u64::MAX * MAX_ARRAY_ELEMENTS) by (nonlinear_arith)
            requires
                t <= u64::MAX,
        ;
    }
    Ok(count)
}

/// A failure in a prefix of the cell entries is the failure of the whole.
proof fn lemma_scan_cells_err(cells: Seq<(String, Json)>, sheet: Seq<char>, n: int)
    requires
        0 <= n <= cells.len(),
        scan_cells(cells.take(n), sheet) is Err,
    ensures
        scan_cells(cells, sheet) == scan_cells(cells.take(n), sheet),
    decreases cells.len() - n,
{
    if n < cells.len() {
        assert(cells.take(n + 1).drop_last() =~= cells.take(n));
        lemma_scan_cells_err(cells, sheet, n + 1);
    } else {
        assert(cells.take(n) =~= cells);
    }
}

/// The two value types that carry limits are told apart.
proof fn lemma_array_is_not_text()
    ensures
        "array"@ != "text"@,
{
    reveal_strlit("array");
    reveal_strlit("text");
    assert("array"@[0] != "text"@[0]);
}

/// A spill error is a broken spill rule.
proof fn lemma_spill_error_not_ok(au: Seq<Address>, an: Seq<Anchor>, sheet: Seq<char>, m: Seq<char>)
    requires
        spill_error(au, an, sheet, m),
    ensures
        !spill_ok(au, an),
{
    if exists|k: int| crate::validate::first_failing_anchor(au, an, k) {
        let k = choose|k: int| crate::validate::first_failing_anchor(au, an, k);
        assert(anchor_fails(au, an[k]));
    } else {
        let (i, j) = choose|i: int, j: int|
            crate::validate::first_overlap(an, i, j) && m == crate::validate::overlap_message(an[i], an[j], sheet);
        assert(anchors_overlap(an, i, j));
    }
}


// ---------------------------------------------------------------------------
// Sheets, named ranges, the document
// ---------------------------------------------------------------------------

/// The texts of a list of strings.
pub open spec fn texts(v: Seq<String>) -> Seq<Seq<char>> {
    Seq::new(v.len(), |j: int| v[j]@)
}

/// The simple case folds of a list of names.
pub open spec fn folds(names: Seq<Seq<char>>) -> Seq<Seq<char>> {
    Seq::new(names.len(), |j: int| folded(names[j]))
}

/// The index of the first name whose simple case fold is `f`, or `-1`.
pub open spec fn first_fold_match(names: Seq<Seq<char>>, f: Seq<char>) -> int
    decreases names.len(),
{
    if names.len() == 0 {
        -1
    } else if folded(names[0]) == f {
        0
    } else {
        let r = first_fold_match(names.drop_first(), f);
        if r < 0 {
            -1
        } else {
            r + 1
        }
    }
}

/// One sheet of the `sheets` array, after the sheets named `names`: its name
/// and populated-cell count, or its first failure.
pub open spec fn sheet_step(names: Seq<Seq<char>>, sheet: Json) -> Result<(Seq<char>, int), DocFail> {
    match sheet {
        Json::Object(so) => match text_at(so@, "name"@) {
            None => Err(DocFail::Message("each worksheet requires a string \"name\""@)),
            Some(name) => if name.len() == 0 {
                Err(DocFail::Message("a worksheet name must be non-empty (schema spec \u{a7}3)"@))
            } else if name.len() > MAX_SHEET_NAME_LEN {
                Err(DocFail::Message(long_sheet_name_message(name)))
            } else if first_fold_match(names, folded(name)) >= 0 {
                Err(DocFail::Message(duplicate_sheet_message(name, names[first_fold_match(names, folded(name))])))
            } else {
                match sheet_cells_result(so@, name) {
                    Err(f) => Err(f),
                    Ok(c) => Ok((name, c)),
                }
            },
        },
        _ => Err(DocFail::Message("each worksheet must be a JSON object"@)),
    }
}

/// The sheets, read in order: their names and total populated-cell count, or
/// the first failure.
pub open spec fn scan_sheets(sheets: Seq<Json>) -> Result<(Seq<Seq<char>>, int), DocFail>
    decreases sheets.len(),
{
    if sheets.len() == 0 {
        Ok((Seq::empty(), 0))
    } else {
        match scan_sheets(sheets.drop_last()) {
            Err(f) => Err(f),
            Ok((names, total)) => match sheet_step(names, sheets.last()) {
                Err(f) => Err(f),
                Ok((name, c)) => Ok((names.push(name), total + c)),
            },
        }
    }
}

/// The sheet a canonical `ref` targets.
pub open spec fn ref_sheet(r: Seq<char>) -> Seq<char> {
    choose|s: Seq<char>| spec_canonical_ref(r, s)
}

/// One entry of the `names` array, after the named ranges `seen`, in a
/// workbook whose folded sheet names are `sheet_folds`: its name, or its first
/// failure.
pub open spec fn name_step(seen: Seq<Seq<char>>, sheet_folds: Seq<Seq<char>>, nr: Json) -> Result<Seq<char>, DocFail> {
    match nr {
        Json::Object(no) => match text_at(no@, "name"@) {
            None => Err(DocFail::Message("each named range requires a string \"name\""@)),
            Some(name) => match text_at(no@, "ref"@) {
                None => Err(DocFail::Message("each named range requires a string \"ref\""@)),
                Some(r) => if !spec_is_valid_name(name) {
                    Err(DocFail::Message(invalid_name_message(name)))
                } else if !(exists|s: Seq<char>| spec_canonical_ref(r, s)) {
                    Err(DocFail::Message(ref_error(r)))
                } else if !sheet_folds.contains(folded(ref_sheet(r))) {
                    Err(DocFail::Message(dangling_ref_message(name, ref_sheet(r))))
                } else if first_fold_match(seen, folded(name)) >= 0 {
                    Err(DocFail::Message(duplicate_name_message(name, seen[first_fold_match(seen, folded(name))])))
                } else {
                    Ok(name)
                },
            },
        },
        _ => Err(DocFail::Message("each named range must be a JSON object"@)),
    }
}

/// The named ranges, read in order: their names, or the first failure.
pub open spec fn scan_names(nrs: Seq<Json>, sheet_folds: Seq<Seq<char>>) -> Result<Seq<Seq<char>>, DocFail>
    decreases nrs.len(),
{
    if nrs.len() == 0 {
        Ok(Seq::empty())
    } else {
        match scan_names(nrs.drop_last(), sheet_folds) {
            Err(f) => Err(f),
            Ok(seen) => match name_step(seen, sheet_folds, nrs.last()) {
                Err(f) => Err(f),
                Ok(name) => Ok(seen.push(name)),
            },
        }
    }
}

/// The `names` field of a workbook whose sheets are named `sheet_names`.
pub open spec fn names_result(root: Seq<(String, Json)>, sheet_names: Seq<Seq<char>>) -> Result<(), DocFail> {
    match array_at(root, "names"@) {
        None => Err(DocFail::Message("the workbook \"names\" field must be an array"@)),
        Some(nrs) => if nrs.len() > MAX_NAMED_RANGES {
            Err(DocFail::Message(too_many_names_message(nrs.len() as int)))
        } else {
            match scan_names(nrs, folds(sheet_names)) {
                Err(f) => Err(f),
                Ok(_) => Ok(()),
            }
        },
    }
}

/// The verdict on a workbook document: `Ok` when it breaks no rule, else the
/// first rule it breaks.
pub open spec fn document_result(root: Json) -> Result<(), DocFail> {
    match root {
        Json::Object(o) => match array_at(o@, "sheets"@) {
            None => Err(DocFail::Message("the workbook \"sheets\" field must be an array"@)),
            Some(sheets) => if sheets.len() > MAX_SHEETS {
                Err(DocFail::Message(too_many_sheets_message(sheets.len() as int)))
            } else {
                match scan_sheets(sheets) {
                    Err(f) => Err(f),
                    Ok((names, total)) => if total > MAX_CELLS_PER_WORKBOOK {
                        Err(DocFail::Message(too_many_cells_message(total)))
                    } else {
                        names_result(o@, names)
                    },
                }
            },
        },
        _ => Err(DocFail::Message("a workbook document must be a JSON object"@)),
    }
}

/// `a + dq(x) + b + dec(n) + c + dec(limit) + d` as a string.
fn quoted_counted(a: &str, x: &str, b: &str, n: u128, c: &str, limit: u128, d: &str) -> (m: String)
    ensures
        m@ == a@ + dq(x@) + b@ + dec(n as int) + c@ + dec(limit as int) + d@,
{
    let mut m = quoted_one(a, x, b);
    push_str(&mut m, decimal_string_wide(n).as_str());
    push_str(&mut m, c);
    push_str(&mut m, decimal_string_wide(limit).as_str());
    push_str(&mut m, d);
    m
}

/// The index of the first of `names` whose fold (`name_folds`) is `f`.
fn find_fold(names: &Vec<String>, name_folds: &Vec<String>, f: &str) -> (r: Option<usize>)
    requires
        names@.len() == name_folds@.len(),
        forall|j: int| 0 <= j < names@.len() ==> (#[trigger] name_folds@[j])@ == folded(names@[j]@),
    ensures
        match r {
            Some(j) => j < names@.len() && first_fold_match(texts(names@), f@) == j as int,
            None => first_fold_match(texts(names@), f@) == -1,
        },
{
    let ghost ns = texts(names@);
    let mut i: usize = 0;
    proof {
        assert(ns.skip(0) =~= ns);
    }
    while i < name_folds.len()
        invariant
            i <= name_folds@.len() == names@.len() == ns.len(),
            ns == texts(names@),
            forall|j: int| 0 <= j < names@.len() ==> (#[trigger] name_folds@[j])@ == folded(names@[j]@),
            first_fold_match(ns, f@) == (if first_fold_match(ns.skip(i as int), f@) < 0 {
                -1
            } else {
                first_fold_match(ns.skip(i as int), f@) + i
            }),
        decreases name_folds@.len() - i,
    {
        proof {
            assert(ns.skip(i as int)[0] == ns[i as int]);
            assert(ns.skip(i as int).drop_first() =~= ns.skip(i as int + 1));
            assert(name_folds@[i as int]@ == folded(ns[i as int]));
        }
        if str_equal(name_folds[i].as_str(), f) {
            return Some(i);
        }
        i = i + 1;
    }
    proof {
        assert(ns.skip(i as int).len() == 0);
    }
    None
}

/// A failure among the first `n` sheets is the failure of them all.
proof fn lemma_scan_sheets_err(sheets: Seq<Json>, n: int)
    requires
        0 <= n <= sheets.len(),
        scan_sheets(sheets.take(n)) is Err,
    ensures
        scan_sheets(sheets) == scan_sheets(sheets.take(n)),
    decreases sheets.len() - n,
{
    if n < sheets.len() {
        assert(sheets.take(n + 1).drop_last() =~= sheets.take(n));
        lemma_scan_sheets_err(sheets, n + 1);
    } else {
        assert(sheets.take(n) =~= sheets);
    }
}

/// A failure among the first `n` named ranges is the failure of them all.
proof fn lemma_scan_names_err(nrs: Seq<Json>, sheet_folds: Seq<Seq<char>>, n: int)
    requires
        0 <= n <= nrs.len(),
        scan_names(nrs.take(n), sheet_folds) is Err,
    ensures
        scan_names(nrs, sheet_folds) == scan_names(nrs.take(n), sheet_folds),
    decreases nrs.len() - n,
{
    if n < nrs.len() {
        assert(nrs.take(n + 1).drop_last() =~= nrs.take(n));
        lemma_scan_names_err(nrs, sheet_folds, n + 1);
    } else {
        assert(nrs.take(n) =~= nrs);
    }
}

/// Checks the `names` field: at most [`MAX_NAMED_RANGES`] entries, each an
/// object with a valid `name` and a canonical `ref` into an existing sheet
/// (case-insensitively), no two names equal under simple case folding.
pub fn validate_named_ranges(root: &Vec<(String, Json)>, sheet_names: &Vec<String>) -> (r: Result<(), String>)
    ensures
        match r {
            Ok(()) => names_result(root@, texts(sheet_names@)) is Ok,
            Err(m) => match names_result(root@, texts(sheet_names@)) {
                Err(f) => fail_message(f, m@),
                Ok(_) => false,
            },
        },
{
    let nrs = match get_array(root, "names") {
        Some(a) => a,
        None => return Err(string_of("the workbook \"names\" field must be an array")),
    };
    if nrs.len() > MAX_NAMED_RANGES {
        return Err(counted("workbook has ", nrs.len() as u128, " named ranges, exceeding the limit of ", MAX_NAMED_RANGES as u128, " (scope ADR Decision 5)"));
    }
    let ghost sheet_folds = folds(texts(sheet_names@));
    let mut sfolds: Vec<String> = Vec::new();
    let mut k: usize = 0;
    while k < sheet_names.len()
        invariant
            k <= sheet_names@.len(),
            sheet_folds == folds(texts(sheet_names@)),
            sfolds@.len() == k,
            forall|j: int| 0 <= j < k ==> (#[trigger] sfolds@[j])@ == sheet_folds[j],
        decreases sheet_names@.len() - k,
    {
        sfolds.push(simple_fold(sheet_names[k].as_str()));
        k = k + 1;
    }
    let mut seen: Vec<String> = Vec::new();
    let mut seen_folds: Vec<String> = Vec::new();
    let mut i: usize = 0;
    proof {
        assert(nrs@.take(0) =~= Seq::<Json>::empty());
        assert(texts(seen@) =~= Seq::<Seq<char>>::empty());
    }
    while i < nrs.len()
        invariant
            i <= nrs@.len(),
            array_at(root@, "names"@) == Some(nrs@),
            nrs@.len() <= MAX_NAMED_RANGES,
            sheet_folds == folds(texts(sheet_names@)),
            sfolds@.len() == sheet_folds.len(),
            forall|j: int| 0 <= j < sfolds@.len() ==> (#[trigger] sfolds@[j])@ == sheet_folds[j],
            scan_names(nrs@.take(i as int), sheet_folds) == Ok::<Seq<Seq<char>>, DocFail>(texts(seen@)),
            seen@.len() == seen_folds@.len(),
            forall|j: int| 0 <= j < seen@.len() ==> (#[trigger] seen_folds@[j])@ == folded(seen@[j]@),
        decreases nrs@.len() - i,
    {
        let nr = &nrs[i];
        proof {
            assert(nrs@.take(i as int + 1).drop_last() =~= nrs@.take(i as int));
            assert(nrs@.take(i as int + 1).last() == nrs@[i as int]);
        }
        let no = match nr {
            Json::Object(no) => no,
            _ => {
                proof {
                    lemma_scan_names_err(nrs@, sheet_folds, i as int + 1);
                }
                return Err(string_of("each named range must be a JSON object"));
            },
        };
        let name = match get_text(no, "name") {
            Some(n) => n,
            None => {
                proof {
                    lemma_scan_names_err(nrs@, sheet_folds, i as int + 1);
                }
                return Err(string_of("each named range requires a string \"name\""));
            },
        };
        let r = match get_text(no, "ref") {
            Some(x) => x,
            None => {
                proof {
                    lemma_scan_names_err(nrs@, sheet_folds, i as int + 1);
                }
                return Err(string_of("each named range requires a string \"ref\""));
            },
        };
        if !is_valid_name(name.as_str()) {
            proof {
                lemma_scan_names_err(nrs@, sheet_folds, i as int + 1);
            }
            return Err(quoted_one(
                "named-range name ",
                name.as_str(),
                " is invalid: it must match ^[A-Za-z_][A-Za-z0-9_]*$ and must not be an A1 address, an R1C1-style reference, or a boolean literal (schema spec \u{a7}7)",
            ));
        }
        let parsed = match parse_canonical_ref(r.as_str()) {
            Ok(p) => p,
            Err(m) => {
                proof {
                    lemma_scan_names_err(nrs@, sheet_folds, i as int + 1);
                }
                return Err(m);
            },
        };
        proof {
            let s = ref_sheet(r@);
            crate::named_ref::lemma_canonical_ref_unique(r@, parsed.sheet@, s);
        }
        let target = simple_fold(parsed.sheet.as_str());
        let mut found = false;
        let mut q: usize = 0;
        while q < sfolds.len()
            invariant
                q <= sfolds@.len(),
                sfolds@.len() == sheet_folds.len(),
                forall|j: int| 0 <= j < sfolds@.len() ==> (#[trigger] sfolds@[j])@ == sheet_folds[j],
                found == (exists|j: int| 0 <= j < q && sheet_folds[j] == target@),
            decreases sfolds@.len() - q,
        {
            if str_equal(sfolds[q].as_str(), target.as_str()) {
                found = true;
            }
            q = q + 1;
        }
        if !found {
            proof {
                assert(!sheet_folds.contains(target@));
                lemma_scan_names_err(nrs@, sheet_folds, i as int + 1);
            }
            return Err(quoted_pair("named range ", name.as_str(), " refers to sheet ", parsed.sheet.as_str(), ", which does not exist (schema spec \u{a7}7)"));
        }
        proof {
            let j = choose|j: int| 0 <= j < sfolds@.len() && sheet_folds[j] == target@;
            assert(sheet_folds.contains(target@));
        }
        let f = simple_fold(name.as_str());
        match find_fold(&seen, &seen_folds, f.as_str()) {
            Some(j) => {
                proof {
                    lemma_scan_names_err(nrs@, sheet_folds, i as int + 1);
                }
                return Err(quoted_pair(
                    "duplicate named range: ",
                    name.as_str(),
                    " collides with ",
                    seen[j].as_str(),
                    " under simple case folding (schema spec \u{a7}7)",
                ));
            },
            None => {},
        }
        let ghost before = seen@;
        seen.push(string_of(name.as_str()));
        seen_folds.push(f);
        proof {
            assert(texts(seen@) =~= texts(before).push(name@));
        }
        i = i + 1;
    }
    proof {
        assert(nrs@.take(i as int) =~= nrs@);
    }
    Ok(())
}

/// Checks the document-level rules of a parsed workbook file and reports the
/// first violation: the root an object with a `sheets` array of at most
/// [`MAX_SHEETS`] sheets; each sheet an object with a `name` of 1 to
/// [`MAX_SHEET_NAME_LEN`] scalar values, unique under simple case folding,
/// and valid `cells`; at most [`MAX_CELLS_PER_WORKBOOK`] populated cells in
/// all; and a valid `names` array. Members are read in the order the tree
/// holds them, so a tree whose objects are sorted by key (see
/// [`crate::json::sort_keys`]) has its cells checked in key order.
pub fn validate_document(root: &Json) -> (r: Result<(), String>)
    ensures
        r is Ok <==> document_result(*root) is Ok,
        match r {
            Ok(()) => true,
            Err(m) => match document_result(*root) {
                Err(f) => fail_message(f, m@),
                Ok(_) => false,
            },
        },
{
    let obj = match root {
        Json::Object(o) => o,
        _ => return Err(string_of("a workbook document must be a JSON object")),
    };
    let sheets = match get_array(obj, "sheets") {
        Some(a) => a,
        None => return Err(string_of("the workbook \"sheets\" field must be an array")),
    };
    if sheets.len() > MAX_SHEETS {
        return Err(counted("workbook has ", sheets.len() as u128, " sheets, exceeding the limit of ", MAX_SHEETS as u128, " (scope ADR Decision 5)"));
    }
    let mut names: Vec<String> = Vec::new();
    let mut name_folds: Vec<String> = Vec::new();
    let mut total: u128 = 0;
    let mut i: usize = 0;
    proof {
        assert(sheets@.take(0) =~= Seq::<Json>::empty());
        assert(texts(names@) =~= Seq::<Seq<char>>::empty());
    }
    while i < sheets.len()
        invariant
            i <= sheets@.len() <= MAX_SHEETS,
            array_at(obj@, "sheets"@) == Some(sheets@),
            *root == Json::Object(*obj),
            scan_sheets(sheets@.take(i as int)) == Ok::<(Seq<Seq<char>>, int), DocFail>((texts(names@), total as int)),
            names@.len() == name_folds@.len(),
            forall|j: int| 0 <= j < names@.len() ==> (#[trigger] name_folds@[j])@ == folded(names@[j]@),
            total <= i * (u64::MAX * MAX_ARRAY_ELEMENTS),
        decreases sheets@.len() - i,
    {
        let sheet = &sheets[i];
        proof {
            assert(sheets@.take(i as int + 1).drop_last() =~= sheets@.take(i as int));
            assert(sheets@.take(i as int + 1).last() == sheets@[i as int]);
        }
        let so = match sheet {
            Json::Object(so) => so,
            _ => {
                proof {
                    lemma_scan_sheets_err(sheets@, i as int + 1);
                }
                return Err(string_of("each worksheet must be a JSON object"));
            },
        };
        let name = match get_text(so, "name") {
            Some(n) => n,
            None => {
                proof {
                    lemma_scan_sheets_err(sheets@, i as int + 1);
                }
                return Err(string_of("each worksheet requires a string \"name\""));
            },
        };
        let name_len = crate::text::chars_of(name.as_str()).len();
        if name_len == 0 {
            proof {
                lemma_scan_sheets_err(sheets@, i as int + 1);
            }
            return Err(string_of("a worksheet name must be non-empty (schema spec \u{a7}3)"));
        }
        if name_len > MAX_SHEET_NAME_LEN {
            proof {
                lemma_scan_sheets_err(sheets@, i as int + 1);
            }
            return Err(quoted_counted(
                "worksheet name ",
                name.as_str(),
                " has ",
                name_len as u128,
                " scalar values, exceeding the limit of ",
                MAX_SHEET_NAME_LEN as u128,
                " (schema spec \u{a7}3)",
            ));
        }
        let f = simple_fold(name.as_str());
        match find_fold(&names, &name_folds, f.as_str()) {
            Some(j) => {
                proof {
                    lemma_scan_sheets_err(sheets@, i as int + 1);
                }
                return Err(quoted_pair(
                    "duplicate sheet name: ",
                    name.as_str(),
                    " collides with ",
                    names[j].as_str(),
                    " under simple case folding (schema spec \u{a7}2)",
                ));
            },
            None => {},
        }
        let count = match validate_sheet_cells(so, name.as_str()) {
            Ok(c) => c,
            Err(m) => {
                proof {
                    lemma_scan_sheets_err(sheets@, i as int + 1);
                }
                return Err(m);
            },
        };
        proof {
            assert(i * (u64::MAX * MAX_ARRAY_ELEMENTS) + u64::MAX * MAX_ARRAY_ELEMENTS == (i + 1) * (u64::MAX
                * MAX_ARRAY_ELEMENTS)) by (nonlinear_arith);
            assert((i + 1) * (u64::MAX * MAX_ARRAY_ELEMENTS) <= 256 * (u64::MAX * MAX_ARRAY_ELEMENTS)) by (nonlinear_arith)
                requires
                    i + 1 <= 256,
            ;
        }
        let ghost before = names@;
        total = total + count;
        names.push(string_of(name.as_str()));
        name_folds.push(f);
        proof {
            assert(texts(names@) =~= texts(before).push(name@));
        }
        i = i + 1;
    }
    proof {
        assert(sheets@.take(i as int) =~= sheets@);
    }
    if total > MAX_CELLS_PER_WORKBOOK as u128 {
        return Err(counted("workbook has ", total, " populated cells, exceeding the limit of ", MAX_CELLS_PER_WORKBOOK as u128, " (scope ADR Decision 5)"));
    }
    validate_named_ranges(obj, &names)
}


// ---------------------------------------------------------------------------
// Laws
// ---------------------------------------------------------------------------

/// The `name` of sheet object `sheet` (empty when it has none).
pub open spec fn sheet_name_of(sheet: Json) -> Seq<char> {
    match sheet {
        Json::Object(so) => match text_at(so@, "name"@) {
            Some(n) => n,
            None => Seq::empty(),
        },
        _ => Seq::empty(),
    }
}

/// Reading the sheets in order collects their names, no two equal under
/// simple case folding.
proof fn lemma_scan_sheets_names(sheets: Seq<Json>)
    ensures
        scan_sheets(sheets) matches Ok((names, total)) ==> names.len() == sheets.len() && (forall|i: int|
            0 <= i < sheets.len() ==> #[trigger] names[i] == sheet_name_of(sheets[i]))
            && crate::registry::folds_distinct(names),
    decreases sheets.len(),
{
    if sheets.len() > 0 {
        let prev = sheets.drop_last();
        lemma_scan_sheets_names(prev);
        if let Ok((names, total)) = scan_sheets(sheets) {
            if let Ok((pn, pt)) = scan_sheets(prev) {
                let name = sheet_name_of(sheets.last());
                crate::registry::lemma_first_fold_match(pn, folded(name));
                assert(names == pn.push(name));
                assert forall|i: int| 0 <= i < sheets.len() implies #[trigger] names[i] == sheet_name_of(sheets[i]) by {
                    if i < prev.len() {
                        assert(sheets[i] == prev[i]);
                    }
                }
                assert forall|i: int, j: int| 0 <= i < j < names.len() implies folded(#[trigger] names[i]) != folded(
                    #[trigger] names[j],
                ) by {
                    if j < pn.len() {
                        assert(names[i] == pn[i] && names[j] == pn[j]);
                    } else {
                        assert(names[i] == pn[i]);
                    }
                }
            }
        }
    }
}

/// An accepted document names its sheets uniquely under simple case
/// folding: no two entries of its `sheets` array have names that fold
/// alike.
pub proof fn law_accepted_sheet_names_are_unique(root: Json)
    requires
        document_result(root) is Ok,
    ensures
        root matches Json::Object(o) && array_at(o@, "sheets"@) matches Some(sheets) && forall|i: int, j: int|
            0 <= i < j < sheets.len() ==> folded(#[trigger] sheet_name_of(sheets[i])) != folded(
                #[trigger] sheet_name_of(sheets[j]),
            ),
{
    if let Json::Object(o) = root {
        if let Some(sheets) = array_at(o@, "sheets"@) {
            lemma_scan_sheets_names(sheets);
            if let Ok((names, total)) = scan_sheets(sheets) {
                assert forall|i: int, j: int| 0 <= i < j < sheets.len() implies folded(#[trigger] sheet_name_of(sheets[i]))
                    != folded(#[trigger] sheet_name_of(sheets[j])) by {
                    assert(names[i] == sheet_name_of(sheets[i]));
                    assert(names[j] == sheet_name_of(sheets[j]));
                }
            }
        }
    }
}


/// Reading the named ranges in order collects their names, no two equal
/// under simple case folding.
proof fn lemma_scan_names_unique(nrs: Seq<Json>, sheet_folds: Seq<Seq<char>>)
    ensures
        scan_names(nrs, sheet_folds) matches Ok(seen) ==> seen.len() == nrs.len() && (forall|i: int|
            0 <= i < nrs.len() ==> #[trigger] seen[i] == sheet_name_of(nrs[i])) && crate::registry::folds_distinct(seen),
    decreases nrs.len(),
{
    if nrs.len() > 0 {
        let prev = nrs.drop_last();
        lemma_scan_names_unique(prev, sheet_folds);
        if let Ok(seen) = scan_names(nrs, sheet_folds) {
            if let Ok(ps) = scan_names(prev, sheet_folds) {
                let name = sheet_name_of(nrs.last());
                crate::registry::lemma_first_fold_match(ps, folded(name));
                assert(seen == ps.push(name));
                assert forall|i: int| 0 <= i < nrs.len() implies #[trigger] seen[i] == sheet_name_of(nrs[i]) by {
                    if i < prev.len() {
                        assert(nrs[i] == prev[i]);
                    }
                }
                assert forall|i: int, j: int| 0 <= i < j < seen.len() implies folded(#[trigger] seen[i]) != folded(
                    #[trigger] seen[j],
                ) by {
                    if j < ps.len() {
                        assert(seen[i] == ps[i] && seen[j] == ps[j]);
                    } else {
                        assert(seen[i] == ps[i]);
                    }
                }
            }
        }
    }
}

/// An accepted document names its named ranges uniquely under simple case
/// folding.
pub proof fn law_accepted_range_names_are_unique(root: Json)
    requires
        document_result(root) is Ok,
    ensures
        root matches Json::Object(o) && array_at(o@, "names"@) matches Some(nrs) && forall|i: int, j: int|
            0 <= i < j < nrs.len() ==> folded(#[trigger] sheet_name_of(nrs[i])) != folded(#[trigger] sheet_name_of(nrs[j])),
{
    if let Json::Object(o) = root {
        if let Some(sheets) = array_at(o@, "sheets"@) {
            if let Ok((names, total)) = scan_sheets(sheets) {
                if let Some(nrs) = array_at(o@, "names"@) {
                    lemma_scan_names_unique(nrs, folds(names));
                    if let Ok(seen) = scan_names(nrs, folds(names)) {
                        assert forall|i: int, j: int| 0 <= i < j < nrs.len() implies folded(#[trigger] sheet_name_of(nrs[i]))
                            != folded(#[trigger] sheet_name_of(nrs[j])) by {
                            assert(seen[i] == sheet_name_of(nrs[i]));
                            assert(seen[j] == sheet_name_of(nrs[j]));
                        }
                    }
                }
            }
        }
    }
}

} // verus!
