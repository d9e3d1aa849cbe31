//! Cell values as a workbook file writes them: `{"type": ..., "value": ...}`
//! (an `error` carries its code under `error`). Numbers and dates are kept
//! as their JSON text; turning them into floating point is left to the
//! caller. Reading checks every shape rule of a value: the tag, exactly two
//! fields, the payload's JSON type, and for an array a non-empty,
//! rectangular grid of scalar values.

use vstd::prelude::*;

use crate::error::{reports, ErrorKind, WorkbookError};
use crate::json::{as_text, get, get_text, key_index, lemma_key_index, lookup, Json};
use crate::limits::{MAX_ARRAY_ELEMENTS, MAX_TEXT_LEN};
use crate::text::{decimal_digits, debug_quoted, push_str, spec_debug_quoted, str_equal, string_of};

verus! {

/// An evaluated cell value. Numbers and dates hold their JSON text.
#[derive(Debug, PartialEq)]
pub enum CellValue {
    /// A finite number.
    Number(String),
    /// Any Unicode string.
    Text(String),
    /// A boolean.
    Boolean(bool),
    /// A spreadsheet error code, e.g. `#REF!`.
    Error(String),
    /// An evaluated-empty result.
    Empty,
    /// A row-major, rectangular, non-empty grid of scalar values.
    Array(Vec<Vec<CellValue>>),
    /// A date serial number.
    Date(String),
}

/// The field that carries a value's payload: `error` for an error value,
/// `value` otherwise.
pub open spec fn payload_key(kind: Seq<char>) -> Seq<char> {
    if kind == "error"@ {
        "error"@
    } else {
        "value"@
    }
}

pub open spec fn fields_message(kind: Seq<char>) -> Seq<char> {
    "a "@ + kind + " value must have exactly the fields \"type\" and \""@ + payload_key(kind) + "\""@
}

pub open spec fn not_number_message(kind: Seq<char>) -> Seq<char> {
    "a "@ + kind + " value must be a JSON number"@
}

pub open spec fn unknown_type_message(kind: Seq<char>) -> Seq<char> {
    "unknown value type "@ + spec_debug_quoted(kind)
}

/// The `type` tag of a value object.
pub open spec fn type_of(o: Seq<(String, Json)>) -> Option<Seq<char>> {
    as_text(lookup(o, "type"@))
}

/// A value object whose tag is `array`.
pub open spec fn is_array_value(raw: Json) -> bool {
    match raw {
        Json::Object(o) => type_of(o@) == Some("array"@),
        _ => false,
    }
}

/// The first shape rule `raw` breaks as a cell value, or `None`.
pub open spec fn value_error(raw: Json) -> Option<Seq<char>>
    decreases raw, 2int,
{
    match raw {
        Json::Object(o) => match type_of(o@) {
            None => Some("a cell value requires a string \"type\" field"@),
            Some(kind) => {
                let i = key_index(o@, payload_key(kind));
                if i < 0 || o@.len() != 2 || i >= o@.len() {
                    Some(fields_message(kind))
                } else {
                    payload_error(kind, o@[i].1)
                }
            },
        },
        _ => Some("a cell value must be a JSON object"@),
    }
}

/// The first rule payload `p` of a `kind` value breaks.
pub open spec fn payload_error(kind: Seq<char>, p: Json) -> Option<Seq<char>>
    decreases p, 1int,
{
    if kind == "number"@ || kind == "date"@ {
        if p is Number {
            None
        } else {
            Some(not_number_message(kind))
        }
    } else if kind == "text"@ {
        if p is String {
            None
        } else {
            Some("a text value must be a JSON string"@)
        }
    } else if kind == "boolean"@ {
        if p is Bool {
            None
        } else {
            Some("a boolean value must be a JSON boolean"@)
        }
    } else if kind == "error"@ {
        if p is String {
            None
        } else {
            Some("an error value must carry a string error code"@)
        }
    } else if kind == "empty"@ {
        if p is Null {
            None
        } else {
            Some("an empty value must be JSON null"@)
        }
    } else if kind == "array"@ {
        array_error(p)
    } else {
        Some(unknown_type_message(kind))
    }
}

/// The first rule the payload of an array value breaks.
pub open spec fn array_error(p: Json) -> Option<Seq<char>>
    decreases p, 0int,
{
    match p {
        Json::Array(rows) => if rows@.len() == 0 {
            Some("array value must be non-empty"@)
        } else {
            rows_error(rows@, rows@.len() as int)
        },
        _ => Some("an array value must be a 2-D JSON array"@),
    }
}

/// The length of the first row, when it is an array.
pub open spec fn first_width(rows: Seq<Json>) -> int {
    match rows[0] {
        Json::Array(items) => items@.len() as int,
        _ => 0,
    }
}

/// The first rule among the first `n` rows of an array value.
pub open spec fn rows_error(rows: Seq<Json>, n: int) -> Option<Seq<char>>
    decreases rows, n,
{
    if n <= 0 || n > rows.len() {
        None
    } else {
        match rows_error(rows, n - 1) {
            Some(m) => Some(m),
            None => match rows[n - 1] {
                Json::Array(items) => if items@.len() == 0 {
                    Some("array value must be non-empty"@)
                } else if n - 1 > 0 && items@.len() != first_width(rows) {
                    Some("array value must be rectangular"@)
                } else {
                    elems_error(items@, items@.len() as int)
                },
                _ => Some("array rows must be JSON arrays"@),
            },
        }
    }
}

/// The first rule among the first `m` elements of one row.
pub open spec fn elems_error(items: Seq<Json>, m: int) -> Option<Seq<char>>
    decreases items, m,
{
    if m <= 0 || m > items.len() {
        None
    } else {
        match elems_error(items, m - 1) {
            Some(e) => Some(e),
            None => match value_error(items[m - 1]) {
                Some(e) => Some(e),
                None => if is_array_value(items[m - 1]) {
                    Some("array elements must be scalar values (no nested arrays)"@)
                } else {
                    None
                },
            },
        }
    }
}

/// The `type` tag of a value object (empty when there is none).
pub open spec fn kind_of(raw: Json) -> Seq<char> {
    match raw {
        Json::Object(o) => match type_of(o@) {
            Some(k) => k,
            None => Seq::empty(),
        },
        _ => Seq::empty(),
    }
}

/// The payload of a value object.
pub open spec fn payload_of(raw: Json) -> Json {
    match raw {
        Json::Object(o) => o@[key_index(o@, payload_key(kind_of(raw)))].1,
        _ => Json::Null,
    }
}

/// `v` is the value document value `raw` denotes.
pub open spec fn value_of(raw: Json, v: CellValue) -> bool
    decreases v,
{
    let kind = kind_of(raw);
    let p = payload_of(raw);
    match v {
        CellValue::Number(t) => kind == "number"@ && (p matches Json::Number(x) && x@ == t@),
        CellValue::Date(t) => kind == "date"@ && (p matches Json::Number(x) && x@ == t@),
        CellValue::Text(t) => kind == "text"@ && (p matches Json::String(x) && x@ == t@),
        CellValue::Boolean(b) => kind == "boolean"@ && p == Json::Bool(b),
        CellValue::Error(c) => kind == "error"@ && (p matches Json::String(x) && x@ == c@),
        CellValue::Empty => kind == "empty"@,
        CellValue::Array(rows) => kind == "array"@ && grid_of(p, rows@),
    }
}

/// `rows` is the grid the array payload `p` denotes.
pub open spec fn grid_of(p: Json, rows: Seq<Vec<CellValue>>) -> bool
    decreases rows,
{
    match p {
        Json::Array(rr) => rr@.len() == rows.len() && forall|i: int|
            0 <= i < rows.len() ==> match #[trigger] rr@[i] {
                Json::Array(items) => row_of(items@, rows[i]@),
                _ => false,
            },
        _ => false,
    }
}

/// `row` is the values the JSON items denote, one by one.
pub open spec fn row_of(items: Seq<Json>, row: Seq<CellValue>) -> bool
    decreases row,
{
    items.len() == row.len() && forall|k: int| 0 <= k < row.len() ==> value_of(items[k], #[trigger] row[k])
}

/// The scalar tags differ from `array`.
proof fn lemma_tags_differ_from_array()
    ensures
        "number"@ != "array"@,
        "date"@ != "array"@,
        "text"@ != "array"@,
        "boolean"@ != "array"@,
        "error"@ != "array"@,
        "empty"@ != "array"@,
{
    reveal_strlit("array");
    reveal_strlit("number");
    reveal_strlit("date");
    reveal_strlit("text");
    reveal_strlit("boolean");
    reveal_strlit("error");
    reveal_strlit("empty");
    assert("number"@.len() != "array"@.len());
    assert("date"@.len() != "array"@.len());
    assert("text"@.len() != "array"@.len());
    assert("boolean"@.len() != "array"@.len());
    assert("error"@[0] != "array"@[0]);
    assert("empty"@[0] != "array"@[0]);
}

/// An error among the first `n` rows is the first of them all.
proof fn lemma_rows_error_stable(rows: Seq<Json>, n: int)
    requires
        0 <= n <= rows.len(),
        rows_error(rows, n) is Some,
    ensures
        rows_error(rows, rows.len() as int) == rows_error(rows, n),
    decreases rows.len() - n,
{
    if n < rows.len() {
        lemma_rows_error_stable(rows, n + 1);
    }
}

/// An error among the first `m` elements is the first of them all.
proof fn lemma_elems_error_stable(items: Seq<Json>, m: int)
    requires
        0 <= m <= items.len(),
        elems_error(items, m) is Some,
    ensures
        elems_error(items, items.len() as int) == elems_error(items, m),
    decreases items.len() - m,
{
    if m < items.len() {
        lemma_elems_error_stable(items, m + 1);
    }
}

/// Reads a cell value from its document form, checking every shape rule:
/// an object with a string `type`, exactly the fields `type` and the
/// payload field (`error` for an error value, `value` otherwise), and a
/// payload of the tag's JSON type; an array value is a non-empty,
/// rectangular grid of scalar values. Reports the first rule broken.
pub fn parse_value(raw: &Json) -> (r: Result<CellValue, String>)
    ensures
        match r {
            Ok(v) => value_error(*raw) is None && value_of(*raw, v),
            Err(m) => value_error(*raw) == Some(m@),
        },
    decreases raw,
{
    let o = match raw {
        Json::Object(o) => o,
        _ => {
            return Err(string_of("a cell value must be a JSON object"));
        },
    };
    let kind = match get_text(o, "type") {
        Some(k) => k,
        None => {
            return Err(string_of("a cell value requires a string \"type\" field"));
        },
    };
    let is_error = str_equal(kind.as_str(), "error");
    let pk: &str = if is_error {
        "error"
    } else {
        "value"
    };
    proof {
        lemma_key_index(o@, pk@);
    }
    let found = get(o, pk);
    if found.is_none() || o.len() != 2 {
        let mut m = string_of("a ");
        push_str(&mut m, kind.as_str());
        push_str(&mut m, " value must have exactly the fields \"type\" and \"");
        push_str(&mut m, pk);
        push_str(&mut m, "\"");
        return Err(m);
    }
    let payload = found.unwrap();
    proof {
        let i = key_index(o@, payload_key(kind@));
        assert(*payload == o@[i].1);
        assert(decreases_to!(*raw => o@[i].1));
    }
    if str_equal(kind.as_str(), "number") || str_equal(kind.as_str(), "date") {
        let is_number = str_equal(kind.as_str(), "number");
        return match payload {
            Json::Number(t) => if is_number {
                Ok(CellValue::Number(string_of(t.as_str())))
            } else {
                Ok(CellValue::Date(string_of(t.as_str())))
            },
            _ => {
                let mut m = string_of("a ");
                push_str(&mut m, kind.as_str());
                push_str(&mut m, " value must be a JSON number");
                Err(m)
            },
        };
    }
    if str_equal(kind.as_str(), "text") {
        return match payload {
            Json::String(t) => Ok(CellValue::Text(string_of(t.as_str()))),
            _ => Err(string_of("a text value must be a JSON string")),
        };
    }
    if str_equal(kind.as_str(), "boolean") {
        return match payload {
            Json::Bool(b) => Ok(CellValue::Boolean(*b)),
            _ => Err(string_of("a boolean value must be a JSON boolean")),
        };
    }
    if is_error {
        return match payload {
            Json::String(c) => Ok(CellValue::Error(string_of(c.as_str()))),
            _ => Err(string_of("an error value must carry a string error code")),
        };
    }
    if str_equal(kind.as_str(), "empty") {
        return match payload {
            Json::Null => Ok(CellValue::Empty),
            _ => Err(string_of("an empty value must be JSON null")),
        };
    }
    if str_equal(kind.as_str(), "array") {
        return parse_array(payload);
    }
    let mut m = string_of("unknown value type ");
    push_str(&mut m, debug_quoted(kind.as_str()).as_str());
    Err(m)
}

/// Reads the payload of an array value: a non-empty JSON array of
/// non-empty rows of equal length, each element a scalar cell value.
fn parse_array(payload: &Json) -> (r: Result<CellValue, String>)
    ensures
        match r {
            Ok(v) => array_error(*payload) is None && (v matches CellValue::Array(rows) && grid_of(*payload, rows@)),
            Err(m) => array_error(*payload) == Some(m@),
        },
    decreases payload,
{
    let raw_rows = match payload {
        Json::Array(rr) => rr,
        _ => {
            return Err(string_of("an array value must be a 2-D JSON array"));
        },
    };
    if raw_rows.len() == 0 {
        return Err(string_of("array value must be non-empty"));
    }
    let mut rows: Vec<Vec<CellValue>> = Vec::new();
    let mut width: usize = 0;
    let mut i: usize = 0;
    while i < raw_rows.len()
        invariant
            i <= raw_rows@.len(),
            raw_rows@.len() > 0,
            *payload == Json::Array(*raw_rows),
            rows_error(raw_rows@, i as int) is None,
            i > 0 ==> width == first_width(raw_rows@),
            rows@.len() == i,
            forall|i2: int| 0 <= i2 < i ==> match #[trigger] raw_rows@[i2] {
                Json::Array(items) => row_of(items@, rows@[i2]@),
                _ => false,
            },
        decreases raw_rows@.len() - i,
    {
        let items = match &raw_rows[i] {
            Json::Array(items) => items,
            _ => {
                proof {
                    lemma_rows_error_stable(raw_rows@, i as int + 1);
                }
                return Err(string_of("array rows must be JSON arrays"));
            },
        };
        if items.len() == 0 {
            proof {
                lemma_rows_error_stable(raw_rows@, i as int + 1);
            }
            return Err(string_of("array value must be non-empty"));
        }
        if i == 0 {
            width = items.len();
        } else if items.len() != width {
            proof {
                lemma_rows_error_stable(raw_rows@, i as int + 1);
            }
            return Err(string_of("array value must be rectangular"));
        }
        let mut row: Vec<CellValue> = Vec::new();
        let mut k: usize = 0;
        while k < items.len()
            invariant
                k <= items@.len(),
                i < raw_rows@.len(),
                *payload == Json::Array(*raw_rows),
                raw_rows@[i as int] == Json::Array(*items),
                rows_error(raw_rows@, i as int) is None,
                items@.len() > 0,
                i > 0 ==> items@.len() == first_width(raw_rows@),
                elems_error(items@, k as int) is None,
                row@.len() == k,
                forall|k2: int| 0 <= k2 < k ==> value_of(items@[k2], #[trigger] row@[k2]),
            decreases items@.len() - k,
        {
            proof {
                assert(decreases_to!(*payload => *raw_rows));
                assert(decreases_to!(*raw_rows => raw_rows@));
                assert(decreases_to!(raw_rows@ => raw_rows@[i as int]));
                assert(decreases_to!(raw_rows@[i as int] => *items));
                assert(decreases_to!(*items => items@));
                assert(decreases_to!(items@ => items@[k as int]));
                assert(decreases_to!(*payload => items@[k as int]));
            }
            let elem = match parse_value(&items[k]) {
                Ok(v) => v,
                Err(m) => {
                    proof {
                        lemma_elems_error_stable(items@, k as int + 1);
                        lemma_rows_error_stable(raw_rows@, i as int + 1);
                    }
                    return Err(m);
                },
            };
            let nested = match elem {
                CellValue::Array(_) => true,
                _ => false,
            };
            if nested {
                proof {
                    assert(is_array_value(items@[k as int]));
                    lemma_elems_error_stable(items@, k as int + 1);
                    lemma_rows_error_stable(raw_rows@, i as int + 1);
                }
                return Err(string_of("array elements must be scalar values (no nested arrays)"));
            }
            proof {
                lemma_tags_differ_from_array();
                assert(!is_array_value(items@[k as int]));
            }
            row.push(elem);
            k = k + 1;
        }
        proof {
            assert(rows_error(raw_rows@, i as int + 1) is None);
        }
        rows.push(row);
        i = i + 1;
    }
    Ok(CellValue::Array(rows))
}

/// How many elements the rows hold in all.
pub open spec fn element_count(rows: Seq<Vec<CellValue>>) -> int
    decreases rows.len(),
{
    if rows.len() == 0 {
        0
    } else {
        element_count(rows.drop_last()) + rows.last()@.len()
    }
}

/// The rule value `v` breaks against the per-mutation resource caps: a text
/// value over [`MAX_TEXT_LEN`] scalar values, or an array value over
/// [`MAX_ARRAY_ELEMENTS`] elements.
pub open spec fn value_limit_error(v: CellValue) -> Option<Seq<char>> {
    match v {
        CellValue::Text(s) => if s@.len() > MAX_TEXT_LEN {
            Some(
                "text value has "@ + decimal_digits(s@.len()) + " scalar values, exceeding the limit of "@
                    + decimal_digits(MAX_TEXT_LEN as nat) + " (scope ADR Decision 5)"@,
            )
        } else {
            None
        },
        CellValue::Array(rows) => if element_count(rows@) > MAX_ARRAY_ELEMENTS {
            Some(
                "array value has "@ + decimal_digits(element_count(rows@) as nat) + " elements, exceeding the limit of "@
                    + decimal_digits(MAX_ARRAY_ELEMENTS as nat) + " (scope ADR Decision 5)"@,
            )
        } else {
            None
        },
        _ => None,
    }
}

/// Checks a value written through the mutation interface against the text
/// length and array size caps.
pub fn check_value_limits(value: &CellValue) -> (r: Result<(), WorkbookError>)
    ensures
        match r {
            Ok(()) => value_limit_error(*value) is None,
            Err(e) => value_limit_error(*value) matches Some(m) && reports(e, (ErrorKind::ResourceLimit, m)),
        },
{
    match value {
        CellValue::Text(s) => {
            let len = crate::text::chars_of(s.as_str()).len();
            if len > MAX_TEXT_LEN {
                return Err(WorkbookError::ResourceLimit(crate::document::counted(
                    "text value has ",
                    len as u128,
                    " scalar values, exceeding the limit of ",
                    MAX_TEXT_LEN as u128,
                    " (scope ADR Decision 5)",
                )));
            }
            Ok(())
        },
        CellValue::Array(rows) => {
            let mut elems: u128 = 0;
            let mut i: usize = 0;
            while i < rows.len()
                invariant
                    i <= rows@.len(),
                    elems == element_count(rows@.take(i as int)),
                    elems <= i * (usize::MAX as int),
                decreases rows@.len() - i,
            {
                proof {
                    assert(rows@.take(i as int + 1).drop_last() =~= rows@.take(i as int));
                    assert(i * (usize::MAX as int) + usize::MAX <= (i + 1) * (usize::MAX as int)) by (nonlinear_arith);
                    assert((i + 1) * (usize::MAX as int) <= usize::MAX * (usize::MAX as int)) by (nonlinear_arith)
                        requires
                            i + 1 <= usize::MAX,
                    ;
                    assert(usize::MAX * (usize::MAX as int) <= u64::MAX * (u64::MAX as int)) by (nonlinear_arith)
                        requires
                            usize::MAX <= u64::MAX,
                    ;
                }
                elems = elems + rows[i].len() as u128;
                i = i + 1;
            }
            proof {
                assert(rows@.take(i as int) =~= rows@);
            }
            if elems > MAX_ARRAY_ELEMENTS as u128 {
                return Err(WorkbookError::ResourceLimit(crate::document::counted(
                    "array value has ",
                    elems,
                    " elements, exceeding the limit of ",
                    MAX_ARRAY_ELEMENTS as u128,
                    " (scope ADR Decision 5)",
                )));
            }
            Ok(())
        },
        _ => Ok(()),
    }
}

/// The rule the first `n` rows break, row by row: a row whose length
/// differs from the first row's, or a row holding an array.
pub open spec fn shape_error_upto(rows: Seq<Vec<CellValue>>, n: int) -> Option<Seq<char>>
    decreases n,
{
    if n <= 0 {
        None
    } else {
        match shape_error_upto(rows, n - 1) {
            Some(m) => Some(m),
            None => if rows[n - 1]@.len() != rows[0]@.len() {
                Some("array value must be rectangular"@)
            } else if exists|k: int| 0 <= k < rows[n - 1]@.len() && #[trigger] rows[n - 1]@[k] is Array {
                Some("array elements must be scalar values (no nested arrays)"@)
            } else {
                None
            },
        }
    }
}

/// The rule an array value breaks before it can be written: no rows or an
/// empty first row, then row by row a length that differs from the first
/// row's or a nested array.
pub open spec fn array_shape_error(rows: Seq<Vec<CellValue>>) -> Option<Seq<char>> {
    if rows.len() == 0 || rows[0]@.len() == 0 {
        Some("array value must be non-empty"@)
    } else {
        shape_error_upto(rows, rows.len() as int)
    }
}

/// An error among the first `n` rows is the first of them all.
proof fn lemma_shape_error_stable(rows: Seq<Vec<CellValue>>, n: int)
    requires
        0 <= n <= rows.len(),
        shape_error_upto(rows, n) is Some,
    ensures
        shape_error_upto(rows, rows.len() as int) == shape_error_upto(rows, n),
    decreases rows.len() - n,
{
    if n < rows.len() {
        lemma_shape_error_stable(rows, n + 1);
    }
}

/// Checks that an array value can be written: non-empty, rectangular, and
/// holding only scalar values.
pub fn check_array_shape(rows: &Vec<Vec<CellValue>>) -> (r: Result<(), String>)
    ensures
        match r {
            Ok(()) => array_shape_error(rows@) is None,
            Err(m) => array_shape_error(rows@) == Some(m@),
        },
{
    if rows.len() == 0 || rows[0].len() == 0 {
        return Err(string_of("array value must be non-empty"));
    }
    let width = rows[0].len();
    let mut i: usize = 0;
    while i < rows.len()
        invariant
            i <= rows@.len(),
            rows@.len() > 0,
            rows@[0]@.len() > 0,
            width == rows@[0]@.len(),
            shape_error_upto(rows@, i as int) is None,
        decreases rows@.len() - i,
    {
        if rows[i].len() != width {
            proof {
                lemma_shape_error_stable(rows@, i as int + 1);
            }
            return Err(string_of("array value must be rectangular"));
        }
        let mut k: usize = 0;
        while k < rows[i].len()
            invariant
                i < rows@.len(),
                rows@.len() > 0,
                rows@[0]@.len() > 0,
                rows@[i as int]@.len() == rows@[0]@.len(),
                shape_error_upto(rows@, i as int) is None,
                k <= rows@[i as int]@.len(),
                forall|k2: int| 0 <= k2 < k ==> !(#[trigger] rows@[i as int]@[k2] is Array),
            decreases rows@[i as int]@.len() - k,
        {
            let nested = match &rows[i][k] {
                CellValue::Array(_) => true,
                _ => false,
            };
            if nested {
                proof {
                    assert(rows@[i as int]@[k as int] is Array);
                    lemma_shape_error_stable(rows@, i as int + 1);
                }
                return Err(string_of("array elements must be scalar values (no nested arrays)"));
            }
            k = k + 1;
        }
        i = i + 1;
    }
    Ok(())
}

/// Rows with no error are non-empty arrays as wide as the first, whose
/// elements have no error.
proof fn lemma_rows_ok(rows: Seq<Json>, n: int)
    requires
        0 < rows.len(),
        0 <= n <= rows.len(),
        rows_error(rows, n) is None,
    ensures
        forall|i: int|
            0 <= i < n ==> match #[trigger] rows[i] {
                Json::Array(items) => items@.len() > 0 && items@.len() == first_width(rows) && elems_error(
                    items@,
                    items@.len() as int,
                ) is None,
                _ => false,
            },
    decreases n,
{
    if n > 0 {
        lemma_rows_ok(rows, n - 1);
    }
}

/// Elements with no error are scalar values with no error.
proof fn lemma_elems_ok(items: Seq<Json>, m: int)
    requires
        0 <= m <= items.len(),
        elems_error(items, m) is None,
    ensures
        forall|k: int| 0 <= k < m ==> value_error(#[trigger] items[k]) is None && !is_array_value(items[k]),
    decreases m,
{
    if m > 0 {
        lemma_elems_ok(items, m - 1);
    }
}

/// A value read from a document can be written back: an array value read
/// without error is non-empty, rectangular and holds only scalar values.
pub proof fn law_read_array_is_writable(raw: Json, v: CellValue)
    requires
        value_error(raw) is None,
        value_of(raw, v),
    ensures
        v matches CellValue::Array(rows) ==> array_shape_error(rows@) is None,
{
    if let CellValue::Array(rows) = v {
        let p = payload_of(raw);
        let o = match raw {
            Json::Object(o) => o,
            _ => arbitrary(),
        };
        lemma_tags_differ_from_array();
        let rr = match p {
            Json::Array(rr) => rr,
            _ => arbitrary(),
        };
        assert(array_error(p) is None);
        lemma_rows_ok(rr@, rr@.len() as int);
        let g = rows@;
        assert forall|i: int| 0 <= i < g.len() implies (#[trigger] g[i])@.len() == g[0]@.len() && g[i]@.len() > 0 && forall|k: int|
            0 <= k < g[i]@.len() ==> !(#[trigger] g[i]@[k] is Array) by {
            let items = match rr@[i] {
                Json::Array(items) => items,
                _ => arbitrary(),
            };
            let items0 = match rr@[0] {
                Json::Array(items) => items,
                _ => arbitrary(),
            };
            assert(row_of(items@, g[i]@));
            assert(row_of(items0@, g[0]@));
            lemma_elems_ok(items@, items@.len() as int);
            assert forall|k: int| 0 <= k < g[i]@.len() implies !(#[trigger] g[i]@[k] is Array) by {
                assert(value_of(items@[k], g[i]@[k]));
                assert(!is_array_value(items@[k]));
            }
        }
        lemma_shape_ok(g, g.len() as int);
    }
}

/// Rows as wide as the first and holding no array have no shape error.
proof fn lemma_shape_ok(g: Seq<Vec<CellValue>>, n: int)
    requires
        0 <= n <= g.len(),
        forall|i: int| 0 <= i < g.len() ==> (#[trigger] g[i])@.len() == g[0]@.len() && forall|k: int|
            0 <= k < g[i]@.len() ==> !(#[trigger] g[i]@[k] is Array),
    ensures
        shape_error_upto(g, n) is None,
    decreases n,
{
    if n > 0 {
        lemma_shape_ok(g, n - 1);
        assert(!(exists|k: int| 0 <= k < g[n - 1]@.len() && #[trigger] g[n - 1]@[k] is Array));
    }
}


/// Whether `a` and `b` are the same value: the same variant, texts with the
/// same characters, and arrays of the same shape holding the same values.
pub open spec fn same_value(a: CellValue, b: CellValue) -> bool
    decreases a,
{
    match (a, b) {
        (CellValue::Number(x), CellValue::Number(y)) => x@ == y@,
        (CellValue::Text(x), CellValue::Text(y)) => x@ == y@,
        (CellValue::Boolean(x), CellValue::Boolean(y)) => x == y,
        (CellValue::Error(x), CellValue::Error(y)) => x@ == y@,
        (CellValue::Empty, CellValue::Empty) => true,
        (CellValue::Date(x), CellValue::Date(y)) => x@ == y@,
        (CellValue::Array(r), CellValue::Array(s)) => {
            &&& r@.len() == s@.len()
            &&& forall|i: int| 0 <= i < r@.len() ==> (#[trigger] r@[i])@.len() == s@[i]@.len()
            &&& forall|i: int, j: int|
                0 <= i < r@.len() && 0 <= j < r@[i]@.len() ==> same_value(#[trigger] r@[i]@[j], s@[i]@[j])
        },
        _ => false,
    }
}

/// Whether `a` and `b` are the same value (see [`same_value`]).
pub fn values_equal(a: &CellValue, b: &CellValue) -> (r: bool)
    ensures
        r == same_value(*a, *b),
    decreases a,
{
    match (a, b) {
        (CellValue::Number(x), CellValue::Number(y)) => str_equal(x.as_str(), y.as_str()),
        (CellValue::Text(x), CellValue::Text(y)) => str_equal(x.as_str(), y.as_str()),
        (CellValue::Boolean(x), CellValue::Boolean(y)) => *x == *y,
        (CellValue::Error(x), CellValue::Error(y)) => str_equal(x.as_str(), y.as_str()),
        (CellValue::Empty, CellValue::Empty) => true,
        (CellValue::Date(x), CellValue::Date(y)) => str_equal(x.as_str(), y.as_str()),
        (CellValue::Array(r), CellValue::Array(s)) => {
            if r.len() != s.len() {
                return false;
            }
            let mut i: usize = 0;
            while i < r.len()
                invariant
                    i <= r@.len() == s@.len(),
                    *a == CellValue::Array(*r),
                    *b == CellValue::Array(*s),
                    forall|t: int| 0 <= t < i ==> (#[trigger] r@[t])@.len() == s@[t]@.len(),
                    forall|t: int, u: int| 0 <= t < i && 0 <= u < r@[t]@.len() ==> same_value(#[trigger] r@[t]@[u], s@[t]@[u]),
                decreases r@.len() - i,
            {
                let ri = &r[i];
                let si = &s[i];
                if ri.len() != si.len() {
                    proof {
                        assert(r@[i as int]@.len() != s@[i as int]@.len());
                    }
                    return false;
                }
                let mut j: usize = 0;
                while j < ri.len()
                    invariant
                        i < r@.len() == s@.len(),
                        *a == CellValue::Array(*r),
                        *b == CellValue::Array(*s),
                        *ri == r@[i as int],
                        *si == s@[i as int],
                        j <= ri@.len() == si@.len(),
                        forall|u: int| 0 <= u < j ==> same_value(#[trigger] ri@[u], si@[u]),
                    decreases ri@.len() - j,
                {
                    proof {
                        lemma_element_decreases(*a, i as int, j as int);
                    }
                    if !values_equal(&ri[j], &si[j]) {
                        proof {
                            assert(!same_value(r@[i as int]@[j as int], s@[i as int]@[j as int]));
                        }
                        return false;
                    }
                    j = j + 1;
                }
                i = i + 1;
            }
            true
        },
        _ => false,
    }
}

/// A copy of `v`.
pub fn copy_value(v: &CellValue) -> (r: CellValue)
    ensures
        same_value(r, *v),
    decreases v,
{
    match v {
        CellValue::Number(t) => CellValue::Number(string_of(t.as_str())),
        CellValue::Text(t) => CellValue::Text(string_of(t.as_str())),
        CellValue::Boolean(b) => CellValue::Boolean(*b),
        CellValue::Error(t) => CellValue::Error(string_of(t.as_str())),
        CellValue::Empty => CellValue::Empty,
        CellValue::Date(t) => CellValue::Date(string_of(t.as_str())),
        CellValue::Array(rows) => {
            let mut out: Vec<Vec<CellValue>> = Vec::new();
            let mut i: usize = 0;
            while i < rows.len()
                invariant
                    i <= rows@.len(),
                    *v == CellValue::Array(*rows),
                    out@.len() == i,
                    forall|t: int| 0 <= t < i ==> (#[trigger] out@[t])@.len() == rows@[t]@.len(),
                    forall|t: int, u: int| 0 <= t < i && 0 <= u < out@[t]@.len() ==> same_value(#[trigger] out@[t]@[u], rows@[t]@[u]),
                decreases rows@.len() - i,
            {
                let row = &rows[i];
                let mut copy: Vec<CellValue> = Vec::new();
                let mut j: usize = 0;
                while j < row.len()
                    invariant
                        i < rows@.len(),
                        *v == CellValue::Array(*rows),
                        *row == rows@[i as int],
                        j <= row@.len(),
                        copy@.len() == j,
                        forall|u: int| 0 <= u < j ==> same_value(#[trigger] copy@[u], row@[u]),
                    decreases row@.len() - j,
                {
                    proof {
                        lemma_element_decreases(*v, i as int, j as int);
                    }
                    let c = copy_value(&row[j]);
                    copy.push(c);
                    j = j + 1;
                }
                let ghost before = out@;
                out.push(copy);
                proof {
                    assert forall|t: int, u: int| 0 <= t < i + 1 && 0 <= u < out@[t]@.len() implies same_value(#[trigger] out@[t]@[u], rows@[t]@[u]) by {
                        if t < i {
                            assert(out@[t] == before[t]);
                        }
                    }
                }
                i = i + 1;
            }
            CellValue::Array(out)
        },
    }
}

/// An element of an array value is smaller than the value.
proof fn lemma_element_decreases(v: CellValue, i: int, j: int)
    requires
        v is Array,
        0 <= i < v->Array_0@.len(),
        0 <= j < v->Array_0@[i]@.len(),
    ensures
        decreases_to!(v => v->Array_0@[i]@[j]),
{
    let rows = v->Array_0;
    assert(decreases_to!(v => rows@[i]));
    assert(decreases_to!(rows@[i] => rows@[i]@));
    assert(decreases_to!(rows@[i]@ => rows@[i]@[j]));
}

/// Being the same value is an equivalence.
pub proof fn lemma_same_value(a: CellValue, b: CellValue, c: CellValue)
    ensures
        same_value(a, a),
        same_value(a, b) ==> same_value(b, a),
        same_value(a, b) && same_value(b, c) ==> same_value(a, c),
    decreases a,
{
    match a {
        CellValue::Array(r) => {
            assert forall|i: int, j: int| 0 <= i < r@.len() && 0 <= j < r@[i]@.len() implies same_value(
                #[trigger] r@[i]@[j],
                r@[i]@[j],
            ) by {
                lemma_element_decreases(a, i, j);
                lemma_same_value(r@[i]@[j], r@[i]@[j], r@[i]@[j]);
            }
            if same_value(a, b) {
                let s = b->Array_0;
                assert forall|i: int, j: int| 0 <= i < s@.len() && 0 <= j < s@[i]@.len() implies same_value(
                    #[trigger] s@[i]@[j],
                    r@[i]@[j],
                ) by {
                    lemma_element_decreases(a, i, j);
                    lemma_same_value(r@[i]@[j], s@[i]@[j], s@[i]@[j]);
                }
                assert forall|i: int| 0 <= i < s@.len() implies (#[trigger] s@[i])@.len() == r@[i]@.len() by {
                    assert(r@[i]@.len() == s@[i]@.len());
                }
                if same_value(b, c) {
                    let t = c->Array_0;
                    assert forall|i: int, j: int| 0 <= i < r@.len() && 0 <= j < r@[i]@.len() implies same_value(
                        #[trigger] r@[i]@[j],
                        t@[i]@[j],
                    ) by {
                        lemma_element_decreases(a, i, j);
                        assert(same_value(s@[i]@[j], t@[i]@[j]));
                        lemma_same_value(r@[i]@[j], s@[i]@[j], t@[i]@[j]);
                    }
                    assert forall|i: int| 0 <= i < r@.len() implies (#[trigger] r@[i])@.len() == t@[i]@.len() by {
                        assert(s@[i]@.len() == t@[i]@.len());
                    }
                }
            }
        },
        _ => {},
    }
}
} // verus!
