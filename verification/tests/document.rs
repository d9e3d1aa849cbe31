use truecalc_workbook::document::{array_dims, validate_document, validate_value_limits};
use truecalc_workbook::json::{check_no_duplicate_keys, find_duplicate_key, reject_bom, sort_keys, Json};

fn s(t: &str) -> Json {
    Json::String(t.to_string())
}

fn obj(entries: Vec<(&str, Json)>) -> Json {
    Json::Object(entries.into_iter().map(|(k, v)| (k.to_string(), v)).collect())
}

fn num(t: &str) -> Json {
    Json::Number(t.to_string())
}

fn number_cell(n: &str) -> Json {
    obj(vec![("value", obj(vec![("type", s("number")), ("value", num(n))]))])
}

fn nulls(n: usize) -> Json {
    Json::Array((0..n).map(|_| Json::Null).collect())
}

fn array_cell(rows: usize, cols: usize) -> Json {
    let value = Json::Array((0..rows).map(|_| nulls(cols)).collect());
    obj(vec![("formula", s("=SEQUENCE(2)")), ("value", obj(vec![("type", s("array")), ("value", value)]))])
}

fn sheet(name: &str, cells: Vec<(&str, Json)>) -> Json {
    obj(vec![("name", s(name)), ("cells", obj(cells))])
}

fn named(name: &str, r: &str) -> Json {
    obj(vec![("name", s(name)), ("ref", s(r))])
}

fn doc(sheets: Vec<Json>, names: Vec<Json>) -> Json {
    obj(vec![("version", s("2")), ("sheets", Json::Array(sheets)), ("names", Json::Array(names))])
}

fn err(d: &Json) -> String {
    validate_document(d).unwrap_err()
}

#[test]
fn a_valid_document_passes() {
    let d = doc(
        vec![
            sheet("Sheet1", vec![("A1", number_cell("1")), ("B1", array_cell(2, 2))]),
            sheet("Other", vec![]),
        ],
        vec![named("total", "Sheet1!A1"), named("block", "'Other'!A1:B2")],
    );
    assert_eq!(validate_document(&d), Err(
        "ref \"'Other'!A1:B2\" is not in canonical form (expected \"Other!A1:B2\", schema spec \u{a7}7)".to_string()
    ));
    let d = doc(
        vec![
            sheet("Sheet1", vec![("A1", number_cell("1")), ("B1", array_cell(2, 2))]),
            sheet("Other", vec![]),
        ],
        vec![named("total", "Sheet1!A1"), named("block", "Other!A1:B2")],
    );
    assert_eq!(validate_document(&d), Ok(()));
}

#[test]
fn the_root_and_sheets_must_have_the_right_shape() {
    assert_eq!(err(&Json::Null), "a workbook document must be a JSON object");
    assert_eq!(err(&obj(vec![("sheets", num("1"))])), "the workbook \"sheets\" field must be an array");
    assert_eq!(err(&doc(vec![num("1")], vec![])), "each worksheet must be a JSON object");
    assert_eq!(err(&doc(vec![obj(vec![("name", num("1"))])], vec![])), "each worksheet requires a string \"name\"");
    assert_eq!(err(&obj(vec![("sheets", Json::Array(vec![]))])), "the workbook \"names\" field must be an array");
}

#[test]
fn too_many_sheets_are_rejected() {
    let sheets: Vec<Json> = (0..257).map(|i| sheet(&format!("S{i}"), vec![])).collect();
    assert_eq!(err(&doc(sheets, vec![])), "workbook has 257 sheets, exceeding the limit of 256 (scope ADR Decision 5)");
}

#[test]
fn sheet_names_are_checked() {
    assert_eq!(err(&doc(vec![sheet("", vec![])], vec![])), "a worksheet name must be non-empty (schema spec \u{a7}3)");
    let long = "x".repeat(101);
    assert_eq!(
        err(&doc(vec![sheet(&long, vec![])], vec![])),
        format!("worksheet name {long:?} has 101 scalar values, exceeding the limit of 100 (schema spec \u{a7}3)")
    );
    assert_eq!(
        err(&doc(vec![sheet("Data", vec![]), sheet("Other", vec![]), sheet("DATA", vec![])], vec![])),
        "duplicate sheet name: \"DATA\" collides with \"Data\" under simple case folding (schema spec \u{a7}2)"
    );
}

#[test]
fn cells_are_checked_in_order() {
    assert_eq!(
        err(&doc(vec![obj(vec![("name", s("S")), ("cells", Json::Array(vec![]))])], vec![])),
        "worksheet \"S\" \"cells\" must be an object"
    );
    assert_eq!(
        err(&doc(vec![sheet("S", vec![("A1", number_cell("1")), ("a2", number_cell("2"))])], vec![])),
        "invalid cell address \"a2\" in sheet \"S\": keys must match ^[A-Z]{1,3}[1-9][0-9]{0,7}$ and lie within the address bounds (schema spec \u{a7}3)"
    );
    assert_eq!(
        err(&doc(vec![sheet("S", vec![("A1", num("1"))])], vec![])),
        "cell \"A1\" in sheet \"S\" must be an object"
    );
    let formula = format!("={}", "1+".repeat(16_384));
    assert_eq!(
        err(&doc(vec![sheet("S", vec![("A1", obj(vec![("formula", s(&formula))]))])], vec![])),
        "formula in cell \"A1\" of sheet \"S\" is 32769 bytes, exceeding the limit of 32768 (scope ADR Decision 5)"
    );
}

#[test]
fn value_limits_are_checked() {
    let text = "é".repeat(50_001);
    let cell = obj(vec![("value", obj(vec![("type", s("text")), ("value", s(&text))]))]);
    assert_eq!(
        err(&doc(vec![sheet("S", vec![("A1", cell)])], vec![])),
        "text value in cell \"A1\" of sheet \"S\" has 50001 scalar values, exceeding the limit of 50000 (scope ADR Decision 5)"
    );
    let ok_text = obj(vec![("type", s("text")), ("value", s(&"é".repeat(50_000)))]);
    assert_eq!(validate_value_limits(&ok_text, "A1", "S"), Ok(()));
    let big = obj(vec![
        ("type", s("array")),
        ("value", Json::Array((0..1001).map(|_| nulls(1000)).collect())),
    ]);
    assert_eq!(
        validate_value_limits(&big, "B2", "S"),
        Err("array value in cell \"B2\" of sheet \"S\" has 1001000 elements, exceeding the limit of 1000000 (scope ADR Decision 5)".to_string())
    );
}

#[test]
fn array_dims_read_rows_and_first_row() {
    assert_eq!(array_dims(&obj(vec![("type", s("array")), ("value", Json::Array(vec![]))])), Some((0, 0)));
    assert_eq!(
        array_dims(&obj(vec![("type", s("array")), ("value", Json::Array(vec![nulls(3), Json::Null]))])),
        Some((2, 3))
    );
    assert_eq!(array_dims(&obj(vec![("type", s("array")), ("value", Json::Array(vec![Json::Null]))])), Some((1, 0)));
    assert_eq!(array_dims(&obj(vec![("type", s("text")), ("value", Json::Array(vec![]))])), None);
    assert_eq!(array_dims(&s("array")), None);
}

#[test]
fn spill_rules_are_checked_per_sheet() {
    assert_eq!(
        err(&doc(vec![sheet("S", vec![("A1", array_cell(2, 2)), ("B2", number_cell("1"))])], vec![])),
        "authored cell at row 2 col 2 in sheet \"S\" lies inside the spill rectangle of the anchor at row 1 col 1 (schema spec \u{a7}5)"
    );
    assert_eq!(
        err(&doc(vec![sheet("S", vec![("A1", array_cell(2, 2)), ("B2", array_cell(2, 2))])], vec![])),
        "authored cell at row 2 col 2 in sheet \"S\" lies inside the spill rectangle of the anchor at row 1 col 1 (schema spec \u{a7}5)"
    );
    assert_eq!(
        err(&doc(vec![sheet("S", vec![("A10000000", array_cell(2, 1))])], vec![])),
        "spill anchor at row 10000000 col 1 in sheet \"S\" reconstructs a 2\u{d7}1 rectangle that exceeds the sheet's address bounds (schema spec \u{a7}5)"
    );
}

#[test]
fn populated_cells_count_whole_rectangles() {
    // Four sheets of 250 000 plain cells would be slow to build; a few big
    // arrays reach the limit instead (each counts its whole rectangle).
    let arr = |rows: usize| obj(vec![("value", obj(vec![
        ("type", s("array")),
        ("value", Json::Array((0..rows).map(|_| nulls(1000)).collect())),
    ]))]);
    let d = doc(vec![sheet("S", vec![("A1", arr(1000)), ("A1001", number_cell("1"))])], vec![]);
    assert_eq!(
        err(&d),
        "workbook has 1000001 populated cells, exceeding the limit of 1000000 (scope ADR Decision 5)"
    );
    let d = doc(vec![sheet("S", vec![("A1", arr(1000))])], vec![]);
    assert_eq!(validate_document(&d), Ok(()));
}

#[test]
fn named_ranges_are_checked() {
    let base = || vec![sheet("Sheet1", vec![]), sheet("Data", vec![])];
    assert_eq!(err(&doc(base(), vec![num("1")])), "each named range must be a JSON object");
    assert_eq!(err(&doc(base(), vec![obj(vec![("ref", s("Sheet1!A1"))])])), "each named range requires a string \"name\"");
    assert_eq!(err(&doc(base(), vec![obj(vec![("name", s("x"))])])), "each named range requires a string \"ref\"");
    assert_eq!(
        err(&doc(base(), vec![named("A1", "Sheet1!A1")])),
        "named-range name \"A1\" is invalid: it must match ^[A-Za-z_][A-Za-z0-9_]*$ and must not be an A1 address, an R1C1-style reference, or a boolean literal (schema spec \u{a7}7)"
    );
    assert_eq!(err(&doc(base(), vec![named("x", "A1")])), "ref \"A1\" must be sheet-qualified (Sheet!A1)");
    assert_eq!(
        err(&doc(base(), vec![named("x", "Missing!A1")])),
        "named range \"x\" refers to sheet \"Missing\", which does not exist (schema spec \u{a7}7)"
    );
    assert_eq!(validate_document(&doc(base(), vec![named("x", "data!A1")])), Ok(()));
    assert_eq!(
        err(&doc(base(), vec![named("Total", "Data!A1"), named("TOTAL", "Data!B1")])),
        "duplicate named range: \"TOTAL\" collides with \"Total\" under simple case folding (schema spec \u{a7}7)"
    );
}

#[test]
fn duplicate_keys_are_found_in_reading_order() {
    let inner_dup = obj(vec![("a", obj(vec![("x", num("1")), ("x", num("2"))])), ("a", num("3"))]);
    assert_eq!(find_duplicate_key(&inner_dup), Some("x".to_string()));
    let outer_dup = obj(vec![("a", num("1")), ("b", Json::Array(vec![obj(vec![("c", Json::Null)])])), ("a", num("2"))]);
    assert_eq!(
        check_no_duplicate_keys(&outer_dup),
        Err("duplicate object key \"a\" is forbidden (schema spec \u{a7}1)".to_string())
    );
    let in_array = Json::Array(vec![obj(vec![("k", Json::Null)]), obj(vec![("k", Json::Null), ("K", Json::Null), ("k", Json::Null)])]);
    assert_eq!(find_duplicate_key(&in_array), Some("k".to_string()));
    assert_eq!(check_no_duplicate_keys(&doc(vec![sheet("S", vec![])], vec![])), Ok(()));
}

#[test]
fn a_byte_order_mark_is_rejected() {
    assert_eq!(reject_bom(b"\xEF\xBB\xBF{}"), Err("a UTF-8 BOM is forbidden (schema spec \u{a7}1)".to_string()));
    assert_eq!(reject_bom(b"{}"), Ok(()));
    assert_eq!(reject_bom(b"\xEF\xBB"), Ok(()));
}

#[test]
fn sorting_keys_orders_every_object_and_keeps_values() {
    let tree = Json::Array(vec![obj(vec![
        ("b", num("2")),
        ("a", obj(vec![("z", Json::Null), ("y", Json::Bool(true))])),
        ("B", s("x")),
    ])]);
    let sorted = sort_keys(&tree);
    let Json::Array(items) = sorted else { panic!("not an array") };
    let Json::Object(es) = &items[0] else { panic!("not an object") };
    let keys: Vec<&str> = es.iter().map(|(k, _)| k.as_str()).collect();
    assert_eq!(keys, vec!["B", "a", "b"]);
    assert!(matches!(&es[2].1, Json::Number(t) if t == "2"));
    assert!(matches!(&es[0].1, Json::String(t) if t == "x"));
    let Json::Object(inner) = &es[1].1 else { panic!("not an object") };
    let inner_keys: Vec<&str> = inner.iter().map(|(k, _)| k.as_str()).collect();
    assert_eq!(inner_keys, vec!["y", "z"]);
    assert!(matches!(inner[0].1, Json::Bool(true)));
}

#[test]
fn cells_of_a_sorted_tree_are_checked_in_key_order() {
    let d = doc(vec![sheet("S", vec![("b1", number_cell("1")), ("a1", number_cell("2"))])], vec![]);
    assert!(err(&d).contains("\"b1\""));
    assert!(err(&sort_keys(&d)).contains("\"a1\""));
}
