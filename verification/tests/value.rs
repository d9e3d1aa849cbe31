use truecalc_workbook::json::Json;
use truecalc_workbook::value::{check_array_shape, check_value_limits, parse_value, CellValue};
use truecalc_workbook::WorkbookError;

fn s(t: &str) -> Json {
    Json::String(t.to_string())
}

fn obj(entries: Vec<(&str, Json)>) -> Json {
    Json::Object(entries.into_iter().map(|(k, v)| (k.to_string(), v)).collect())
}

fn tagged(kind: &str, payload: Json) -> Json {
    obj(vec![("type", s(kind)), ("value", payload)])
}

fn err(raw: &Json) -> String {
    parse_value(raw).unwrap_err()
}

#[test]
fn scalars_are_read() {
    assert!(matches!(parse_value(&tagged("number", Json::Number("1.5".into()))), Ok(CellValue::Number(t)) if t == "1.5"));
    assert!(matches!(parse_value(&tagged("date", Json::Number("45000".into()))), Ok(CellValue::Date(t)) if t == "45000"));
    assert!(matches!(parse_value(&tagged("text", s("hi"))), Ok(CellValue::Text(t)) if t == "hi"));
    assert!(matches!(parse_value(&tagged("boolean", Json::Bool(true))), Ok(CellValue::Boolean(true))));
    assert!(matches!(parse_value(&tagged("empty", Json::Null)), Ok(CellValue::Empty)));
    let e = obj(vec![("error", s("#REF!")), ("type", s("error"))]);
    assert!(matches!(parse_value(&e), Ok(CellValue::Error(c)) if c == "#REF!"));
}

#[test]
fn shape_errors_are_reported() {
    assert_eq!(err(&Json::Null), "a cell value must be a JSON object");
    assert_eq!(err(&obj(vec![("value", Json::Null)])), "a cell value requires a string \"type\" field");
    assert_eq!(
        err(&obj(vec![("type", s("number")), ("value", Json::Number("1".into())), ("x", Json::Null)])),
        "a number value must have exactly the fields \"type\" and \"value\""
    );
    assert_eq!(
        err(&tagged("error", s("#N/A"))),
        "a error value must have exactly the fields \"type\" and \"error\""
    );
    assert_eq!(err(&tagged("date", s("x"))), "a date value must be a JSON number");
    assert_eq!(err(&tagged("text", Json::Null)), "a text value must be a JSON string");
    assert_eq!(err(&tagged("boolean", Json::Null)), "a boolean value must be a JSON boolean");
    assert_eq!(err(&obj(vec![("error", Json::Null), ("type", s("error"))])), "an error value must carry a string error code");
    assert_eq!(err(&tagged("empty", Json::Bool(false))), "an empty value must be JSON null");
    assert_eq!(err(&tagged("decimal", Json::Null)), "unknown value type \"decimal\"");
}

fn one() -> Json {
    tagged("number", Json::Number("1".into()))
}

#[test]
fn arrays_are_rectangular_grids_of_scalars() {
    let grid = tagged("array", Json::Array(vec![Json::Array(vec![one(), one()]), Json::Array(vec![one(), tagged("text", s("x"))])]));
    match parse_value(&grid) {
        Ok(CellValue::Array(rows)) => {
            assert_eq!(rows.len(), 2);
            assert_eq!(rows[1].len(), 2);
            assert!(matches!(&rows[1][1], CellValue::Text(t) if t == "x"));
            assert_eq!(check_array_shape(&rows), Ok(()));
        }
        other => panic!("{other:?}"),
    }
    assert_eq!(err(&tagged("array", one())), "an array value must be a 2-D JSON array");
    assert_eq!(err(&tagged("array", Json::Array(vec![]))), "array value must be non-empty");
    assert_eq!(err(&tagged("array", Json::Array(vec![Json::Array(vec![])]))), "array value must be non-empty");
    assert_eq!(err(&tagged("array", Json::Array(vec![one()]))), "array rows must be JSON arrays");
    assert_eq!(
        err(&tagged("array", Json::Array(vec![Json::Array(vec![one()]), Json::Array(vec![one(), one()])]))),
        "array value must be rectangular"
    );
    let nested = tagged("array", Json::Array(vec![Json::Array(vec![one()])]));
    assert_eq!(
        err(&tagged("array", Json::Array(vec![Json::Array(vec![one(), nested])]))),
        "array elements must be scalar values (no nested arrays)"
    );
    assert_eq!(
        err(&tagged("array", Json::Array(vec![Json::Array(vec![one(), tagged("text", Json::Null)])]))),
        "a text value must be a JSON string"
    );
}

#[test]
fn writing_checks_the_array_shape() {
    let n = || CellValue::Number("1".to_string());
    assert_eq!(check_array_shape(&vec![]), Err("array value must be non-empty".to_string()));
    assert_eq!(check_array_shape(&vec![vec![]]), Err("array value must be non-empty".to_string()));
    assert_eq!(check_array_shape(&vec![vec![n()], vec![n(), n()]]), Err("array value must be rectangular".to_string()));
    assert_eq!(
        check_array_shape(&vec![vec![n(), CellValue::Array(vec![vec![n()]])]]),
        Err("array elements must be scalar values (no nested arrays)".to_string())
    );
}

#[test]
fn mutation_caps() {
    assert_eq!(check_value_limits(&CellValue::Text("é".repeat(50_000))), Ok(()));
    assert_eq!(
        check_value_limits(&CellValue::Text("é".repeat(50_001))),
        Err(WorkbookError::ResourceLimit(
            "text value has 50001 scalar values, exceeding the limit of 50000 (scope ADR Decision 5)".to_string()
        ))
    );
    let row = |n: usize| (0..n).map(|_| CellValue::Empty).collect::<Vec<_>>();
    let big: Vec<Vec<CellValue>> = (0..1001).map(|_| row(1000)).collect();
    assert_eq!(
        check_value_limits(&CellValue::Array(big)),
        Err(WorkbookError::ResourceLimit(
            "array value has 1001000 elements, exceeding the limit of 1000000 (scope ADR Decision 5)".to_string()
        ))
    );
}
