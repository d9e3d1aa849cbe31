use truecalc_workbook::cell::Cell;
use truecalc_workbook::value::CellValue;
use truecalc_workbook::worksheet::Worksheet;
use truecalc_workbook::{Address, WorkbookError};

fn a(s: &str) -> Address {
    Address::from_a1(s).unwrap()
}

fn num(text: &str) -> Cell {
    Cell::literal(CellValue::Number(text.to_string())).unwrap()
}

#[test]
fn an_empty_literal_is_refused() {
    assert_eq!(Cell::literal(CellValue::Empty), Err(WorkbookError::EmptyLiteral));
    assert_eq!(Cell::try_from(None, CellValue::Empty), Err(WorkbookError::EmptyLiteral));
    // A formula cell may hold the empty value until it is first evaluated.
    let f = Cell::with_formula("=A1+1".to_string(), CellValue::Empty);
    assert_eq!(f.formula(), Some("=A1+1"));
    assert_eq!(f.value(), &CellValue::Empty);
    let g = Cell::try_from(Some("=1".to_string()), CellValue::Empty).unwrap();
    assert_eq!(g.formula(), Some("=1"));
}

#[test]
fn a_literal_keeps_its_value_and_has_no_formula() {
    let c = Cell::literal(CellValue::Text("hi".to_string())).unwrap();
    assert_eq!(c.value(), &CellValue::Text("hi".to_string()));
    assert_eq!(c.formula(), None);
    let d = Cell::try_from(None, CellValue::Boolean(true)).unwrap();
    assert_eq!(d.value(), &CellValue::Boolean(true));
}

#[test]
fn a_read_gives_back_what_a_write_wrote() {
    let mut w = Worksheet::new("Sheet1".to_string());
    assert!(w.is_empty());
    assert_eq!(w.set(a("B2"), num("1")), None);
    assert_eq!(w.get(a("B2")), Some(&num("1")));
    assert_eq!(w.get(a("B3")), None);
    // Overwriting returns the previous cell.
    assert_eq!(w.set(a("B2"), num("2")), Some(num("1")));
    assert_eq!(w.get(a("B2")), Some(&num("2")));
    assert_eq!(w.len(), 1);
    assert!(w.contains(a("B2")));
    assert_eq!(w.name(), "Sheet1");
}

#[test]
fn clearing_removes_the_entry() {
    let mut w = Worksheet::new("S".to_string());
    w.set(a("A1"), num("1"));
    w.set(a("A2"), num("2"));
    assert_eq!(w.clear(a("A1")), Some(num("1")));
    assert_eq!(w.clear(a("A1")), None);
    assert!(!w.contains(a("A1")));
    assert_eq!(w.len(), 1);
    assert_eq!(w.get(a("A2")), Some(&num("2")));
}

#[test]
fn cells_come_in_canonical_key_order() {
    let mut w = Worksheet::new("S".to_string());
    for key in ["A2", "B1", "A10", "AA1", "A1"] {
        w.set(a(key), num(key.trim_start_matches(char::is_alphabetic)));
    }
    // String order of the keys: "A10" before "A2", "AA1" before "B1".
    let keys: Vec<&str> = w.cells().iter().map(|(k, _)| k.as_str()).collect();
    assert_eq!(keys, vec!["A1", "A10", "A2", "AA1", "B1"]);
    let addrs: Vec<Address> = w.iter().into_iter().map(|(addr, _)| addr).collect();
    assert_eq!(addrs, vec![a("A1"), a("A10"), a("A2"), a("AA1"), a("B1")]);
    assert_eq!(w.iter()[1].1, &num("10"));
}
