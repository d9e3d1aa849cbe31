use truecalc_workbook::grid_spills::GridSpillIndex;
use truecalc_workbook::recalc_read::{
    grid_spilled_value, spilled_value, target_sheet, value_in, PassState, Read, RefValue,
};
use truecalc_workbook::resolve::{FormulaRef, WorkbookFacts};
use truecalc_workbook::value::CellValue;
use truecalc_workbook::workbook::{CellInput, Workbook};
use truecalc_workbook::{spill_rect, Address, CellRef, EngineFlavor, Worksheet};

fn a(s: &str) -> Address {
    Address::from_a1(s).unwrap()
}

fn cell(sheet: &str, s: &str) -> CellRef {
    CellRef::new(sheet.to_string(), a(s))
}

fn n(t: &str) -> CellValue {
    CellValue::Number(t.to_string())
}

fn grid2() -> CellValue {
    CellValue::Array(vec![vec![n("1"), n("2")], vec![n("3"), n("4")]])
}

/// Sheet `Data`: A1 = 10, and an array anchor at C1 spilling into C1:D2.
fn book() -> Workbook {
    let mut w = Workbook::new(EngineFlavor::Sheets);
    w.add_sheet(Worksheet::new("Data".to_string())).unwrap();
    w.set("Data", a("A1"), CellInput::Literal(n("10")), None, false).unwrap();
    w.set("Data", a("C1"), CellInput::Literal(grid2()), None, false).unwrap();
    w
}

fn empty_state() -> PassState {
    PassState { new_values: vec![], spills: vec![], prev_values: vec![], prev_spills: vec![], cycle: vec![] }
}

#[test]
fn authored_cells_and_stored_spills_are_read_from_the_grid() {
    let w = book();
    let grid = GridSpillIndex::build(&w.stored_sheets(), &[]);
    let st = empty_state();
    assert_eq!(st.cell_value(&w, &grid, "data", a("A1")), Read::Value(&n("10")));
    assert_eq!(st.cell_value(&w, &grid, "data", a("D2")), Read::Value(&n("4")));
    assert_eq!(st.cell_value(&w, &grid, "data", a("E9")), Read::Empty);
    assert_eq!(grid_spilled_value(&w, &grid, "data", a("C2")), Some(&n("3")));
    assert_eq!(grid_spilled_value(&w, &grid, "data", a("C1")), None);
}

#[test]
fn a_recomputed_anchor_is_not_read_through_the_stored_grid() {
    let w = book();
    let grid = GridSpillIndex::build(&w.stored_sheets(), &[cell("data", "C1")]);
    let st = empty_state();
    assert_eq!(st.cell_value(&w, &grid, "data", a("D2")), Read::Empty);
}

#[test]
fn this_pass_wins_over_the_grid_and_the_previous_pass() {
    let w = book();
    let grid = GridSpillIndex::build(&w.stored_sheets(), &[]);
    let mut st = empty_state();
    st.new_values.push((cell("data", "A1"), n("11")));
    st.prev_values.push((cell("data", "B5"), n("7")));
    st.new_values.push((cell("data", "F1"), CellValue::Array(vec![vec![n("5")], vec![n("6")]])));
    st.spills.push((cell("data", "F1"), spill_rect(a("F1"), 2, 1).unwrap()));
    assert_eq!(st.cell_value(&w, &grid, "data", a("A1")), Read::Value(&n("11")));
    assert_eq!(st.cell_value(&w, &grid, "data", a("B5")), Read::Value(&n("7")));
    assert_eq!(st.cell_value(&w, &grid, "data", a("F2")), Read::Value(&n("6")));
    assert_eq!(spilled_value(&st.spills, &st.new_values, "data", a("F2")), Some(&n("6")));
    assert_eq!(spilled_value(&st.spills, &st.new_values, "other", a("F2")), None);
    assert_eq!(value_in(&st.new_values, "data", a("A1")), Some(&n("11")));
    st.cycle.push(cell("data", "A1"));
    assert_eq!(st.cell_value(&w, &grid, "data", a("A1")), Read::RefError);
}

#[test]
fn a_reference_reads_its_own_or_the_named_sheet() {
    let w = book();
    assert_eq!(target_sheet(&w, "own", None), Some("own".to_string()));
    assert_eq!(target_sheet(&w, "own", Some("DATA")), Some("data".to_string()));
    assert_eq!(target_sheet(&w, "own", Some("Missing")), None);
}

#[test]
fn a_range_reads_its_cells_in_reading_order() {
    let w = book();
    let grid = GridSpillIndex::build(&w.stored_sheets(), &[]);
    let st = empty_state();
    // A1:D1 read from D1 back to A1: corners in either order.
    let row = st.resolve_range(&w, &grid, "data", 1, 4, 1, 1);
    assert!(!row.vertical);
    // C1 is the anchor: its whole array reads as its first element.
    assert_eq!(row.cells, vec![Read::Value(&n("10")), Read::Empty, Read::Value(&n("1")), Read::Value(&n("2"))]);
    let col = st.resolve_range(&w, &grid, "data", 1, 4, 2, 4);
    assert!(col.vertical);
    assert_eq!(col.cells, vec![Read::Value(&n("2")), Read::Value(&n("4"))]);
    // Row 0 is outside the grid.
    let off = st.resolve_range(&w, &grid, "data", 0, 1, 1, 1);
    assert_eq!(off.cells, vec![Read::RefError, Read::Value(&n("10"))]);
}

#[test]
fn references_read_cells_ranges_names_and_table_columns() {
    let mut w = book();
    w.add_sheet(Worksheet::new("Sum".to_string())).unwrap();
    w.set("Data", a("A2"), CellInput::Literal(n("20")), None, false).unwrap();
    w.set("Data", a("A3"), CellInput::Literal(n("30")), None, false).unwrap();
    w.set("Data", a("F1"), CellInput::Literal(CellValue::Text("qty".to_string())), None, false).unwrap();
    w.set("Data", a("F2"), CellInput::Literal(n("5")), None, false).unwrap();
    w.define_name("Top", "Data!A1").unwrap();
    w.define_name("Col", "Data!A1:A3").unwrap();
    w.define_table("T", "Data!F1:F3").unwrap();
    let facts = WorkbookFacts::of(&w);
    let grid = GridSpillIndex::build(&w.stored_sheets(), &[]);
    let st = empty_state();
    let cell = FormulaRef::Cell { sheet: Some("DATA".to_string()), row: 1, col: 1, display: "DATA!A1".to_string() };
    assert!(matches!(st.resolve(&w, &grid, &facts, "sum", None, &cell), RefValue::One(Read::Value(v)) if *v == n("10")));
    let missing = FormulaRef::Cell { sheet: Some("Nope".to_string()), row: 1, col: 1, display: "Nope!A1".to_string() };
    assert!(matches!(st.resolve(&w, &grid, &facts, "sum", None, &missing), RefValue::RefError));
    match st.resolve(&w, &grid, &facts, "data", None, &FormulaRef::Name("col".to_string())) {
        RefValue::Many(m) => {
            assert!(m.vertical);
            assert_eq!(m.cells, vec![Read::Value(&n("10")), Read::Value(&n("20")), Read::Value(&n("30"))]);
        }
        _ => panic!("a range name reads a range"),
    }
    assert!(matches!(
        st.resolve(&w, &grid, &facts, "data", None, &FormulaRef::Name("TOP".to_string())),
        RefValue::One(Read::Value(v)) if *v == n("10")
    ));
    assert!(matches!(
        st.resolve(&w, &grid, &facts, "data", None, &FormulaRef::Name("nope".to_string())),
        RefValue::NameError
    ));
    let column = FormulaRef::Table { table: Some("t".to_string()), column: "QTY".to_string(), this_row: false };
    match st.resolve(&w, &grid, &facts, "sum", None, &column) {
        RefValue::Many(m) => {
            assert!(m.vertical);
            assert_eq!(m.cells, vec![Read::Value(&n("5")), Read::Empty]);
        }
        _ => panic!("a table column reads its data rows"),
    }
    let here = FormulaRef::Table { table: None, column: "qty".to_string(), this_row: true };
    assert!(matches!(
        st.resolve(&w, &grid, &facts, "data", Some(("data", a("F2"))), &here),
        RefValue::One(Read::Value(v)) if *v == n("5")
    ));
    assert!(matches!(st.resolve(&w, &grid, &facts, "data", None, &here), RefValue::RefError));
}

#[test]
fn a_table_header_computed_this_pass_names_its_column() {
    let mut w = Workbook::new(EngineFlavor::Sheets);
    w.add_sheet(Worksheet::new("Data".to_string())).unwrap();
    // The header cell G1 is a formula; this pass computes it to "price".
    w.set("Data", a("G1"), CellInput::Formula("=\"price\"".to_string()), None, false).unwrap();
    w.set("Data", a("G2"), CellInput::Literal(n("7")), None, false).unwrap();
    w.define_table("T", "Data!G1:G2").unwrap();
    let facts = WorkbookFacts::of(&w);
    let grid = GridSpillIndex::build(&w.stored_sheets(), &[]);
    let column = FormulaRef::Table { table: Some("T".to_string()), column: "Price".to_string(), this_row: false };
    // Before the header is computed it reads empty: no such column.
    assert!(matches!(empty_state().resolve(&w, &grid, &facts, "data", None, &column), RefValue::RefError));
    let mut st = empty_state();
    st.new_values.push((cell("data", "G1"), CellValue::Text("price".to_string())));
    match st.resolve(&w, &grid, &facts, "data", None, &column) {
        RefValue::Many(m) => assert_eq!(m.cells, vec![Read::Value(&n("7"))]),
        _ => panic!("the computed header names the column"),
    }
}
