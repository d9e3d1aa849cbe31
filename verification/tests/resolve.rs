use truecalc_workbook::depgraph::NameTarget;
use truecalc_workbook::resolve::{
    resolve_name_ref, resolve_ref, resolve_table_precedent, resolve_table_ref, FormulaCell, FormulaRef, TableCells,
    WorkbookFacts,
};
use truecalc_workbook::sheet_index::SheetIndex;
use truecalc_workbook::value::CellValue;
use truecalc_workbook::workbook::{CellInput, Workbook};
use truecalc_workbook::{EngineFlavor, Worksheet};
use truecalc_workbook::{Address, CellRef, DependencyGraph, NamedRange, Precedent, RangeRef, Table};

fn a(s: &str) -> Address {
    Address::from_a1(s).unwrap()
}

fn cell(sheet: &str, s: &str) -> CellRef {
    CellRef { sheet: sheet.to_string(), addr: a(s) }
}

/// Sheets `Data` and `Sum`; a name `Rate` -> Data!B1; a table `Recipe`
/// over Data!A1:C4 with headers item / qty / price.
fn facts() -> WorkbookFacts {
    WorkbookFacts {
        sheets: SheetIndex::build(&["Data".to_string(), "Sum".to_string()]),
        names: vec![NamedRange { name: "Rate".to_string(), reference: "Data!B1".to_string() }],
        tables: vec![Table { name: "Recipe".to_string(), reference: "Data!A1:C4".to_string() }],
        texts: vec![
            (0, a("A1"), "item".to_string()),
            (0, a("B1"), "qty".to_string()),
            (0, a("C1"), "price".to_string()),
        ],
    }
}

fn cell_ref(sheet: Option<&str>, s: &str, display: &str) -> FormulaRef {
    let ad = a(s);
    FormulaRef::Cell { sheet: sheet.map(|x| x.to_string()), row: ad.row, col: ad.column, display: display.to_string() }
}

#[test]
fn bare_cell_resolves_on_own_sheet() {
    let f = facts();
    let p = resolve_ref(&cell_ref(None, "B2", "B2"), "sum", a("A1"), &f);
    assert_eq!(p, Precedent::Cell(cell("sum", "B2")));
}

#[test]
fn qualified_cell_folds_the_sheet_name() {
    let f = facts();
    let p = resolve_ref(&cell_ref(Some("DATA"), "B2", "DATA!B2"), "sum", a("A1"), &f);
    assert_eq!(p, Precedent::Cell(cell("data", "B2")));
}

#[test]
fn unknown_sheet_is_unresolved_with_its_text() {
    let f = facts();
    let p = resolve_ref(&cell_ref(Some("Sheet9"), "A1", "Sheet9!A1"), "sum", a("A1"), &f);
    assert_eq!(p, Precedent::Unresolved("Sheet9!A1".to_string()));
}

#[test]
fn off_grid_cell_is_unresolved() {
    let f = facts();
    let r = FormulaRef::Cell { sheet: None, row: 10_000_001, col: 1, display: "A10000001".to_string() };
    assert_eq!(resolve_ref(&r, "sum", a("A1"), &f), Precedent::Unresolved("A10000001".to_string()));
}

#[test]
fn range_corners_are_normalized() {
    let f = facts();
    let r = FormulaRef::Range {
        sheet: None,
        start_row: 4,
        start_col: 1,
        end_row: 2,
        end_col: 3,
        display: "A4:C2".to_string(),
    };
    let p = resolve_ref(&r, "sum", a("A1"), &f);
    assert_eq!(p, Precedent::Range(RangeRef { sheet: "sum".to_string(), start: a("A2"), end: a("C4") }));
}

#[test]
fn names_resolve_when_defined() {
    let f = facts();
    assert_eq!(resolve_ref(&FormulaRef::Name("RATE".to_string()), "sum", a("A1"), &f), Precedent::Name("rate".to_string()));
    assert_eq!(
        resolve_ref(&FormulaRef::Name("Missing".to_string()), "sum", a("A1"), &f),
        Precedent::Unresolved("Missing".to_string())
    );
}

#[test]
fn whole_column_table_reference_is_one_column() {
    let f = facts();
    let p = resolve_table_precedent(&f, Some("recipe"), "QTY", false, "sum", a("A1"));
    assert_eq!(p, Precedent::Range(RangeRef { sheet: "data".to_string(), start: a("B1"), end: a("B4") }));
}

#[test]
fn this_row_reference_is_one_cell_of_own_row() {
    let f = facts();
    let p = resolve_table_precedent(&f, None, "price", true, "data", a("A3"));
    assert_eq!(p, Precedent::Cell(cell("data", "C3")));
}

#[test]
fn this_row_outside_the_table_is_unresolved() {
    let f = facts();
    let p = resolve_table_precedent(&f, Some("Recipe"), "price", true, "sum", a("A3"));
    assert_eq!(p, Precedent::Unresolved("Data!A1:C4".to_string()));
}

#[test]
fn unqualified_reference_outside_any_table_is_unresolved() {
    let f = facts();
    let p = resolve_table_precedent(&f, None, "qty", true, "data", a("A1"));
    assert_eq!(p, Precedent::Unresolved("[@qty]".to_string()));
    let q = resolve_table_precedent(&f, Some("Nope"), "qty", false, "data", a("A1"));
    assert_eq!(q, Precedent::Unresolved("Nope[qty]".to_string()));
}

#[test]
fn unknown_column_is_unresolved() {
    let f = facts();
    let p = resolve_table_precedent(&f, Some("Recipe"), "weight", false, "sum", a("A1"));
    assert_eq!(p, Precedent::Unresolved("Data!A1:C4".to_string()));
}

#[test]
fn name_refs_resolve_to_cells_and_ranges() {
    let f = facts();
    assert_eq!(resolve_name_ref("Data!B1", &f), Some(NameTarget::Cell(cell("data", "B1"))));
    assert_eq!(
        resolve_name_ref("Data!B1:C2", &f),
        Some(NameTarget::Range(RangeRef { sheet: "data".to_string(), start: a("B1"), end: a("C2") }))
    );
    assert_eq!(resolve_name_ref("Other!B1", &f), None);
    assert_eq!(resolve_name_ref("Data!b1", &f), None);
}

#[test]
fn build_resolves_every_formula_cell() {
    let f = facts();
    let formulas = vec![
        FormulaCell {
            sheet: 1,
            addr: a("A1"),
            formula: "=Rate*Data!B2+Rate".to_string(),
            refs: Some(vec![
                FormulaRef::Name("Rate".to_string()),
                cell_ref(Some("Data"), "B2", "Data!B2"),
                FormulaRef::Name("Rate".to_string()),
            ]),
        },
        FormulaCell { sheet: 0, addr: a("B1"), formula: "=1+".to_string(), refs: None },
        FormulaCell { sheet: 0, addr: a("B2"), formula: "=B1".to_string(), refs: Some(vec![cell_ref(None, "B1", "B1")]) },
    ];
    let g = DependencyGraph::build(&f, &formulas);
    assert_eq!(
        g.precedents_of(&cell("sum", "A1")).unwrap(),
        &[Precedent::Name("rate".to_string()), Precedent::Cell(cell("data", "B2"))][..]
    );
    assert_eq!(g.precedents_of(&cell("data", "B1")).unwrap(), &[Precedent::Unresolved("=1+".to_string())][..]);
    // Sum!A1 reads Data!B1 through the name and Data!B2 directly.
    assert_eq!(g.direct_dependents_of(&cell("data", "B1")), vec![cell("data", "B2"), cell("sum", "A1")]);
    assert_eq!(g.topological_order().unwrap(), vec![cell("data", "B1"), cell("data", "B2"), cell("sum", "A1")]);
}

#[test]
fn value_time_column_reference_reads_the_data_rows() {
    let f = facts();
    let r = resolve_table_ref(&f, Some("RECIPE"), "Qty", false, None);
    assert_eq!(r, Some(TableCells::Column { sheet: "data".to_string(), column: 2, first_row: 2, last_row: 4 }));
}

#[test]
fn value_time_this_row_reads_the_own_row_cell() {
    let f = facts();
    assert_eq!(resolve_table_ref(&f, None, "price", true, Some(("data", a("B3")))), Some(TableCells::Cell(cell("data", "C3"))));
    // In the header row, or with no current cell: a reference error.
    assert_eq!(resolve_table_ref(&f, None, "price", true, Some(("data", a("B1")))), None);
    assert_eq!(resolve_table_ref(&f, Some("Recipe"), "price", true, None), None);
    assert_eq!(resolve_table_ref(&f, None, "price", false, None), None);
}

#[test]
fn value_time_unknown_table_or_column_is_a_reference_error() {
    let f = facts();
    assert_eq!(resolve_table_ref(&f, Some("Nope"), "qty", false, None), None);
    assert_eq!(resolve_table_ref(&f, Some("Recipe"), "weight", false, None), None);
    assert_eq!(resolve_table_ref(&f, None, "qty", false, Some(("sum", a("B3")))), None);
}

#[test]
fn header_only_table_has_an_empty_column() {
    let mut f = facts();
    f.tables.push(Table { name: "Head".to_string(), reference: "Sum!A1:B1".to_string() });
    f.texts.push((1, a("A1"), "k".to_string()));
    assert_eq!(
        resolve_table_ref(&f, Some("head"), "K", false, None),
        Some(TableCells::Column { sheet: "sum".to_string(), column: 1, first_row: 2, last_row: 1 })
    );
}

#[test]
fn facts_of_a_workbook_hold_its_sheets_names_and_text_cells() {
    let mut w = Workbook::new(EngineFlavor::Sheets);
    w.add_sheet(Worksheet::new("Data".to_string())).unwrap();
    w.add_sheet(Worksheet::new("Sum".to_string())).unwrap();
    w.set("Data", a("A1"), CellInput::Literal(CellValue::Text("item".to_string())), None, false).unwrap();
    w.set("Data", a("B1"), CellInput::Literal(CellValue::Number("3".to_string())), None, false).unwrap();
    w.set("Sum", a("C2"), CellInput::Literal(CellValue::Text("x".to_string())), None, false).unwrap();
    w.define_name("Rate", "Data!B1").unwrap();
    w.define_table("Recipe", "Data!A1:A3").unwrap();
    let f = WorkbookFacts::of(&w);
    assert_eq!(f.sheets.index_of_name("sum"), Some(1));
    assert_eq!(f.names, vec![NamedRange { name: "Rate".to_string(), reference: "Data!B1".to_string() }]);
    assert_eq!(f.tables, vec![Table { name: "Recipe".to_string(), reference: "Data!A1:A3".to_string() }]);
    assert_eq!(f.texts, vec![(0, a("A1"), "item".to_string()), (1, a("C2"), "x".to_string())]);
    assert_eq!(resolve_table_precedent(&f, Some("recipe"), "ITEM", false, "sum", a("A1")), Precedent::Range(RangeRef {
        sheet: "data".to_string(),
        start: a("A1"),
        end: a("A3"),
    }));
}

#[test]
fn of_workbook_makes_every_formula_cell_a_node() {
    let mut w = Workbook::new(EngineFlavor::Sheets);
    w.add_sheet(Worksheet::new("Data".to_string())).unwrap();
    w.add_sheet(Worksheet::new("Sum".to_string())).unwrap();
    w.set("Data", a("B1"), CellInput::Literal(CellValue::Number("2".to_string())), None, false).unwrap();
    w.set("Sum", a("A1"), CellInput::Formula("=Data!B1*2".to_string()), None, false).unwrap();
    w.set("Data", a("C1"), CellInput::Formula("=B1".to_string()), None, false).unwrap();
    let listed = w.formula_cells();
    assert_eq!(
        listed,
        vec![(0, a("C1"), "=B1".to_string()), (1, a("A1"), "=Data!B1*2".to_string())]
    );
    let parsed = vec![
        Some(vec![cell_ref(None, "B1", "B1")]),
        Some(vec![cell_ref(Some("Data"), "B1", "Data!B1")]),
    ];
    let formulas: Vec<FormulaCell> = listed
        .into_iter()
        .zip(parsed)
        .map(|((sheet, addr, formula), refs)| FormulaCell { sheet, addr, formula, refs })
        .collect();
    let g = DependencyGraph::of_workbook(&w, &formulas);
    assert_eq!(g.formula_cells(), vec![cell("data", "C1"), cell("sum", "A1")]);
    assert!(!g.is_formula(&cell("data", "B1")));
    assert_eq!(g.direct_dependents_of(&cell("data", "B1")), vec![cell("data", "C1"), cell("sum", "A1")]);
}
