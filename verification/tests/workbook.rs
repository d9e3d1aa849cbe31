use truecalc_workbook::value::CellValue;
use truecalc_workbook::workbook::{CellInput, Change, Resolved, Workbook};
use truecalc_workbook::CellRef;
use truecalc_workbook::worksheet::Worksheet;
use truecalc_workbook::{Address, EngineFlavor, WorkbookError};

fn a(s: &str) -> Address {
    Address::from_a1(s).unwrap()
}

fn num(text: &str) -> CellInput {
    CellInput::Literal(CellValue::Number(text.to_string()))
}

fn book(names: &[&str]) -> Workbook {
    let mut w = Workbook::new(EngineFlavor::Sheets);
    for n in names {
        w.add_sheet(Worksheet::new(n.to_string())).unwrap();
    }
    w
}

fn sheet_names(w: &Workbook) -> Vec<&str> {
    w.sheets().iter().map(|s| s.name()).collect()
}

#[test]
fn a_new_workbook_is_empty_and_engine_locked() {
    let w = Workbook::new(EngineFlavor::Excel);
    assert_eq!(w.engine(), EngineFlavor::Excel);
    assert_eq!(w.version(), "2");
    assert!(w.sheets().is_empty());
    assert!(w.names().is_empty());
    assert!(w.tables().is_empty());
    assert_eq!(w.total_cells(), 0);
}

#[test]
fn sheets_are_added_inserted_and_found_case_insensitively() {
    let mut w = book(&["One", "Three"]);
    assert_eq!(w.insert_sheet(1, Worksheet::new("Two".to_string())), Ok(()));
    assert_eq!(sheet_names(&w), vec!["One", "Two", "Three"]);
    assert_eq!(w.sheet_index("THREE"), Some(2));
    assert_eq!(w.sheet("two").unwrap().name(), "Two");
    assert!(w.sheet("Four").is_none());
    assert_eq!(w.add_sheet(Worksheet::new("Four".to_string())), Ok(3));
}

#[test]
fn a_colliding_or_misplaced_sheet_is_refused_and_nothing_changes() {
    let mut w = book(&["Data"]);
    assert_eq!(
        w.add_sheet(Worksheet::new("DATA".to_string())),
        Err(WorkbookError::SheetManagement(
            "cannot add sheet \"DATA\": it collides with the existing sheet \"Data\" under simple case folding \
             (schema spec §2)"
                .to_string()
        ))
    );
    assert_eq!(
        w.insert_sheet(5, Worksheet::new("X".to_string())),
        Err(WorkbookError::SheetManagement("cannot insert sheet at position 5: only 2 tab slots exist".to_string()))
    );
    assert_eq!(
        w.add_sheet(Worksheet::new(String::new())),
        Err(WorkbookError::SheetManagement("a worksheet name must be non-empty (schema spec §3)".to_string()))
    );
    assert_eq!(sheet_names(&w), vec!["Data"]);
}

#[test]
fn sheets_move_and_are_removed() {
    let mut w = book(&["a", "b", "c"]);
    assert_eq!(w.move_sheet(0, 2), Ok(()));
    assert_eq!(sheet_names(&w), vec!["b", "c", "a"]);
    assert_eq!(
        w.move_sheet(0, 3),
        Err(WorkbookError::SheetManagement("cannot move sheet from 0 to 3: valid tab positions are 0..3".to_string()))
    );
    assert_eq!(w.remove_sheet("C").unwrap().name(), "c");
    assert!(w.remove_sheet("c").is_none());
    assert_eq!(sheet_names(&w), vec!["b", "a"]);
}

#[test]
fn renaming_repoints_names_and_tables() {
    let mut w = book(&["Data", "Other"]);
    w.define_name("Total", "Data!A1").unwrap();
    w.define_name("Elsewhere", "Other!B2").unwrap();
    w.define_table("Sales", "data!A1:B3").unwrap();
    assert_eq!(w.rename_sheet("DATA", "My Data", &[]), Ok(()));
    assert_eq!(sheet_names(&w), vec!["My Data", "Other"]);
    assert_eq!(w.name("total").unwrap().reference, "'My Data'!A1");
    assert_eq!(w.name("elsewhere").unwrap().reference, "Other!B2");
    assert_eq!(w.table("sales").unwrap().reference, "'My Data'!A1:B3");
    assert_eq!(
        w.rename_sheet("Other", "my data", &[]),
        Err(WorkbookError::SheetManagement(
            "cannot rename sheet to \"my data\": it collides with another sheet under simple case folding (schema spec §2)"
                .to_string()
        ))
    );
    // A case change of the same sheet is allowed.
    assert_eq!(w.rename_sheet("my data", "MY DATA", &[]), Ok(()));
    assert_eq!(
        w.rename_sheet("Nope", "X", &[]),
        Err(WorkbookError::SheetManagement("cannot rename: no sheet named \"Nope\"".to_string()))
    );
}

#[test]
fn renaming_takes_the_rewritten_formulas() {
    let mut w = Workbook::new(EngineFlavor::Sheets);
    w.add_sheet(Worksheet::new("Data".to_string())).unwrap();
    w.add_sheet(Worksheet::new("Other".to_string())).unwrap();
    w.define_name("N", "Data!A1").unwrap();
    w.set("Other", a("A1"), CellInput::Formula("=Data!B1+1".to_string()), None, false).unwrap();
    w.set("Other", a("A2"), CellInput::Formula("=1+1".to_string()), None, false).unwrap();
    w.set("Data", a("B1"), num("5"), None, false).unwrap();
    assert_eq!(
        w.formula_cells(),
        vec![(1, a("A1"), "=Data!B1+1".to_string()), (1, a("A2"), "=1+1".to_string())]
    );
    // What the formula parser gives back for the formulas that name the sheet;
    // an entry for a literal cell, or a cell that is absent, changes nothing.
    let rewrites = vec![
        (1, a("A1"), "='Q2 Data'!B1+1".to_string()),
        (0, a("B1"), "=ignored".to_string()),
        (1, a("Z9"), "=ignored".to_string()),
    ];
    assert_eq!(w.rename_sheet("data", "Q2 Data", &rewrites), Ok(()));
    assert_eq!(w.sheets()[0].name(), "Q2 Data");
    assert_eq!(w.name("N").unwrap().reference, "'Q2 Data'!A1");
    assert_eq!(w.get("Other", a("A1")).unwrap().formula(), Some("='Q2 Data'!B1+1"));
    assert_eq!(w.get("Other", a("A2")).unwrap().formula(), Some("=1+1"));
    assert_eq!(w.get("Q2 Data", a("B1")).unwrap().formula(), None);
    assert_eq!(w.get("Q2 Data", a("B1")).unwrap().value(), &CellValue::Number("5".to_string()));
    assert!(w.get("Other", a("Z9")).is_none());
    assert_eq!(w.sheet_index("Q2 Data"), Some(0));
}

#[test]
fn a_refused_rename_takes_no_rewrite() {
    let mut w = book(&["Data", "Other"]);
    w.set("Other", a("A1"), CellInput::Formula("=Data!B1".to_string()), None, false).unwrap();
    let rewrites = vec![(1, a("A1"), "=X!B1".to_string())];
    assert!(w.rename_sheet("Data", "other", &rewrites).is_err());
    assert_eq!(w.get("Other", a("A1")).unwrap().formula(), Some("=Data!B1"));
    assert_eq!(w.sheets()[0].name(), "Data");
}

#[test]
fn a_workbook_read_gives_back_what_a_write_wrote() {
    let mut w = book(&["S"]);
    assert_eq!(w.set("s", a("B2"), num("1"), None, false), Ok(None));
    assert_eq!(w.get("S", a("B2")).unwrap().value(), &CellValue::Number("1".to_string()));
    let prev = w.set("S", a("B2"), CellInput::Formula("=1+1".to_string()), None, false).unwrap().unwrap();
    assert_eq!(prev.value(), &CellValue::Number("1".to_string()));
    let c = w.get("S", a("B2")).unwrap();
    assert_eq!(c.formula(), Some("=1+1"));
    assert_eq!(c.value(), &CellValue::Empty);
    assert_eq!(w.total_cells(), 1);
    assert!(w.clear("s", a("B2")).is_some());
    assert!(w.get("S", a("B2")).is_none());
    assert!(w.clear("s", a("B2")).is_none());
    assert!(w.clear("nope", a("B2")).is_none());
}

#[test]
fn rejected_writes_name_their_reason() {
    let mut w = book(&["S"]);
    assert_eq!(w.set("S", a("A1"), CellInput::Literal(CellValue::Empty), None, false), Err(WorkbookError::EmptyLiteral));
    assert_eq!(
        w.set("T", a("A1"), num("1"), None, false),
        Err(WorkbookError::UnknownSheet("cannot set cell: no sheet named \"T\"".to_string()))
    );
    assert_eq!(
        w.set("S", a("A1"), CellInput::Formula("=1+".to_string()), Some("unexpected end of input".to_string()), false),
        Err(WorkbookError::InvalidFormula("formula \"=1+\" is invalid: unexpected end of input".to_string()))
    );
    let long = format!("={}", "1+".repeat(20_000));
    assert!(matches!(
        w.set("S", a("A1"), CellInput::Formula(long), None, false),
        Err(WorkbookError::ResourceLimit(m)) if m.starts_with("formula is 40001 bytes")
    ));
    assert_eq!(w.total_cells(), 0);
}

#[test]
fn a_write_below_a_table_grows_it() {
    let mut w = book(&["S"]);
    w.define_table("T", "S!A1:B3").unwrap();
    w.set("S", a("A4"), num("7"), None, false).unwrap();
    assert_eq!(w.table("t").unwrap().reference, "S!A1:B4");
    w.set("S", a("C5"), num("7"), None, false).unwrap();
    assert_eq!(w.table("t").unwrap().reference, "S!A1:B4");
}

#[test]
fn spilled_cells_resolve_to_their_anchor_element() {
    let mut w = book(&["S"]);
    let grid = vec![
        vec![CellValue::Number("1".to_string()), CellValue::Number("2".to_string())],
        vec![CellValue::Number("3".to_string()), CellValue::Number("4".to_string())],
    ];
    w.set("S", a("B2"), CellInput::Literal(CellValue::Array(grid)), None, false).unwrap();
    let four = CellValue::Number("4".to_string());
    assert_eq!(w.resolved("s", a("C3")), Some(Resolved { value: &four, anchor: Some(a("B2")) }));
    assert_eq!(w.spill_anchor("s", a("C3")), Some(a("B2")));
    // The anchor itself is authored.
    assert_eq!(w.resolved("S", a("B2")).unwrap().anchor, None);
    assert_eq!(w.spill_anchor("S", a("B2")), None);
    assert_eq!(w.resolved("S", a("D4")), None);
    assert_eq!(w.resolved("Nope", a("C3")), None);
}

#[test]
fn a_removed_sheet_leaves_its_names_dangling_until_they_are_fixed() {
    let mut w = book(&["Data", "Other"]);
    w.define_name("Total", "Data!A1").unwrap();
    assert_eq!(w.check_no_dangling_refs(), Ok(()));
    w.remove_sheet("data");
    assert_eq!(
        w.check_no_dangling_refs(),
        Err(WorkbookError::Validation(
            "named range \"Total\" refers to sheet \"Data\", which does not exist (schema spec §7)".to_string()
        ))
    );
    w.remove_name("total");
    assert_eq!(w.check_no_dangling_refs(), Ok(()));
}

#[test]
fn names_are_checked_against_the_workbook_s_sheets() {
    let mut w = book(&["Data"]);
    assert!(w.define_name("Rate", "Missing!A1").is_err());
    assert!(w.define_name("Rate", "Data!A1").is_ok());
    assert!(w.redefine_name("RATE", "Data!B1").is_ok());
    assert_eq!(w.name("rate").unwrap().reference, "Data!B1");
    assert_eq!(w.name_index("Rate"), Some(0));
    assert!(w.define_table("Rate", "Data!A1:B2").is_err());
    assert!(w.define_table("Tbl", "Data!A1:B2").is_ok());
    assert!(w.redefine_table("tbl", "Data!A1:B3").is_ok());
    assert_eq!(w.table_index("TBL"), Some(0));
    assert_eq!(w.remove_table("tbl").unwrap().name, "Tbl");
    assert!(w.remove_name("rate").is_some());
}

#[test]
fn applying_results_keeps_formulas_and_lists_changes_in_tab_row_column_order() {
    let n = |t: &str| CellValue::Number(t.to_string());
    let mut w = book(&["Data", "Sum"]);
    w.set("Data", a("A1"), CellInput::Formula("=1+1".to_string()), None, false).unwrap();
    w.set("Data", a("B1"), num("5"), None, false).unwrap();
    w.set("Sum", a("A1"), CellInput::Formula("=Data!A1+1".to_string()), None, false).unwrap();
    let results = vec![
        (CellRef::new("sum".to_string(), a("A1")), n("3")),
        (CellRef::new("data".to_string(), a("A1")), n("2")),
        (CellRef::new("data".to_string(), a("B1")), n("5")),
        (CellRef::new("nope".to_string(), a("A1")), n("1")),
        (CellRef::new("data".to_string(), a("C1")), n("4")),
    ];
    let changes = w.apply_results(&results);
    assert_eq!(
        changes,
        vec![
            Change { sheet: "Data".to_string(), addr: a("A1"), old: CellValue::Empty, new: n("2") },
            Change { sheet: "Data".to_string(), addr: a("C1"), old: CellValue::Empty, new: n("4") },
            Change { sheet: "Sum".to_string(), addr: a("A1"), old: CellValue::Empty, new: n("3") },
        ]
    );
    let c = w.get("Data", a("A1")).unwrap();
    assert_eq!((c.formula(), c.value()), (Some("=1+1"), &n("2")));
    assert_eq!(w.get("Sum", a("A1")).unwrap().value(), &n("3"));
    assert!(w.get("Data", a("C1")).is_none());
    // The snapshot taken before differs from the grid at Data!A1 only.
    let snapshot = vec![
        (CellRef::new("data".to_string(), a("A1")), CellValue::Empty),
        (CellRef::new("data".to_string(), a("B1")), n("5")),
    ];
    assert_eq!(
        w.diff_against_snapshot(&snapshot),
        vec![Change { sheet: "Data".to_string(), addr: a("A1"), old: CellValue::Empty, new: n("2") }]
    );
    // Writing the same results again changes nothing more.
    assert_eq!(w.apply_results(&results[1..3]), vec![]);
}
