use truecalc_workbook::validate::{validate_sheet_name, validate_spill_rectangles};
use truecalc_workbook::{Address, WorkbookError};

fn a(s: &str) -> Address {
    Address::from_a1(s).unwrap()
}

#[test]
fn spill_rules_report_the_first_violation() {
    assert_eq!(validate_spill_rectangles(&[a("A1"), a("C1")], &[(a("A1"), 2, 2)], "S"), Ok(()));
    assert_eq!(
        validate_spill_rectangles(&[a("A1"), a("B2")], &[(a("A1"), 2, 2)], "S"),
        Err("authored cell at row 2 col 2 in sheet \"S\" lies inside the spill rectangle of the anchor at row 1 col 1 (schema spec \u{a7}5)".to_string())
    );
    assert_eq!(
        validate_spill_rectangles(&[a("A1"), a("B1")], &[(a("A1"), 1, 2), (a("B1"), 2, 1)], "S"),
        Err("authored cell at row 1 col 2 in sheet \"S\" lies inside the spill rectangle of the anchor at row 1 col 1 (schema spec \u{a7}5)".to_string())
    );
    assert_eq!(
        validate_spill_rectangles(&[a("A2"), a("B1")], &[(a("A2"), 1, 2), (a("B1"), 2, 1)], "S"),
        Err("spill rectangles of the anchors at row 2 col 1 and row 1 col 2 in sheet \"S\" overlap (schema spec \u{a7}5)".to_string())
    );
    assert_eq!(
        validate_spill_rectangles(&[a("ZZZ1")], &[(a("ZZZ1"), 1, 2)], "S"),
        Err("spill anchor at row 1 col 18278 in sheet \"S\" reconstructs a 1\u{d7}2 rectangle that exceeds the sheet's address bounds (schema spec \u{a7}5)".to_string())
    );
}

#[test]
fn sheet_names_have_a_length_range() {
    assert_eq!(validate_sheet_name("Sheet1"), Ok(()));
    assert_eq!(
        validate_sheet_name(""),
        Err(WorkbookError::SheetManagement("a worksheet name must be non-empty (schema spec \u{a7}3)".to_string()))
    );
    let long = "é".repeat(101);
    assert_eq!(
        validate_sheet_name(&long),
        Err(WorkbookError::SheetManagement(format!(
            "worksheet name {long:?} has 101 scalar values, exceeding the limit of 100 (schema spec \u{a7}3)"
        )))
    );
    assert_eq!(validate_sheet_name(&"é".repeat(100)), Ok(()));
}
