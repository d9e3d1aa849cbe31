use truecalc_workbook::sheet_list::{check_insert_sheet, check_rename_sheet, move_sheet};
use truecalc_workbook::WorkbookError;

fn names(v: &[&str]) -> Vec<String> {
    v.iter().map(|s| s.to_string()).collect()
}

#[test]
fn insertion_rules() {
    let s = names(&["One", "Two"]);
    assert_eq!(check_insert_sheet(&s, 2, "Three"), Ok(()));
    assert_eq!(
        check_insert_sheet(&s, 3, "Three"),
        Err(WorkbookError::SheetManagement("cannot insert sheet at position 3: only 3 tab slots exist".to_string()))
    );
    assert_eq!(
        check_insert_sheet(&s, 0, "TWO"),
        Err(WorkbookError::SheetManagement(
            "cannot add sheet \"TWO\": it collides with the existing sheet \"Two\" under simple case folding (schema spec \u{a7}2)".to_string()
        ))
    );
    assert_eq!(
        check_insert_sheet(&s, 0, ""),
        Err(WorkbookError::SheetManagement("a worksheet name must be non-empty (schema spec \u{a7}3)".to_string()))
    );
    let full: Vec<String> = (0..256).map(|i| format!("S{i}")).collect();
    assert_eq!(
        check_insert_sheet(&full, 0, "New"),
        Err(WorkbookError::SheetManagement(
            "cannot add sheet: workbook already has 256 sheets, the limit (scope ADR Decision 5)".to_string()
        ))
    );
}

#[test]
fn moves_shift_the_sheets_between() {
    let mut v = vec!['a', 'b', 'c', 'd'];
    move_sheet(&mut v, 0, 2).unwrap();
    assert_eq!(v, vec!['b', 'c', 'a', 'd']);
    move_sheet(&mut v, 3, 0).unwrap();
    assert_eq!(v, vec!['d', 'b', 'c', 'a']);
    assert_eq!(
        move_sheet(&mut v, 1, 4),
        Err(WorkbookError::SheetManagement("cannot move sheet from 1 to 4: valid tab positions are 0..4".to_string()))
    );
    assert_eq!(v, vec!['d', 'b', 'c', 'a']);
}

#[test]
fn rename_rules() {
    let s = names(&["One", "Two"]);
    assert_eq!(check_rename_sheet(&s, "two", "TWO"), Ok(1));
    assert_eq!(check_rename_sheet(&s, "one", "Three"), Ok(0));
    assert_eq!(
        check_rename_sheet(&s, "zero", "Three"),
        Err(WorkbookError::SheetManagement("cannot rename: no sheet named \"zero\"".to_string()))
    );
    assert_eq!(
        check_rename_sheet(&s, "one", "two"),
        Err(WorkbookError::SheetManagement(
            "cannot rename sheet to \"two\": it collides with another sheet under simple case folding (schema spec \u{a7}2)".to_string()
        ))
    );
}
