use truecalc_workbook::authored_index::AuthoredCellIndex;
use truecalc_workbook::{Address, RangeRef};

fn a(s: &str) -> Address {
    Address::from_a1(s).unwrap()
}

fn index() -> AuthoredCellIndex {
    AuthoredCellIndex::build(&[("Sheet1".to_string(), vec![a("B2"), a("A1"), a("C5"), a("B1"), a("A2")])])
}

fn range(sheet: &str, s: &str, e: &str) -> RangeRef {
    RangeRef { sheet: sheet.to_string(), start: a(s), end: a(e) }
}

#[test]
fn fully_authored_rectangle_has_no_unauthored_cell() {
    let idx = index();
    assert_eq!(idx.range_has_unauthored_cell_examined(&range("sheet1", "A1", "B2")), (false, 6));
    assert!(!idx.range_has_unauthored_cell(&range("sheet1", "A1", "B2")));
    assert!(!idx.range_has_unauthored_cell(&range("sheet1", "C5", "C5")));
}

#[test]
fn oversized_rectangle_is_answered_without_probing() {
    let idx = index();
    assert_eq!(idx.range_has_unauthored_cell_examined(&range("sheet1", "A1", "C2")), (true, 0));
}

#[test]
fn missing_row_ends_the_walk() {
    let idx = index();
    assert_eq!(idx.range_has_unauthored_cell_examined(&range("sheet1", "B1", "B3")), (true, 6));
}

#[test]
fn partly_authored_row_is_unauthored() {
    let idx = index();
    assert!(idx.range_has_unauthored_cell(&range("sheet1", "B5", "C5")));
}

#[test]
fn missing_sheet_and_inverted_rectangles_count_as_unauthored() {
    let idx = index();
    assert_eq!(idx.range_has_unauthored_cell_examined(&range("other", "A1", "A1")), (true, 0));
    assert_eq!(idx.range_has_unauthored_cell_examined(&range("sheet1", "B2", "A1")), (true, 0));
}

#[test]
fn later_sheet_with_same_fold_replaces_earlier() {
    let idx = AuthoredCellIndex::build(&[
        ("Data".to_string(), vec![a("A1")]),
        ("DATA".to_string(), vec![a("B1")]),
    ]);
    assert!(idx.range_has_unauthored_cell(&range("data", "A1", "A1")));
    assert!(!idx.range_has_unauthored_cell(&range("data", "B1", "B1")));
}

#[test]
fn unauthored_answer_matches_the_authored_count_against_the_area() {
    let cells = vec![a("B2"), a("A1"), a("C5"), a("B1"), a("A2")];
    let idx = AuthoredCellIndex::build(&[("Sheet1".to_string(), cells.clone())]);
    for (s, e) in [("A1", "B2"), ("A1", "C2"), ("B1", "B3"), ("C5", "C5"), ("A1", "A2"), ("B5", "C5")] {
        let r = range("sheet1", s, e);
        let count = cells
            .iter()
            .filter(|c| {
                r.start.row <= c.row && c.row <= r.end.row && r.start.column <= c.column && c.column <= r.end.column
            })
            .count() as u64;
        let area = (r.end.row - r.start.row + 1) as u64 * (r.end.column - r.start.column + 1) as u64;
        assert_eq!(idx.range_has_unauthored_cell(&r), count < area, "{s}:{e}");
    }
}

#[test]
fn inverted_missing_and_oversized_rectangles_probe_nothing() {
    let idx = index();
    assert_eq!(idx.range_has_unauthored_cell_examined(&range("sheet1", "B2", "A1")), (true, 0));
    assert_eq!(idx.range_has_unauthored_cell_examined(&range("nope", "A1", "A1")), (true, 0));
    // Six cells, but only five are authored on the sheet.
    assert_eq!(idx.range_has_unauthored_cell_examined(&range("sheet1", "A1", "B3")), (true, 0));
}
