use truecalc_workbook::named_ref::parse_canonical_ref;
use truecalc_workbook::table_ref::{
    header_row_columns, is_range_ref, parsed_range_bounds, ranges_overlap, ParsedRangeBounds,
};

fn bounds(r: &str) -> ParsedRangeBounds {
    let parsed = parse_canonical_ref(r).unwrap();
    parsed_range_bounds(r, &parsed).unwrap()
}

#[test]
fn overlapping_ranges_on_same_sheet_detected() {
    assert!(ranges_overlap(&bounds("Sheet1!A1:D12"), &bounds("Sheet1!C5:E20")));
}

#[test]
fn adjacent_non_overlapping_ranges_are_fine() {
    assert!(!ranges_overlap(&bounds("Sheet1!A1:D12"), &bounds("Sheet1!E1:F12")));
}

#[test]
fn ranges_on_different_sheets_never_overlap() {
    assert!(!ranges_overlap(&bounds("Sheet1!A1:D12"), &bounds("Sheet2!A1:D12")));
}

#[test]
fn header_row_columns_rejects_duplicate_names() {
    let err = header_row_columns(&["quantity_g", "quantity_g"]).unwrap_err();
    assert!(err.contains("quantity_g"), "error should name the duplicate: {err}");
}

#[test]
fn header_row_columns_rejects_invalid_identifier() {
    let err = header_row_columns(&["quantity g"]).unwrap_err();
    assert!(err.contains("quantity g"));
}

#[test]
fn header_row_columns_accepts_valid_unique_names() {
    let cols = header_row_columns(&["quantity_g", "reference_per_100g"]).unwrap();
    assert_eq!(cols, vec!["quantity_g".to_string(), "reference_per_100g".to_string()]);
}

#[test]
fn header_row_columns_duplicates_differ_only_in_case() {
    let err = header_row_columns(&["Qty", "price", "QTY"]).unwrap_err();
    assert_eq!(err, "duplicate table column name \"QTY\"");
}

#[test]
fn header_row_columns_invalid_message_is_exact() {
    let err = header_row_columns(&["ok", "A1"]).unwrap_err();
    assert_eq!(
        err,
        "table header cell \"A1\" is not a valid column name (must match ^[A-Za-z_][A-Za-z0-9_]*$, not an A1 address, not a boolean literal)"
    );
}

#[test]
fn parsed_range_bounds_reads_corners() {
    let b = bounds("'My Sheet'!B3:AA10");
    assert_eq!(b.sheet, "My Sheet");
    assert_eq!((b.row_start, b.row_end, b.col_start, b.col_end), (3, 10, 2, 27));
}

#[test]
fn parsed_range_bounds_single_cell_is_both_corners() {
    let b = bounds("Sheet1!C4");
    assert_eq!(b.sheet, "Sheet1");
    assert_eq!((b.row_start, b.row_end, b.col_start, b.col_end), (4, 4, 3, 3));
}

#[test]
fn is_range_ref_tells_ranges_from_cells() {
    assert!(is_range_ref("Sheet1!A1:B2"));
    assert!(is_range_ref("'a:b'!A1:B2"));
    assert!(!is_range_ref("Sheet1!A1"));
    assert!(!is_range_ref("'a:b'!A1"));
}

#[test]
fn ranges_overlap_touching_corner() {
    assert!(ranges_overlap(&bounds("Sheet1!A1:B2"), &bounds("Sheet1!B2:C3")));
    assert!(ranges_overlap(&bounds("Sheet1!B2:C3"), &bounds("Sheet1!A1:B2")));
}
