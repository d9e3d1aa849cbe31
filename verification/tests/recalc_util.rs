use truecalc_workbook::depgraph::{CellRef, RangeRef};
use truecalc_workbook::recalc_util::{
    changed_rectangle_cells, contains_call, find_from, is_ident_byte, is_volatile, mix64, rect_overlaps_range,
};
use truecalc_workbook::{spill_rect, Address};

fn a(s: &str) -> Address {
    Address::from_a1(s).unwrap()
}

#[test]
fn contains_call_finds_calls_only() {
    assert!(contains_call("=NOW()+1", "NOW"));
    assert!(contains_call("=1+NOW ()", "NOW"));
    assert!(!contains_call("=SNOW()", "NOW"));
    assert!(!contains_call("=NOW", "NOW"));
    assert!(!contains_call("=NOWX()", "NOW"));
    assert!(contains_call("=SNOW()+NOW()", "NOW"));
    assert!(!contains_call("=NOW()", ""));
}

#[test]
fn find_from_scans_from_offset() {
    assert_eq!(find_from(b"abcabc", b"bc", 0), Some(1));
    assert_eq!(find_from(b"abcabc", b"bc", 2), Some(4));
    assert_eq!(find_from(b"abcabc", b"bc", 5), None);
    assert_eq!(find_from(b"abc", b"", 0), None);
}

#[test]
fn ident_bytes() {
    assert!(is_ident_byte(b'a') && is_ident_byte(b'Z') && is_ident_byte(b'0') && is_ident_byte(b'_'));
    assert!(!is_ident_byte(b'(') && !is_ident_byte(b' ') && !is_ident_byte(0xC3));
}

#[test]
fn mix64_matches_splitmix64() {
    assert_eq!(mix64(0), 0xE220_A839_7B1D_CDAF);
}

#[test]
fn rect_overlap_with_range() {
    let rect = spill_rect(a("B2"), 2, 2).unwrap();
    let r = RangeRef { sheet: "s".to_string(), start: a("C3"), end: a("D4") };
    assert!(rect_overlaps_range(&rect, &r));
    let r2 = RangeRef { sheet: "s".to_string(), start: a("D1"), end: a("D4") };
    assert!(!rect_overlaps_range(&rect, &r2));
}

#[test]
fn changed_rectangles_list_spilled_cells() {
    let anchor = CellRef { sheet: "s".to_string(), addr: a("A1") };
    let before = vec![(anchor.clone(), spill_rect(a("A1"), 2, 1).unwrap())];
    let after = vec![(anchor.clone(), spill_rect(a("A1"), 1, 2).unwrap())];
    let cells = changed_rectangle_cells(&before, &after);
    assert_eq!(
        cells,
        vec![CellRef { sheet: "s".to_string(), addr: a("B1") }, CellRef { sheet: "s".to_string(), addr: a("A2") }]
    );
    assert!(changed_rectangle_cells(&before, &before).is_empty());
}

const VOLATILE: [&str; 5] = ["NOW", "TODAY", "RAND", "RANDBETWEEN", "RANDARRAY"];

#[test]
fn volatile_calls_are_found_in_any_letter_case() {
    assert!(is_volatile(Some("=now()"), &VOLATILE));
    assert!(is_volatile(Some("=1+Rand ()"), &VOLATILE));
    assert!(is_volatile(Some("=SUM(A1, randbetween(1, 6))"), &VOLATILE));
}

#[test]
fn names_that_only_contain_a_volatile_name_are_not_volatile() {
    // OPERAND( is not RAND(; "NOW" as text without a call is no call.
    assert!(!is_volatile(Some("=OPERAND(1)"), &VOLATILE));
    assert!(!is_volatile(Some("=\"NOW\""), &VOLATILE));
    assert!(!is_volatile(Some("=A1+1"), &VOLATILE));
    assert!(!is_volatile(None, &VOLATILE));
    assert!(!is_volatile(Some("=NOW()"), &[]));
}
