use truecalc_workbook::named_ref::{
    is_bare_identifier, is_boolean_literal, is_valid_name, looks_like_a1, looks_like_r1c1, parse_canonical_ref,
    quote_sheet_if_needed, split_sheet_ref,
};

#[test]
fn name_shapes() {
    assert!(is_valid_name("total_2"));
    assert!(is_valid_name("_x"));
    assert!(!is_valid_name("2x"));
    assert!(!is_valid_name("A1"));
    assert!(!is_valid_name("R1C1"));
    assert!(!is_valid_name("r2c3"));
    assert!(!is_valid_name("TRUE"));
    assert!(!is_valid_name("false"));
    assert!(!is_valid_name(""));
    assert!(!is_valid_name("a-b"));
    assert!(is_bare_identifier("abc_1"));
    assert!(!is_bare_identifier("a b"));
    assert!(looks_like_a1("ZZZ1"));
    assert!(!looks_like_a1("AAAA1"));
    assert!(looks_like_r1c1("R10C2"));
    assert!(!looks_like_r1c1("RC"));
    assert!(is_boolean_literal("True"));
}

#[test]
fn sheet_tokens_are_quoted_when_needed() {
    assert_eq!(quote_sheet_if_needed("Sheet1"), "Sheet1");
    assert_eq!(quote_sheet_if_needed("My Sheet"), "'My Sheet'");
    assert_eq!(quote_sheet_if_needed("A1"), "'A1'");
    assert_eq!(quote_sheet_if_needed("O'Brien"), "'O''Brien'");
}

#[test]
fn refs_split_into_sheet_and_cells() {
    assert_eq!(split_sheet_ref("Sheet1!A1:B2"), Ok(("Sheet1".to_string(), "A1:B2".to_string())));
    assert_eq!(split_sheet_ref("'O''Brien'!C3"), Ok(("O'Brien".to_string(), "C3".to_string())));
    assert_eq!(split_sheet_ref("'open!A1"), Err("ref \"'open!A1\" has an unterminated quoted sheet name".to_string()));
    assert_eq!(split_sheet_ref("'x'A1"), Err("ref \"'x'A1\" must separate sheet and cell with '!'".to_string()));
    assert_eq!(split_sheet_ref("A1"), Err("ref \"A1\" must be sheet-qualified (Sheet!A1)".to_string()));
}

#[test]
fn canonical_refs_parse_and_others_say_why() {
    assert_eq!(parse_canonical_ref("Sheet1!A1").unwrap().sheet, "Sheet1");
    assert_eq!(parse_canonical_ref("'My Sheet'!A1:B2").unwrap().sheet, "My Sheet");
    let e = |r: &str| parse_canonical_ref(r).err().unwrap();
    assert_eq!(e("S!a1"), "ref \"S!a1\" has an invalid start cell");
    assert_eq!(e("S!A1:b"), "ref \"S!A1:b\" has an invalid end cell");
    assert_eq!(
        e("S!A1:A1"),
        "ref \"S!A1:A1\" is not canonical: a degenerate range must collapse to the single-cell form (schema spec \u{a7}7)"
    );
    assert_eq!(
        e("S!B2:A1"),
        "ref \"S!B2:A1\" is not canonical: range endpoints must be top-left first (schema spec \u{a7}7)"
    );
    assert_eq!(
        e("'S'!A1"),
        "ref \"'S'!A1\" is not in canonical form (expected \"S!A1\", schema spec \u{a7}7)"
    );
}

#[test]
fn a_quoted_sheet_splits_back() {
    for sheet in ["Sheet1", "My Sheet", "O'Brien", "A1", "a!b", "''"] {
        let r = format!("{}!B2:C3", quote_sheet_if_needed(sheet));
        assert_eq!(split_sheet_ref(&r), Ok((sheet.to_string(), "B2:C3".to_string())), "{r}");
    }
}
