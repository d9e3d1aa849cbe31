use truecalc_workbook::registry::{sheet_index, validate_name_definition, validate_table_definition, NameRegistry};
use truecalc_workbook::{Address, WorkbookError};

fn sheets() -> Vec<String> {
    vec!["Sheet1".to_string(), "Data".to_string(), "My Sheet".to_string()]
}

fn refs(r: &NameRegistry) -> Vec<(String, String)> {
    r.names().iter().map(|n| (n.name.clone(), n.reference.clone())).collect()
}

fn table_refs(r: &NameRegistry) -> Vec<(String, String)> {
    r.tables().iter().map(|t| (t.name.clone(), t.reference.clone())).collect()
}

#[test]
fn sheet_lookup_is_case_insensitive_and_first_wins() {
    let s = sheets();
    assert_eq!(sheet_index(&s, "data"), Some(1));
    assert_eq!(sheet_index(&s, "MY SHEET"), Some(2));
    assert_eq!(sheet_index(&s, "Nope"), None);
}

#[test]
fn names_are_defined_looked_up_and_removed() {
    let s = sheets();
    let mut r = NameRegistry::new();
    let n = r.define_name("Total", "Data!A1", &s).unwrap();
    assert_eq!((n.name.as_str(), n.reference.as_str()), ("Total", "Data!A1"));
    r.define_name("Block", "'My Sheet'!A1:B2", &s).unwrap();
    assert_eq!(r.name_index("TOTAL"), Some(0));
    assert_eq!(r.name("block").unwrap().reference, "'My Sheet'!A1:B2");
    assert_eq!(
        r.define_name("total", "Data!B1", &s).unwrap_err(),
        WorkbookError::DuplicateName(
            "cannot define named range \"total\": it collides with the existing name \"Total\" under simple case folding (schema spec \u{a7}7)".to_string()
        )
    );
    let n = r.redefine_name("TOTAL", "Sheet1!C3", &s).unwrap();
    assert_eq!((n.name.as_str(), n.reference.as_str()), ("Total", "Sheet1!C3"));
    assert_eq!(
        r.redefine_name("missing", "Sheet1!C3", &s).unwrap_err(),
        WorkbookError::NotFound("cannot redefine named range: no name \"missing\" exists".to_string())
    );
    let removed = r.remove_name("total").unwrap();
    assert_eq!(removed.name, "Total");
    assert!(r.remove_name("total").is_none());
    assert_eq!(refs(&r), vec![("Block".to_string(), "'My Sheet'!A1:B2".to_string())]);
}

#[test]
fn name_definitions_are_checked_in_order() {
    let s = sheets();
    assert_eq!(
        validate_name_definition("1bad", "Data!A1", &s).unwrap_err(),
        WorkbookError::InvalidReference(
            "named-range name \"1bad\" is invalid: it must match ^[A-Za-z_][A-Za-z0-9_]*$ and must not be an A1 address, an R1C1-style reference, or a boolean (schema spec \u{a7}7)".to_string()
        )
    );
    assert_eq!(
        validate_name_definition("ok", "Data!B2:A1", &s).unwrap_err(),
        WorkbookError::InvalidReference(
            "ref \"Data!B2:A1\" is not canonical: range endpoints must be top-left first (schema spec \u{a7}7)".to_string()
        )
    );
    assert_eq!(
        validate_name_definition("ok", "Gone!A1", &s).unwrap_err(),
        WorkbookError::DanglingSheetRef(
            "named range \"ok\" refers to sheet \"Gone\", which does not exist (schema spec \u{a7}7)".to_string()
        )
    );
    assert_eq!(validate_name_definition("ok", "data!A1", &s), Ok(()));
}

#[test]
fn tables_collide_with_names_and_overlapping_ranges() {
    let s = sheets();
    let mut r = NameRegistry::new();
    r.define_name("Rate", "Data!A1", &s).unwrap();
    let t = r.define_table("Sales", "Data!A1:C10", &s).unwrap();
    assert_eq!(t.reference, "Data!A1:C10");
    assert_eq!(
        r.define_table("rate", "Data!E1:F2", &s).unwrap_err(),
        WorkbookError::DuplicateName(
            "cannot define table \"rate\": it collides with the existing named range \"Rate\" under simple case folding (structured-references spec \u{a7}4)".to_string()
        )
    );
    assert_eq!(
        r.define_name("SALES", "Data!A1", &s).unwrap_err(),
        WorkbookError::DuplicateName(
            "cannot define named range \"SALES\": it collides with the existing table \"Sales\" under simple case folding (structured-references spec \u{a7}4)".to_string()
        )
    );
    assert_eq!(
        r.define_table("Other", "data!C10:D11", &s).unwrap_err(),
        WorkbookError::RangeOverlap(
            "cannot define table \"Other\": its range overlaps the existing table \"Sales\" (structured-references spec \u{a7}4)".to_string()
        )
    );
    r.define_table("Other", "Data!D1:E2", &s).unwrap();
    assert_eq!(
        r.redefine_table("other", "Data!C1:E2", &s).unwrap_err(),
        WorkbookError::RangeOverlap(
            "cannot redefine table \"other\": its range overlaps the existing table \"Sales\" (structured-references spec \u{a7}4)".to_string()
        )
    );
    let t = r.redefine_table("other", "Data!D1:E3", &s).unwrap();
    assert_eq!((t.name.as_str(), t.reference.as_str()), ("Other", "Data!D1:E3"));
    assert_eq!(
        validate_table_definition("T", "Data!A1", &s).unwrap_err(),
        WorkbookError::InvalidReference(
            "table \"T\" has a malformed ref: a table ref must be a range (structured-references spec \u{a7}4)".to_string()
        )
    );
    assert_eq!(r.table("SALES").unwrap().reference, "Data!A1:C10");
    assert_eq!(r.remove_table("sales").unwrap().name, "Sales");
    assert_eq!(table_refs(&r), vec![("Other".to_string(), "Data!D1:E3".to_string())]);
}

#[test]
fn a_write_just_below_a_table_grows_it() {
    let s = sheets();
    let mut r = NameRegistry::new();
    r.define_table("T", "'My Sheet'!B2:C3", &s).unwrap();
    r.define_table("U", "'My Sheet'!B5:C6", &s).unwrap();
    let a = |k: &str| Address::from_a1(k).unwrap();
    r.expand_table_on_append("Sheet1", a("B4"));
    assert_eq!(r.table("T").unwrap().reference, "'My Sheet'!B2:C3");
    r.expand_table_on_append("my sheet", a("D4"));
    assert_eq!(r.table("T").unwrap().reference, "'My Sheet'!B2:C3");
    r.expand_table_on_append("my sheet", a("C4"));
    assert_eq!(r.table("T").unwrap().reference, "'My Sheet'!B2:C4");
    // Growing T again would run into U: the table is left as it is.
    r.expand_table_on_append("MY SHEET", a("B5"));
    assert_eq!(r.table("T").unwrap().reference, "'My Sheet'!B2:C4");
}

#[test]
fn renaming_a_sheet_repoints_refs() {
    let s = sheets();
    let mut r = NameRegistry::new();
    r.define_name("a", "Data!A1", &s).unwrap();
    r.define_name("b", "Sheet1!A1", &s).unwrap();
    r.define_table("t", "Data!B1:C2", &s).unwrap();
    r.repoint_sheet("DATA", "New Data");
    assert_eq!(
        refs(&r),
        vec![("a".to_string(), "'New Data'!A1".to_string()), ("b".to_string(), "Sheet1!A1".to_string())]
    );
    assert_eq!(table_refs(&r), vec![("t".to_string(), "'New Data'!B1:C2".to_string())]);
}

#[test]
fn dangling_refs_are_reported() {
    let s = sheets();
    let mut r = NameRegistry::new();
    r.define_name("a", "Data!A1", &s).unwrap();
    r.define_table("t", "Sheet1!B1:C2", &s).unwrap();
    assert_eq!(r.check_no_dangling_refs(&s), Ok(()));
    let fewer = vec!["data".to_string()];
    assert_eq!(
        r.check_no_dangling_refs(&fewer),
        Err(WorkbookError::Validation(
            "table \"t\" refers to sheet \"Sheet1\", which does not exist (structured-references spec \u{a7}4)".to_string()
        ))
    );
    assert_eq!(
        r.check_no_dangling_refs(&[]),
        Err(WorkbookError::Validation(
            "named range \"a\" refers to sheet \"Data\", which does not exist (schema spec \u{a7}7)".to_string()
        ))
    );
}
