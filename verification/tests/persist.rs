use truecalc_workbook::persist::{de_version, sort_names_by_name, sort_tables_by_name, SCHEMA_VERSION};
use truecalc_workbook::{NamedRange, Table};

fn named(name: &str, reference: &str) -> NamedRange {
    NamedRange { name: name.to_string(), reference: reference.to_string() }
}

fn table(name: &str, reference: &str) -> Table {
    Table { name: name.to_string(), reference: reference.to_string() }
}

#[test]
fn known_versions_migrate_to_the_current_one() {
    assert_eq!(SCHEMA_VERSION, "2");
    assert_eq!(de_version("1"), Ok("2".to_string()));
    assert_eq!(de_version("2"), Ok("2".to_string()));
}

#[test]
fn unknown_versions_ask_for_an_upgrade() {
    assert_eq!(
        de_version("3"),
        Err("unsupported schema version \"3\": this version of truecalc-workbook reads versions \"1\" and \"2\" \
             (schema spec §10); upgrade truecalc to load this workbook"
            .to_string())
    );
    assert!(de_version("").is_err());
    assert!(de_version("2.0").is_err());
}

#[test]
fn names_are_written_in_utf16_order() {
    let mut names = vec![named("alpha", "S!A1"), named("Zeta", "S!A2"), named("Beta", "S!A3"), named("_x", "S!A4")];
    sort_names_by_name(&mut names);
    let order: Vec<&str> = names.iter().map(|n| n.name.as_str()).collect();
    // Upper case (0x41..) before '_' (0x5F) before lower case (0x61..).
    assert_eq!(order, vec!["Beta", "Zeta", "_x", "alpha"]);
    assert_eq!(names[0].reference, "S!A3");
}

#[test]
fn utf16_order_puts_supplementary_characters_before_high_bmp_ones() {
    // U+1F600 encodes as a surrogate pair starting 0xD83D, which sorts
    // before U+FF21 (0xFF21) in code-unit order though its scalar is larger.
    let mut names = vec![named("\u{FF21}", "S!A1"), named("\u{1F600}", "S!A2")];
    sort_names_by_name(&mut names);
    assert_eq!(names[0].name, "\u{1F600}");
    assert_eq!(names[1].name, "\u{FF21}");
}

#[test]
fn equal_names_keep_their_order() {
    let mut names = vec![named("b", "S!A1"), named("a", "S!A2"), named("b", "S!A3")];
    sort_names_by_name(&mut names);
    assert_eq!(names, vec![named("a", "S!A2"), named("b", "S!A1"), named("b", "S!A3")]);
}

#[test]
fn sorting_is_independent_of_the_input_order() {
    let mut one = vec![named("c", "S!A1"), named("a", "S!A2"), named("b", "S!A3")];
    let mut two = vec![named("b", "S!A3"), named("c", "S!A1"), named("a", "S!A2")];
    sort_names_by_name(&mut one);
    sort_names_by_name(&mut two);
    assert_eq!(one, two);
    let mut empty: Vec<NamedRange> = Vec::new();
    sort_names_by_name(&mut empty);
    assert!(empty.is_empty());
}

#[test]
fn tables_are_written_in_utf16_order() {
    let mut tables = vec![table("sales", "S!A1:B3"), table("Costs", "S!D1:E3"), table("Budget", "S!G1:H3")];
    sort_tables_by_name(&mut tables);
    assert_eq!(tables, vec![table("Budget", "S!G1:H3"), table("Costs", "S!D1:E3"), table("sales", "S!A1:B3")]);
}
