use truecalc_workbook::sheet_index::SheetIndex;

#[test]
fn lookups_are_case_insensitive_and_first_wins() {
    let idx = SheetIndex::build(&["DATA".to_string(), "Data".to_string(), "Summary".to_string()]);
    assert_eq!(idx.len(), 3);
    assert!(!idx.is_empty());
    assert_eq!(idx.index_of_name("Data"), Some(0));
    assert_eq!(idx.index_of_name("data"), Some(0));
    assert_eq!(idx.index_of_name("SUMMARY"), Some(2));
    assert_eq!(idx.index_of_name("Missing"), None);
    assert_eq!(idx.index_of_folded("summary"), Some(2));
    assert_eq!(idx.index_of_folded("Summary"), None);
    assert_eq!(idx.folded_name(1), "data");
    assert_eq!(idx.folded_of_name("SuMmArY"), Some("summary"));
    assert_eq!(idx.folded_of_name("x"), None);
}

#[test]
fn empty_index() {
    let idx = SheetIndex::build(&[]);
    assert!(idx.is_empty());
    assert_eq!(idx.len(), 0);
    assert_eq!(idx.index_of_name("a"), None);
}
