use std::cmp::Ordering;

use truecalc_workbook::canonical::{cmp_utf16, utf16_of, write_canonical, write_string};
use truecalc_workbook::json::Json;

fn quoted(s: &str) -> String {
    let mut out = String::new();
    write_string(s, &mut out);
    out
}

#[test]
fn strings_escape_only_what_jcs_requires() {
    assert_eq!(quoted("plain"), "\"plain\"");
    assert_eq!(quoted("a\"b\\c"), "\"a\\\"b\\\\c\"");
    assert_eq!(quoted("\u{8}\t\n\u{c}\r"), "\"\\b\\t\\n\\f\\r\"");
    assert_eq!(quoted("\u{0}\u{1f}\u{1}"), "\"\\u0000\\u001f\\u0001\"");
    assert_eq!(quoted("é/€\u{7f}😀"), "\"é/€\u{7f}😀\"");
    assert_eq!(quoted(""), "\"\"");
}

#[test]
fn write_string_appends() {
    let mut out = String::from("{");
    write_string("k", &mut out);
    out.push(':');
    assert_eq!(out, "{\"k\":");
}

#[test]
fn keys_order_by_utf16_code_units() {
    assert_eq!(cmp_utf16("A10", "A2"), Ordering::Less);
    assert_eq!(cmp_utf16("b", "a"), Ordering::Greater);
    assert_eq!(cmp_utf16("same", "same"), Ordering::Equal);
    assert_eq!(cmp_utf16("ab", "abc"), Ordering::Less);
    assert_eq!(cmp_utf16("", ""), Ordering::Equal);
    // A supplementary character is a surrogate pair (0xD83D ...), which
    // sorts before U+FFFF although its code point is larger.
    assert_eq!(cmp_utf16("\u{1F600}", "\u{FFFF}"), Ordering::Less);
    assert_eq!(cmp_utf16("\u{FFFF}", "\u{1F600}"), Ordering::Greater);
}

#[test]
fn utf16_units_match_std() {
    for s in ["", "abc", "é€", "😀x\u{10FFFF}"] {
        assert_eq!(utf16_of(s), s.encode_utf16().collect::<Vec<u16>>());
    }
}

#[test]
fn key_order_does_not_depend_on_input_order() {
    let keys = ["b", "A10", "A2", "\u{FFFF}", "\u{1F600}", "a", "", "ab"];
    let mut forward: Vec<&str> = keys.to_vec();
    forward.sort_by(|a, b| cmp_utf16(a, b));
    let mut backward: Vec<&str> = keys.iter().rev().copied().collect();
    backward.sort_by(|a, b| cmp_utf16(a, b));
    assert_eq!(forward, backward);
    assert_eq!(forward, vec!["", "A10", "A2", "a", "ab", "b", "\u{1F600}", "\u{FFFF}"]);
}

fn canonical(j: &Json) -> String {
    let mut out = String::new();
    write_canonical(j, &mut out);
    out
}

#[test]
fn canonical_text_orders_keys_by_utf16_units_and_keeps_array_order() {
    let j = Json::Object(vec![
        ("b".to_string(), Json::Array(vec![Json::Number("2".to_string()), Json::Null, Json::Bool(true)])),
        ("A2".to_string(), Json::String("x\"y".to_string())),
        ("A10".to_string(), Json::Bool(false)),
        ("\u{1F600}".to_string(), Json::Object(vec![])),
        ("\u{FFFF}".to_string(), Json::Array(vec![])),
    ]);
    assert_eq!(
        canonical(&j),
        "{\"A10\":false,\"A2\":\"x\\\"y\",\"b\":[2,null,true],\"\u{1F600}\":{},\"\u{FFFF}\":[]}"
    );
}

#[test]
fn canonical_text_of_scalars() {
    assert_eq!(canonical(&Json::Null), "null");
    assert_eq!(canonical(&Json::Number("1e+21".to_string())), "1e+21");
    assert_eq!(canonical(&Json::String("\u{1}".to_string())), "\"\\u0001\"");
}
