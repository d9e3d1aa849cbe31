use truecalc_workbook::{parse_a1, Address};

#[test]
fn keys_round_trip() {
    for (row, col, key) in [(1, 1, "A1"), (42, 55, "BC42"), (10_000_000, 18_278, "ZZZ10000000"), (9, 26, "Z9"), (1, 27, "AA1")] {
        let a = Address::new(row, col).unwrap();
        assert_eq!(a.to_a1(), key);
        assert_eq!(a.a1_key().as_str(), key);
        assert_eq!(parse_a1(key), Some(a));
        assert_eq!(Address::from_a1(key), Some(a));
    }
}

#[test]
fn malformed_or_out_of_bounds_keys_are_rejected() {
    for key in ["", "a1", "A0", "A01", "AAAA1", "A10000001", "1A", "A", "A1:B2", "A 1", "ZZZ0"] {
        assert_eq!(parse_a1(key), None, "{key}");
    }
}

#[test]
fn bounds_are_enforced_by_new() {
    assert!(Address::new(0, 1).is_none());
    assert!(Address::new(1, 0).is_none());
    assert!(Address::new(10_000_001, 1).is_none());
    assert!(Address::new(1, 18_279).is_none());
}
