use truecalc_workbook::casefold::simple_fold;
use truecalc_workbook::limits::{check_formula_limit, exceeds_cell_cap, exceeds_serialized_cap, MAX_FORMULA_LEN};
use truecalc_workbook::recalc_context::RecalcContext;
use truecalc_workbook::{spill_rect, Address, CellRef, DependencyGraph, Precedent, RangeRef, WorkbookError};

fn a(s: &str) -> Address {
    Address::from_a1(s).unwrap()
}

#[test]
fn error_messages() {
    assert_eq!(
        WorkbookError::EmptyLiteral.message(),
        "a literal cell cannot hold an empty value; clear a cell by removing its entry instead"
    );
    assert_eq!(WorkbookError::NotFound("no such name".to_string()).message(), "no such name");
}

#[test]
fn formula_limit_counts_bytes() {
    assert!(check_formula_limit(&"x".repeat(MAX_FORMULA_LEN)).is_ok());
    let e = check_formula_limit(&"x".repeat(MAX_FORMULA_LEN + 1)).unwrap_err();
    assert_eq!(
        e,
        WorkbookError::ResourceLimit("formula is 32769 bytes, exceeding the limit of 32768 bytes (scope ADR Decision 5)".to_string())
    );
    // Multi-byte characters count by their UTF-8 length.
    assert!(check_formula_limit(&"é".repeat(MAX_FORMULA_LEN / 2 + 1)).is_err());
}

#[test]
fn simple_case_folding() {
    assert_eq!(simple_fold("SHEET1"), "sheet1");
    assert_eq!(simple_fold("ΣΑΣ"), "σασ");
    // Simple folding maps one character to one character: ẞ folds to ß, not "ss".
    assert_eq!(simple_fold("ẞ"), "ß");
    assert_eq!(simple_fold("already"), "already");
}

#[test]
fn spill_rectangles() {
    let r = spill_rect(a("B2"), 2, 3).unwrap();
    assert!(r.contains(a("D3")));
    assert!(!r.contains(a("E3")));
    assert_eq!(r.offset_of(a("C3")), Some((1, 1)));
    assert_eq!(r.spilled_cells(), vec![a("C2"), a("D2"), a("B3"), a("C3"), a("D3")]);
    assert_eq!(spill_rect(a("ZZZ1"), 1, 2), None);
}

#[test]
fn formula_precedent_cells_are_formula_cells_only() {
    let c = |s: &str| CellRef::new("s".to_string(), a(s));
    let mut g = DependencyGraph::new();
    g.insert_formula(c("A1"), vec![]);
    g.insert_formula(c("A3"), vec![]);
    g.insert_formula(c("B9"), vec![]);
    let range = RangeRef { sheet: "s".to_string(), start: a("A1"), end: a("A5") };
    assert_eq!(g.formula_precedent_cells(&Precedent::Range(range)), vec![c("A1"), c("A3")]);
    assert_eq!(g.formula_precedent_cells(&Precedent::Cell(c("A2"))), Vec::<CellRef>::new());
    assert_eq!(g.formula_precedent_cells(&Precedent::Cell(c("B9"))), vec![c("B9")]);
    assert_eq!(g.formula_precedent_cells(&Precedent::Name("missing".to_string())), Vec::<CellRef>::new());
    assert_eq!(g.formula_precedent_cells(&Precedent::Unresolved("X!A1".to_string())), Vec::<CellRef>::new());
}

fn splitmix(z: u64) -> u64 {
    let z = z.wrapping_add(0x9E37_79B9_7F4A_7C15);
    let z = (z ^ (z >> 30)).wrapping_mul(0xBF58_476D_1CE4_E5B9);
    let z = (z ^ (z >> 27)).wrapping_mul(0x94D0_49BB_1331_11EB);
    z ^ (z >> 31)
}

#[test]
fn recalc_context_pins_time_and_keys_draws() {
    let ctx = RecalcContext::new(1_780_000_000_000, "Etc/GMT", 42).unwrap();
    assert_eq!(ctx.timestamp_ms(), 1_780_000_000_000);
    assert_eq!(ctx.rng_seed(), 42);
    assert_eq!(ctx.timezone(), chrono_tz::Tz::Etc__GMT);
    assert_eq!(ctx.now_utc_nanos(), Some(1_780_000_000_000_000_000));
    assert!(RecalcContext::new(0, "Nowhere/City", 0).is_none());
    assert_eq!(RecalcContext::new(i64::MAX, "UTC", 0).unwrap().now_utc_nanos(), None);
    let mut h = 42u64;
    for part in [1u64, 2, 3, 4] {
        h = splitmix(h ^ splitmix(part));
    }
    assert_eq!(ctx.rng_key(1, 2, 3, 4), h);
    assert_ne!(ctx.rng_key(1, 2, 3, 4), ctx.rng_key(1, 2, 3, 5));
}

#[test]
fn the_cell_and_byte_caps_apply_only_where_told() {
    assert!(!exceeds_cell_cap(1_000_000, true));
    assert!(exceeds_cell_cap(1_000_001, true));
    assert!(!exceeds_cell_cap(usize::MAX, false));
    assert!(!exceeds_serialized_cap(104_857_600, true));
    assert!(exceeds_serialized_cap(104_857_601, true));
    assert!(!exceeds_serialized_cap(usize::MAX, false));
}
