use truecalc_workbook::authored_index::AuthoredCellIndex;
use truecalc_workbook::spill_place::{
    place_spill, precedent_is_spill_sensitive, seed_spill_sensitive, spill_blocked, SpillPlacement,
};
use truecalc_workbook::{spill_rect, Address, CellRef, DependencyGraph, Precedent, RangeRef};

fn a(s: &str) -> Address {
    Address::from_a1(s).unwrap()
}

fn cell(sheet: &str, s: &str) -> CellRef {
    CellRef::new(sheet.to_string(), a(s))
}

#[test]
fn scalars_are_not_placed() {
    let mut placed = Vec::new();
    assert_eq!(place_spill(&cell("s", "A1"), None, &[], &mut placed), SpillPlacement::Scalar);
    assert!(placed.is_empty());
}

#[test]
fn arrays_spill_until_blocked() {
    let mut placed = Vec::new();
    let r = place_spill(&cell("s", "A1"), Some((2, 2)), &[], &mut placed);
    assert_eq!(r, SpillPlacement::Placed(spill_rect(a("A1"), 2, 2).unwrap()));
    assert_eq!(placed.len(), 1);
    // B3's 2x1 spill would cover B4, free; C1's spill into A2:B2? No: C1
    // spills right and down from C1, clear of A1:B2.
    assert!(matches!(place_spill(&cell("s", "C1"), Some((1, 2)), &[], &mut placed), SpillPlacement::Placed(_)));
    // A2 spilling down-right runs into A1's rectangle (B2 is A1's).
    assert_eq!(place_spill(&cell("s", "A2"), Some((1, 2)), &[], &mut placed), SpillPlacement::Blocked);
    // An authored cell in the way blocks; on another sheet it does not.
    assert_eq!(place_spill(&cell("s", "E5"), Some((2, 1)), &[cell("s", "E6")], &mut placed), SpillPlacement::Blocked);
    assert!(matches!(place_spill(&cell("s", "E5"), Some((2, 1)), &[cell("t", "E6")], &mut placed), SpillPlacement::Placed(_)));
    // Off the grid.
    assert_eq!(place_spill(&cell("s", "A10000000"), Some((2, 1)), &[], &mut placed), SpillPlacement::Blocked);
    assert_eq!(placed.len(), 3);
}

#[test]
fn replacing_an_anchor_s_own_spill() {
    let mut placed = Vec::new();
    place_spill(&cell("s", "A1"), Some((2, 1)), &[], &mut placed);
    // The same anchor re-spilling is not blocked by its own earlier spill.
    let r = place_spill(&cell("s", "A1"), Some((3, 1)), &[], &mut placed);
    assert_eq!(r, SpillPlacement::Placed(spill_rect(a("A1"), 3, 1).unwrap()));
    assert_eq!(placed.len(), 1);
    assert_eq!(placed[0].1, spill_rect(a("A1"), 3, 1).unwrap());
}

#[test]
fn blocking_ignores_the_anchor_cell() {
    let rect = spill_rect(a("B2"), 2, 2).unwrap();
    assert!(!spill_blocked(&cell("s", "B2"), &rect, &[cell("s", "B2")], &[]));
    assert!(spill_blocked(&cell("s", "B2"), &rect, &[cell("s", "C3")], &[]));
}

#[test]
fn spill_sensitive_precedents() {
    let idx = AuthoredCellIndex::build(&[("S".to_string(), vec![a("A1"), a("A2"), a("C1"), a("C2")])]);
    let rects = vec![(cell("s", "E1"), spill_rect(a("E1"), 2, 2).unwrap())];
    let range = |x: &str, y: &str| Precedent::Range(RangeRef { sheet: "s".to_string(), start: a(x), end: a(y) });
    assert!(!precedent_is_spill_sensitive(&Precedent::Cell(cell("s", "A1")), &rects, &idx));
    assert!(precedent_is_spill_sensitive(&Precedent::Cell(cell("s", "B1")), &rects, &idx));
    assert!(!precedent_is_spill_sensitive(&range("A1", "A2"), &rects, &idx));
    assert!(precedent_is_spill_sensitive(&range("A1", "B2"), &rects, &idx));
    assert!(precedent_is_spill_sensitive(&range("F2", "F2"), &rects, &idx));
    assert!(precedent_is_spill_sensitive(&Precedent::Name("n".to_string()), &rects, &idx));
    assert!(!precedent_is_spill_sensitive(&Precedent::Unresolved("X!A1".to_string()), &rects, &idx));
}

#[test]
fn seeding_picks_the_formula_cells_a_spill_could_change() {
    let idx = AuthoredCellIndex::build(&[(
        "s".to_string(),
        vec![a("A1"), a("A2"), a("B1"), a("C1"), a("C2"), a("D1"), a("E1"), a("H1")],
    )]);
    let rects = vec![(cell("s", "E1"), spill_rect(a("E1"), 2, 2).unwrap())];
    let range = |x: &str, y: &str| Precedent::Range(RangeRef { sheet: "s".to_string(), start: a(x), end: a(y) });
    let mut g = DependencyGraph::new();
    // Reads authored A1 only: not seeded.
    g.insert_formula(cell("s", "B1"), vec![Precedent::Cell(cell("s", "A1"))]);
    // Reads empty Z9: seeded.
    g.insert_formula(cell("s", "C1"), vec![Precedent::Cell(cell("s", "A1")), Precedent::Cell(cell("s", "Z9"))]);
    // Reads a range through E1's spill: seeded.
    g.insert_formula(cell("s", "C2"), vec![range("F1", "F1")]);
    // Reads a fully authored range: not seeded.
    g.insert_formula(cell("s", "D1"), vec![range("A1", "A2")]);
    // The array anchor itself: seeded as a spill cell.
    g.insert_formula(cell("s", "E1"), vec![]);
    // A name reader: seeded.
    g.insert_formula(cell("s", "H1"), vec![Precedent::Name("n".to_string())]);
    let mut dirty = vec![cell("s", "A9")];
    seed_spill_sensitive(&g, &[cell("s", "E1")], &rects, &idx, &mut dirty);
    assert_eq!(dirty, vec![cell("s", "C1"), cell("s", "E1"), cell("s", "H1"), cell("s", "C2"), cell("s", "A9")]);
}
