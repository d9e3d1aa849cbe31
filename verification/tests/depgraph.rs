use truecalc_workbook::depgraph::{insert_sorted, NameTarget};
use truecalc_workbook::{Address, CellRef, DependencyGraph, Precedent, RangeRef};

fn cell(sheet: &str, a1: &str) -> CellRef {
    CellRef { sheet: sheet.to_string(), addr: Address::from_a1(a1).unwrap() }
}

fn range(sheet: &str, a: &str, b: &str) -> RangeRef {
    RangeRef {
        sheet: sheet.to_string(),
        start: Address::from_a1(a).unwrap(),
        end: Address::from_a1(b).unwrap(),
    }
}

/// s!A1 = s!B1 + 1; s!A2 = A1; s!A3 = SUM(A1:A2) + A2; s!A4 = total (name -> A2).
fn chain() -> DependencyGraph {
    let mut g = DependencyGraph::new();
    g.set_name_target("total".to_string(), NameTarget::Cell(cell("s", "A2")));
    g.insert_formula(cell("s", "A3"), vec![Precedent::Range(range("s", "A1", "A2")), Precedent::Cell(cell("s", "A2"))]);
    g.insert_formula(cell("s", "A1"), vec![Precedent::Cell(cell("s", "B1"))]);
    g.insert_formula(cell("s", "A4"), vec![Precedent::Name("total".to_string())]);
    g.insert_formula(cell("s", "A2"), vec![Precedent::Cell(cell("s", "A1")), Precedent::Cell(cell("s", "A1"))]);
    g
}

#[test]
fn formula_cells_come_in_canonical_order() {
    let mut g = chain();
    g.insert_formula(cell("a", "Z9"), vec![]);
    g.insert_formula(cell("s", "B1"), vec![]);
    let cells = g.formula_cells();
    assert_eq!(
        cells,
        vec![cell("a", "Z9"), cell("s", "A1"), cell("s", "B1"), cell("s", "A2"), cell("s", "A3"), cell("s", "A4")]
    );
}

#[test]
fn precedents_are_deduplicated_in_formula_order() {
    let g = chain();
    assert_eq!(g.precedents_of(&cell("s", "A2")).unwrap(), &[Precedent::Cell(cell("s", "A1"))][..]);
    assert!(g.precedents_of(&cell("s", "B1")).is_none());
    assert!(g.is_formula(&cell("s", "A3")));
    assert!(!g.is_formula(&cell("s", "B1")));
}

#[test]
fn reinserting_a_formula_replaces_its_precedents() {
    let mut g = chain();
    g.insert_formula(cell("s", "A1"), vec![Precedent::Unresolved("Sheet9!A1".to_string())]);
    assert_eq!(g.precedents_of(&cell("s", "A1")).unwrap(), &[Precedent::Unresolved("Sheet9!A1".to_string())][..]);
    assert_eq!(g.formula_cells().len(), 4);
}

#[test]
fn direct_dependents_cover_cells_ranges_and_names() {
    let g = chain();
    assert_eq!(g.direct_dependents_of(&cell("s", "B1")), vec![cell("s", "A1")]);
    assert_eq!(g.direct_dependents_of(&cell("s", "A1")), vec![cell("s", "A2"), cell("s", "A3")]);
    assert_eq!(g.direct_dependents_of(&cell("s", "A2")), vec![cell("s", "A3"), cell("s", "A4")]);
    assert!(g.direct_dependents_of(&cell("t", "A1")).is_empty());
}

#[test]
fn name_dependents_fold_the_name() {
    let g = chain();
    assert_eq!(g.name_dependents_of("TOTAL"), vec![cell("s", "A4")]);
    assert!(g.name_dependents_of("other").is_empty());
}

#[test]
fn topological_order_puts_precedents_first() {
    let g = chain();
    let order = g.topological_order().unwrap();
    assert_eq!(order, vec![cell("s", "A1"), cell("s", "A2"), cell("s", "A3"), cell("s", "A4")]);
    assert!(g.cycle_cells().is_empty());
}

#[test]
fn topological_order_breaks_ties_canonically() {
    let mut g = DependencyGraph::new();
    g.insert_formula(cell("s", "C3"), vec![]);
    g.insert_formula(cell("s", "A1"), vec![Precedent::Cell(cell("s", "C3"))]);
    g.insert_formula(cell("s", "B2"), vec![]);
    assert_eq!(g.topological_order().unwrap(), vec![cell("s", "B2"), cell("s", "C3"), cell("s", "A1")]);
}

fn cyclic() -> DependencyGraph {
    let mut g = chain();
    // B2 <-> B3 form a cycle, C1 reads B3 (downstream), D1 reads itself.
    g.insert_formula(cell("s", "B2"), vec![Precedent::Cell(cell("s", "B3"))]);
    g.insert_formula(cell("s", "B3"), vec![Precedent::Cell(cell("s", "B2"))]);
    g.insert_formula(cell("s", "C5"), vec![Precedent::Cell(cell("s", "B3"))]);
    g.insert_formula(cell("s", "D1"), vec![Precedent::Range(range("s", "D1", "D1"))]);
    g
}

#[test]
fn cycle_cells_are_exactly_the_cells_on_a_cycle() {
    let g = cyclic();
    assert_eq!(g.cycle_cells(), vec![cell("s", "D1"), cell("s", "B2"), cell("s", "B3")]);
}

#[test]
fn topological_order_reports_the_cycle() {
    let g = cyclic();
    assert_eq!(g.topological_order().unwrap_err(), g.cycle_cells());
}

#[test]
fn acyclic_order_skips_cycle_and_downstream() {
    let g = cyclic();
    let cycle = g.cycle_cells();
    let order = g.acyclic_order_excluding(&cycle);
    assert_eq!(order, vec![cell("s", "A1"), cell("s", "A2"), cell("s", "A3"), cell("s", "A4")]);
}

#[test]
fn acyclic_order_equals_topological_order_without_cycles() {
    let g = chain();
    assert_eq!(g.acyclic_order_excluding(&g.cycle_cells()), g.topological_order().unwrap());
}

#[test]
fn range_contains_is_a_rectangle_test() {
    let r = range("s", "B2", "C4");
    assert!(r.contains(&cell("s", "B2")));
    assert!(r.contains(&cell("s", "C4")));
    assert!(!r.contains(&cell("s", "D4")));
    assert!(!r.contains(&cell("s", "A3")));
    assert!(!r.contains(&cell("t", "B2")));
}

#[test]
fn insert_sorted_keeps_order_and_drops_repeats() {
    let mut v = Vec::new();
    insert_sorted(&mut v, cell("s", "B2"));
    insert_sorted(&mut v, cell("a", "C9"));
    insert_sorted(&mut v, cell("s", "A1"));
    insert_sorted(&mut v, cell("s", "B2"));
    assert_eq!(v, vec![cell("a", "C9"), cell("s", "A1"), cell("s", "B2")]);
}

#[test]
fn dirty_cells_close_over_dependents() {
    let mut g = chain();
    g.insert_formula(cell("s", "C1"), vec![Precedent::Cell(cell("s", "C2"))]);
    // Editing the literal B1 dirties everything that reads it, transitively.
    assert_eq!(
        g.dirty_cells(&[cell("s", "B1")]),
        vec![cell("s", "A1"), cell("s", "A2"), cell("s", "A3"), cell("s", "A4")]
    );
    // An edited formula cell recomputes itself and its readers.
    assert_eq!(g.dirty_cells(&[cell("s", "A2")]), vec![cell("s", "A2"), cell("s", "A3"), cell("s", "A4")]);
    assert_eq!(g.dirty_cells(&[cell("s", "C2")]), vec![cell("s", "C1")]);
    // An edit nothing reads dirties nothing.
    assert_eq!(g.dirty_cells(&[cell("t", "A1")]), Vec::<CellRef>::new());
    assert_eq!(g.dirty_cells(&[]), Vec::<CellRef>::new());
}
