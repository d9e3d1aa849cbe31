use std::sync::Arc;

use truecalc_workbook::caches::{CachedGraph, GraphCache, PreImageStats, SpillAnchorCache};
use truecalc_workbook::depgraph::NameTarget;
use truecalc_workbook::value::CellValue;
use truecalc_workbook::workbook::CellInput;
use truecalc_workbook::{spill_rect, Address, CellRef, DependencyGraph, Precedent};
use truecalc_workbook::{EngineFlavor, Workbook, Worksheet};

fn cell(s: &str) -> CellRef {
    CellRef::new("s".to_string(), Address::from_a1(s).unwrap())
}

fn graph() -> DependencyGraph {
    let mut g = DependencyGraph::new();
    g.set_name_target("n".to_string(), NameTarget::Cell(cell("A1")));
    g.insert_formula(cell("A1"), vec![Precedent::Cell(cell("A2"))]);
    g.insert_formula(cell("A2"), vec![Precedent::Cell(cell("A1"))]);
    g.insert_formula(cell("B1"), vec![Precedent::Name("n".to_string())]);
    g.insert_formula(cell("C1"), vec![]);
    g
}

#[test]
fn cached_graph_holds_cycle_and_order() {
    let c = CachedGraph::new(graph());
    assert_eq!(c.graph().formula_cells().len(), 4);
    let cache = GraphCache::default();
    assert!(!cache.is_warm());
    let mut cache = cache;
    cache.store(Arc::new(c));
    assert!(cache.is_warm());
    assert_eq!(cache.builds(), 1);
    let entry = cache.get().unwrap();
    assert_eq!(entry.graph().cycle_cells(), vec![cell("A1"), cell("A2")]);
    cache.invalidate();
    assert!(cache.get().is_none());
    assert_eq!(cache.builds(), 1);
}

#[test]
fn spill_anchor_cache_shares_its_entry() {
    let mut cache = SpillAnchorCache::default();
    let rect = spill_rect(Address::from_a1("A1").unwrap(), 2, 2).unwrap();
    let entry = Arc::new(vec![(cell("A1"), rect)]);
    cache.store(entry.clone());
    let got = cache.get().unwrap();
    assert!(Arc::ptr_eq(&got, &entry));
    cache.invalidate();
    assert!(!cache.is_warm());
    cache.store(entry);
    assert_eq!(cache.builds(), 2);
}

#[test]
fn pre_image_stats_record_the_last_count() {
    let mut s = PreImageStats::default();
    assert_eq!(s.count(), 0);
    s.record(7);
    s.record(3);
    assert_eq!(s.count(), 3);
}

fn warm(w: &mut Workbook) {
    w.store_cached_graph(Arc::new(CachedGraph::new(DependencyGraph::new())));
}

#[test]
fn a_workbook_graph_cache_drops_on_what_the_graph_can_see() {
    let a = |s: &str| Address::from_a1(s).unwrap();
    let lit = |t: &str| CellInput::Literal(CellValue::Number(t.to_string()));
    let mut w = Workbook::new(EngineFlavor::Sheets);
    assert!(!w.graph_cache_is_warm());
    assert_eq!(w.graph_builds(), 0);
    w.add_sheet(Worksheet::new("S".to_string())).unwrap();
    warm(&mut w);
    assert!(w.graph_cache_is_warm());
    assert!(w.cached_graph_entry().is_some());
    assert_eq!(w.graph_builds(), 1);
    // A literal over a literal in a workbook with no table: the graph cannot see it.
    w.set("S", a("A1"), lit("1"), None, false).unwrap();
    assert!(w.graph_cache_is_warm());
    w.clear("S", a("A1"));
    assert!(w.graph_cache_is_warm());
    // A formula write is a new node.
    w.set("S", a("B1"), CellInput::Formula("=1".to_string()), None, false).unwrap();
    assert!(!w.graph_cache_is_warm());
    warm(&mut w);
    // Replacing that formula by a literal removes the node.
    w.set("S", a("B1"), lit("2"), None, false).unwrap();
    assert!(!w.graph_cache_is_warm());
    warm(&mut w);
    // A refused mutation keeps the cache.
    assert!(w.define_name("1bad", "S!A1").is_err());
    assert!(w.graph_cache_is_warm());
    w.define_name("N", "S!A1").unwrap();
    assert!(!w.graph_cache_is_warm());
    warm(&mut w);
    w.drop_derived_state();
    assert!(!w.graph_cache_is_warm());
    assert_eq!(w.graph_builds(), 4);
    assert_eq!(w.get("S", a("B1")).unwrap().value(), &CellValue::Number("2".to_string()));
}
