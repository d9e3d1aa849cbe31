use truecalc_workbook::grid_spills::{anchor_rectangles, GridSpillIndex, StoredCell, StoredSheet};
use truecalc_workbook::spill_rect;
use truecalc_workbook::{Address, CellRef};

/// A 2x1 array: the smallest storable spill.
fn two_row_array(addr: Address) -> StoredCell {
    StoredCell { addr, array: Some((2, 1)) }
}

/// A stored sheet named `name` from cells given by key, in stored-grid
/// (canonical key) order.
fn sheet_of(name: &str, mut cells: Vec<(String, StoredCell)>) -> StoredSheet {
    cells.sort_by(|a, b| a.0.cmp(&b.0));
    StoredSheet { name: name.to_string(), cells: cells.into_iter().map(|(_, c)| c).collect() }
}

/// A workbook whose only sheet holds `literals` plain literal cells down
/// column A, plus `anchors` spill anchors spread across column C, placed 10
/// rows apart so their rectangles never overlap.
fn sheet_with(literals: u32, anchors: u32) -> Vec<StoredSheet> {
    let mut cells = Vec::new();
    for row in 1..=literals {
        let addr = Address::new(row, 1).unwrap();
        cells.push((addr.to_a1(), StoredCell { addr, array: None }));
    }
    for i in 0..anchors {
        let addr = Address::new(1 + i * 10, 3).unwrap();
        cells.push((addr.to_a1(), two_row_array(addr)));
    }
    vec![sheet_of("Sheet1", cells)]
}

#[test]
fn cells_examined_per_empty_read_does_not_grow_with_the_sheet() {
    let recomputed: Vec<CellRef> = Vec::new();
    let mut examined = Vec::new();
    for literals in [1_000u32, 8_000, 64_000] {
        let wb = sheet_with(literals, 3);
        let index = GridSpillIndex::build(&wb, &recomputed);
        examined.push((literals, index.anchors("sheet1").len()));
    }
    assert_eq!(
        examined,
        vec![(1_000, 3), (8_000, 3), (64_000, 3)],
        "an empty-cell read must examine only the sheet's spill anchors, not its cells"
    );
}

#[test]
fn a_sheet_without_spills_has_no_anchors() {
    let wb = sheet_with(1_000, 0);
    let index = GridSpillIndex::build(&wb, &[]);
    assert!(index.anchors("sheet1").is_empty());
    assert!(index.anchors("nosuchsheet").is_empty());
}

#[test]
fn anchors_are_indexed_in_stored_grid_order_with_their_rectangles() {
    let wb = sheet_with(0, 2);
    let index = GridSpillIndex::build(&wb, &[]);
    let anchors = index.anchors("sheet1");
    assert_eq!(anchors.len(), 2);
    assert_eq!(anchors[0].0, Address::new(1, 3).unwrap());
    assert_eq!(anchors[1].0, Address::new(11, 3).unwrap());
    // C1's 2x1 array covers C1:C2, so C2 resolves through it and C3 does not.
    assert_eq!(anchors[0].1.offset_of(Address::new(2, 3).unwrap()), Some((1, 0)));
    assert_eq!(anchors[0].1.offset_of(Address::new(3, 3).unwrap()), None);
}

#[test]
fn an_anchor_being_recomputed_is_excluded() {
    let wb = sheet_with(0, 2);
    let recomputed = vec![CellRef { sheet: "sheet1".to_owned(), addr: Address::new(1, 3).unwrap() }];
    let index = GridSpillIndex::build(&wb, &recomputed);
    let anchors = index.anchors("sheet1");
    assert_eq!(anchors.len(), 1, "the recomputed anchor must not be indexed");
    assert_eq!(anchors[0].0, Address::new(11, 3).unwrap());
}

#[test]
fn anchors_are_keyed_by_the_folded_sheet_name() {
    let a1 = Address::new(1, 1).unwrap();
    let wb = vec![sheet_of("MiXeD", vec![("A1".to_owned(), two_row_array(a1))])];
    let index = GridSpillIndex::build(&wb, &[]);
    assert_eq!(index.anchors("mixed").len(), 1);
    assert!(index.anchors("MiXeD").is_empty());
}

#[test]
fn out_of_bounds_arrays_are_not_anchors() {
    let last = Address::new(10_000_000, 1).unwrap();
    let wb = vec![sheet_of("S", vec![("A10000000".to_owned(), two_row_array(last))])];
    let index = GridSpillIndex::build(&wb, &[]);
    assert!(index.anchors("s").is_empty());
}

#[test]
fn a_later_sheet_with_the_same_fold_and_anchors_wins() {
    let a1 = Address::new(1, 1).unwrap();
    let b1 = Address::new(1, 2).unwrap();
    let wb = vec![
        sheet_of("Data", vec![("A1".to_owned(), two_row_array(a1))]),
        sheet_of("DATA", vec![("B1".to_owned(), two_row_array(b1))]),
        sheet_of("data", vec![("A1".to_owned(), StoredCell { addr: a1, array: None })]),
    ];
    let index = GridSpillIndex::build(&wb, &[]);
    let anchors = index.anchors("data");
    assert_eq!(anchors.len(), 1);
    assert_eq!(anchors[0].0, b1);
}

#[test]
fn anchor_rectangles_key_each_spill_by_its_folded_anchor_cell() {
    let a = |s: &str| Address::from_a1(s).unwrap();
    let sheets = vec![
        StoredSheet {
            name: "Data".to_string(),
            cells: vec![
                StoredCell { addr: a("A1"), array: Some((2, 3)) },
                StoredCell { addr: a("B5"), array: None },
                // Leaves the grid: no rectangle.
                StoredCell { addr: a("A10000000"), array: Some((2, 1)) },
            ],
        },
        StoredSheet { name: "Empty".to_string(), cells: vec![] },
        StoredSheet { name: "ÉTÉ".to_string(), cells: vec![StoredCell { addr: a("C3"), array: Some((1, 1)) }] },
    ];
    let rects = anchor_rectangles(&sheets);
    assert_eq!(
        rects,
        vec![
            (CellRef::new("data".to_string(), a("A1")), spill_rect(a("A1"), 2, 3).unwrap()),
            (CellRef::new("été".to_string(), a("C3")), spill_rect(a("C3"), 1, 1).unwrap()),
        ]
    );
}
