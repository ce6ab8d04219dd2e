use ferrum::ast::{Bound, RefTarget};
use ferrum::coord::{A1Ref, CellAddr, CellRef, RangeAddr, RangeRef, SheetId};
use ferrum::graph::{insert_sorted, range_of, tile_of, tiles_covering, Dependency, DependencyGraph, Tile};

const SHEET: SheetId = SheetId(0);

fn at(a1: &str) -> CellAddr {
    CellAddr::new(SHEET, A1Ref::parse(a1).unwrap().cell)
}

fn range(a: &str, b: &str) -> RangeAddr {
    RangeAddr::new(
        SHEET,
        RangeRef::new(A1Ref::parse(a).unwrap().cell, A1Ref::parse(b).unwrap().cell),
    )
}

#[test]
fn an_edit_finds_the_formula_that_reads_it_directly() {
    let mut graph = DependencyGraph::new();
    graph.set_precedents(at("C1"), vec![Dependency::Cell(at("A1"))]);
    assert_eq!(graph.dependents_of(at("A1")), [at("C1")]);
    assert!(graph.dependents_of(at("A2")).is_empty());
}

#[test]
fn an_edit_inside_a_range_finds_the_formula_reading_it() {
    let mut graph = DependencyGraph::new();
    graph.set_precedents(at("C1"), vec![Dependency::Range(range("A1", "A100"))]);
    assert_eq!(graph.dependents_of(at("A50")), [at("C1")]);
    assert!(graph.dependents_of(at("B50")).is_empty());
    assert!(graph.dependents_of(at("A101")).is_empty());
}

#[test]
fn a_whole_column_watcher_is_found_without_being_bucketed() {
    let wide = RangeAddr::new(SHEET, RangeRef::whole_columns(0, 0));
    assert!(tiles_covering(wide).is_none());
    let mut graph = DependencyGraph::new();
    graph.set_precedents(at("C1"), vec![Dependency::Range(wide)]);
    assert_eq!(graph.dependents_of(at("A500000")), [at("C1")]);
    assert!(graph.dependents_of(at("B1")).is_empty());
}

#[test]
fn replacing_a_formula_withdraws_its_old_edges() {
    let mut graph = DependencyGraph::new();
    graph.set_precedents(at("C1"), vec![Dependency::Cell(at("A1"))]);
    graph.set_precedents(at("C1"), vec![Dependency::Cell(at("B1"))]);
    assert!(graph.dependents_of(at("A1")).is_empty());
    assert_eq!(graph.dependents_of(at("B1")), [at("C1")]);
}

#[test]
fn clearing_a_formula_removes_every_trace_of_it() {
    let mut graph = DependencyGraph::new();
    graph.set_precedents(
        at("C1"),
        vec![
            Dependency::Cell(at("A1")),
            Dependency::Range(range("B1", "B9")),
            Dependency::Range(RangeAddr::new(SHEET, RangeRef::whole_columns(3, 3))),
        ],
    );
    graph.clear(at("C1"));
    assert!(graph.dependents_of(at("A1")).is_empty());
    assert!(graph.dependents_of(at("B5")).is_empty());
    assert!(graph.dependents_of(at("D7")).is_empty());
    assert_eq!(graph.formula_count(), 0);
    // And the internal buckets did not leak.
    assert!(graph.is_empty());
}

#[test]
fn several_formulas_reading_one_cell_are_all_found() {
    let mut graph = DependencyGraph::new();
    graph.set_precedents(at("C1"), vec![Dependency::Cell(at("A1"))]);
    graph.set_precedents(at("C2"), vec![Dependency::Range(range("A1", "A9"))]);
    let mut found = graph.dependents_of(at("A1"));
    found.sort_unstable();
    assert_eq!(found, [at("C1"), at("C2")]);
}

#[test]
fn dependents_come_back_in_order_and_once() {
    let mut graph = DependencyGraph::new();
    graph.set_precedents(at("D4"), vec![Dependency::Cell(at("A1")), Dependency::Cell(at("A1"))]);
    graph.set_precedents(at("B2"), vec![Dependency::Range(range("A1", "Z300"))]);
    graph.set_precedents(
        CellAddr::new(SheetId(0), CellRef::new(0, 5)),
        vec![Dependency::Range(RangeAddr::new(SHEET, RangeRef::whole_rows(0, 0)))],
    );
    assert_eq!(graph.dependents_of(at("A1")), [at("F1"), at("B2"), at("D4")]);
    assert_eq!(graph.formula_count(), 3);
    assert_eq!(graph.precedents_of(at("D4")).len(), 2);
    assert!(graph.precedents_of(at("Z9")).is_empty());
}

#[test]
fn a_range_across_tiles_is_found_from_each() {
    let mut graph = DependencyGraph::new();
    graph.set_precedents(at("A1"), vec![Dependency::Range(range("B200", "B600"))]);
    assert_eq!(graph.dependents_of(at("B200")), [at("A1")]);
    assert_eq!(graph.dependents_of(at("B300")), [at("A1")]);
    assert_eq!(graph.dependents_of(at("B600")), [at("A1")]);
    assert!(graph.dependents_of(at("B601")).is_empty());
    graph.set_precedents(at("A1"), Vec::new());
    assert!(graph.is_empty());
}

#[test]
fn references_on_another_sheet_are_not_found_here() {
    let mut graph = DependencyGraph::new();
    graph.set_precedents(at("A1"), vec![Dependency::Cell(CellAddr::new(SheetId(1), CellRef::new(0, 1)))]);
    assert!(graph.dependents_of(at("B1")).is_empty());
    assert_eq!(graph.dependents_of(CellAddr::new(SheetId(1), CellRef::new(0, 1))), [at("A1")]);
}

#[test]
fn cells_fall_in_tiles_of_two_hundred_and_fifty_six() {
    assert_eq!(tile_of(at("A1")), Tile { sheet: SHEET, row: 0, col: 0 });
    assert_eq!(tile_of(CellAddr::new(SHEET, CellRef::new(256, 511))), Tile { sheet: SHEET, row: 1, col: 1 });
}

#[test]
fn a_written_reference_reads_its_range() {
    let a1 = A1Ref::parse("B2").unwrap();
    let c4 = A1Ref::parse("C4").unwrap();
    assert_eq!(range_of(&RefTarget::Cell(a1)), Some(RangeRef::single(a1.cell)));
    assert_eq!(range_of(&RefTarget::Range { start: c4, end: a1 }), Some(RangeRef::new(a1.cell, c4.cell)));
    let b = Bound { index: 2, absolute: false };
    assert_eq!(range_of(&RefTarget::Columns { first: b, last: b }), Some(RangeRef::whole_columns(2, 2)));
    assert_eq!(range_of(&RefTarget::Rows { first: b, last: b }), Some(RangeRef::whole_rows(2, 2)));
    assert_eq!(range_of(&RefTarget::Invalid), None);
}

#[test]
fn sorted_insertion_keeps_one_of_each() {
    let mut list = Vec::new();
    for a in ["C3", "A1", "B7", "A1", "C3", "A2"] {
        insert_sorted(&mut list, at(a));
    }
    // Rows first, then columns: C3 is on row 3, B7 on row 7.
    assert_eq!(list, [at("A1"), at("A2"), at("C3"), at("B7")]);
}
