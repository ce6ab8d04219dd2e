use ferrum::coord::{A1Ref, CellRef, RangeAddr, RangeRef, SheetId};
use ferrum::operand::Reference;

const SHEET: SheetId = SheetId(0);

fn range(a: &str, b: &str) -> RangeRef {
    RangeRef::new(A1Ref::parse(a).unwrap().cell, A1Ref::parse(b).unwrap().cell)
}

#[test]
fn intersection_finds_the_shared_cells() {
    let across = Reference::single(SHEET, range("A3", "E3"));
    let down = Reference::single(SHEET, range("C1", "C9"));
    let shared = across.intersect(&down).unwrap();
    assert_eq!(shared.as_single_cell().unwrap().cell.to_a1(), "C3");
}

#[test]
fn disjoint_references_share_nothing() {
    let left = Reference::single(SHEET, range("A1", "A2"));
    let right = Reference::single(SHEET, range("C1", "C2"));
    assert!(left.intersect(&right).is_none());
}

#[test]
fn references_on_different_sheets_never_intersect() {
    let here = Reference::single(SheetId(0), range("A1", "Z99"));
    let there = Reference::single(SheetId(1), range("A1", "Z99"));
    assert!(here.intersect(&there).is_none());
}

#[test]
fn a_union_keeps_its_areas_apart() {
    let left = Reference::single(SHEET, range("A1", "A2"));
    let right = Reference::single(SHEET, range("C1", "C2"));
    let joined = left.union(right);
    assert_eq!(joined.areas().len(), 2);
    assert_eq!(joined.area(), 4);
}

#[test]
fn an_empty_list_of_areas_is_no_reference() {
    assert!(Reference::new(Vec::new()).is_none());
    let one = Reference::new(vec![RangeAddr::new(SHEET, range("B2", "C3"))]).unwrap();
    assert_eq!(one.area(), 4);
    assert_eq!(one.as_single_area(), Some(RangeAddr::new(SHEET, range("B2", "C3"))));
    assert!(one.as_single_cell().is_none());
}

#[test]
fn a_single_cell_reference_is_a_cell() {
    let r = Reference::cell(SHEET, CellRef::new(4, 2));
    assert_eq!(r.as_single_cell().unwrap().cell.to_a1(), "C5");
    assert_eq!(r.area(), 1);
}

#[test]
fn a_union_is_neither_a_single_area_nor_a_cell() {
    let a = Reference::cell(SHEET, CellRef::new(0, 0));
    let b = Reference::cell(SHEET, CellRef::new(0, 0));
    let joined = a.union(b);
    assert!(joined.as_single_area().is_none());
    assert!(joined.as_single_cell().is_none());
    assert_eq!(joined.area(), 2);
}

#[test]
fn intersecting_unions_pairs_every_area() {
    let left = Reference::single(SHEET, range("A1", "B2"))
        .union(Reference::single(SHEET, range("D1", "E2")));
    let right = Reference::single(SHEET, range("B1", "D1"));
    let shared = left.intersect(&right).unwrap();
    assert_eq!(shared.areas().len(), 2);
    assert_eq!(shared.areas()[0].range.to_a1(), "B1");
    assert_eq!(shared.areas()[1].range.to_a1(), "D1");
}

#[test]
fn the_area_of_a_union_adds_up_its_parts() {
    let a = Reference::single(SHEET, range("A1", "B3"));
    let b = Reference::single(SHEET, range("B2", "D2"));
    let (left, right) = (a.area(), b.area());
    assert_eq!((left, right), (6, 3));
    // The shared cell B2 is counted twice.
    assert_eq!(a.union(b).area(), left + right);
}
