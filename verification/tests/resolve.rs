use ferrum::ast::{Bound, RefTarget, SheetRef};
use ferrum::coord::{A1Ref, CellAddr, CellRef, RangeAddr, RangeRef, SheetId};
use ferrum::operand::Reference;
use ferrum::resolve::{
    clipped_areas, implicit_cell, intersect_references, name_scope, range_op, reference_to, union_references,
};
use ferrum::value::CalcError;

fn cell(a1: &str) -> CellRef {
    A1Ref::parse(a1).unwrap().cell
}

fn range(a: &str, b: &str) -> Reference {
    Reference::single(SheetId(0), RangeRef::new(cell(a), cell(b)))
}

#[test]
fn implicit_intersection_picks_the_aligned_cell() {
    // A column read from row 3 gives row 3; from row 1, row 1.
    assert_eq!(implicit_cell(&range("A1", "A4"), cell("F3")), Ok(CellAddr::new(SheetId(0), cell("A3"))));
    assert_eq!(implicit_cell(&range("A1", "A4"), cell("F1")), Ok(CellAddr::new(SheetId(0), cell("A1"))));
    // A row read from column C gives column C.
    assert_eq!(implicit_cell(&range("A2", "D2"), cell("C9")), Ok(CellAddr::new(SheetId(0), cell("C2"))));
    // One cell is itself wherever the formula is.
    assert_eq!(implicit_cell(&range("B2", "B2"), cell("Z9")), Ok(CellAddr::new(SheetId(0), cell("B2"))));
}

#[test]
fn a_range_that_does_not_line_up_cannot_collapse() {
    assert_eq!(implicit_cell(&range("A1", "D1"), cell("F1")), Err(CalcError::Value));
    assert_eq!(implicit_cell(&range("A1", "B2"), cell("A1")), Err(CalcError::Value));
    let union = range("A1", "A1").union(range("B1", "B1"));
    assert_eq!(implicit_cell(&union, cell("A1")), Err(CalcError::Value));
}

#[test]
fn a_range_operator_spans_both_sides_on_one_sheet() {
    let joined = range_op(&range("B2", "B2"), &range("D5", "A1")).unwrap();
    assert_eq!(joined.as_single_area(), Some(RangeAddr::new(SheetId(0), RangeRef::new(cell("A1"), cell("D5")))));
    let other = Reference::single(SheetId(1), RangeRef::single(cell("A1")));
    assert_eq!(range_op(&range("A1", "A1"), &other).unwrap_err(), CalcError::Ref);
    let union = range("A1", "A1").union(range("B1", "B1"));
    assert_eq!(range_op(&union, &range("A1", "A1")).unwrap_err(), CalcError::Value);
}

#[test]
fn a_written_reference_covers_every_sheet_named() {
    let target = RefTarget::Cell(A1Ref::parse("A1").unwrap());
    let reference = reference_to(&vec![SheetId(0), SheetId(1), SheetId(2)], &target).unwrap();
    assert_eq!(reference.areas().len(), 3);
    assert_eq!(reference.areas()[2], RangeAddr::new(SheetId(2), RangeRef::single(cell("A1"))));
    assert_eq!(reference_to(&vec![], &target).unwrap_err(), CalcError::Ref);
    assert_eq!(reference_to(&vec![SheetId(0)], &RefTarget::Invalid).unwrap_err(), CalcError::Ref);
    let columns = RefTarget::Columns {
        first: Bound { index: 1, absolute: false },
        last: Bound { index: 2, absolute: false },
    };
    let whole = reference_to(&vec![SheetId(0)], &columns).unwrap();
    assert_eq!(whole.areas()[0].range, RangeRef::whole_columns(1, 2));
}

#[test]
fn clipping_keeps_only_what_the_sheet_holds() {
    let used = vec![Some(RangeRef::new(cell("A1"), cell("C10"))), None];
    let column = Reference::single(SheetId(0), RangeRef::whole_columns(1, 1));
    assert_eq!(clipped_areas(&column, &used), vec![RangeAddr::new(SheetId(0), RangeRef::new(cell("B1"), cell("B10")))]);
    let empty_sheet = Reference::single(SheetId(1), RangeRef::whole_columns(0, 0));
    assert!(clipped_areas(&empty_sheet, &used).is_empty());
    let missing_sheet = Reference::single(SheetId(7), RangeRef::whole_columns(0, 0));
    assert!(clipped_areas(&missing_sheet, &used).is_empty());
    let outside = Reference::single(SheetId(0), RangeRef::whole_columns(5, 5));
    assert!(clipped_areas(&outside, &used).is_empty());
}

fn area(a: &str, b: &str) -> RangeAddr {
    RangeAddr::new(SheetId(0), RangeRef::new(cell(a), cell(b)))
}

#[test]
fn a_defined_name_is_scoped_to_one_sheet_or_none() {
    assert_eq!(name_scope(None, None), Ok(None));
    let one = SheetRef::One("Data".to_string());
    assert_eq!(name_scope(Some(&one), Some(SheetId(3))), Ok(Some(SheetId(3))));
    assert_eq!(name_scope(Some(&one), None), Err(CalcError::Ref));
    let span = SheetRef::Span { first: "A".to_string(), last: "B".to_string() };
    assert_eq!(name_scope(Some(&span), Some(SheetId(1))), Err(CalcError::Name));
}

#[test]
fn the_intersection_operator_needs_two_references_that_meet() {
    let shared = intersect_references(Some(&range("A1", "C3")), Some(&range("B2", "D4"))).unwrap();
    assert_eq!(shared.areas().to_vec(), vec![area("B2", "C3")]);
    assert_eq!(intersect_references(Some(&range("A1", "A2")), Some(&range("C1", "C2"))), Err(CalcError::Null));
    assert_eq!(intersect_references(None, Some(&range("C1", "C2"))), Err(CalcError::Value));
}

#[test]
fn the_union_operator_keeps_every_area_in_order() {
    let joined = union_references(vec![Some(range("A1", "A2")), Some(range("C1", "C2")), Some(range("A1", "A1"))]);
    assert_eq!(joined.unwrap().areas().to_vec(), vec![area("A1", "A2"), area("C1", "C2"), area("A1", "A1")]);
    assert_eq!(union_references(vec![Some(range("A1", "A2")), None]), Err(CalcError::Value));
    assert_eq!(union_references(vec![]), Err(CalcError::Null));
}
