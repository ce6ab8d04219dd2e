use ferrum::conditional::{conditional_areas, conditional_cells, totalled_cell};
use ferrum::coord::{A1Ref, CellAddr, CellRef, RangeAddr, RangeRef, SheetId};
use ferrum::operand::Reference;
use ferrum::value::CalcError;

const SHEET: SheetId = SheetId(0);

fn cell(a1: &str) -> CellRef {
    A1Ref::parse(a1).unwrap().cell
}

fn area(a: &str, b: &str) -> RangeAddr {
    RangeAddr::new(SHEET, RangeRef::new(cell(a), cell(b)))
}

fn addr(a1: &str) -> CellAddr {
    CellAddr::new(SHEET, cell(a1))
}

#[test]
fn the_tested_argument_must_be_one_area() {
    let one = Reference::single(SHEET, area("A1", "A3").range);
    let two = Reference::single(SHEET, area("A1", "A3").range).union(Reference::single(SHEET, area("C1", "C3").range));
    assert_eq!(conditional_areas(None, None, None), Err(CalcError::Value));
    assert_eq!(conditional_areas(Some(&two), None, None), Err(CalcError::Value));
    assert_eq!(conditional_areas(Some(&one), None, None), Ok((area("A1", "A3"), None)));
}

#[test]
fn the_checks_come_in_argument_order() {
    let one = Reference::single(SHEET, area("A1", "A3").range);
    let two = Reference::single(SHEET, area("A1", "A3").range).union(Reference::single(SHEET, area("C1", "C3").range));
    // The criterion's error comes before a bad totalled argument ...
    assert_eq!(
        conditional_areas(Some(&one), Some(CalcError::NotAvailable), Some(None)),
        Err(CalcError::NotAvailable)
    );
    // ... and after a bad tested argument.
    assert_eq!(conditional_areas(None, Some(CalcError::NotAvailable), None), Err(CalcError::Value));
    assert_eq!(conditional_areas(Some(&one), None, Some(None)), Err(CalcError::Value));
    assert_eq!(conditional_areas(Some(&one), None, Some(Some(&two))), Err(CalcError::Value));
    let target = Reference::single(SHEET, area("B5", "B7").range);
    assert_eq!(
        conditional_areas(Some(&one), None, Some(Some(&target))),
        Ok((area("A1", "A3"), Some(area("B5", "B7"))))
    );
}

#[test]
fn the_totalled_cell_keeps_the_offset_from_the_tested_corner() {
    let tested = area("A1", "A10");
    // Without a totalled range the tested cell is totalled itself.
    assert_eq!(totalled_cell(tested, None, addr("A4")), Some(addr("A4")));
    // A4 is three rows down from A1, so C5 + 3 rows is C8.
    assert_eq!(totalled_cell(tested, Some(area("C5", "C5")), addr("A4")), Some(addr("C8")));
    // Past the grid's last row there is nothing to total.
    let bottom = area("D1048576", "D1048576");
    assert_eq!(totalled_cell(tested, Some(bottom), addr("A2")), None);
}

#[test]
fn matches_are_counted_and_their_cells_listed_in_order() {
    // SUMIF(A1:A4, crit, B1): rows 1 and 3 match, and the leading rows of
    // the column being empty does not shift the totalled cells.
    let tested = area("A1", "A4");
    let visited = [addr("A2"), addr("A3"), addr("A4")];
    let matched = [false, true, true];
    let (count, cells) = conditional_cells(tested, Some(area("B1", "B1")), &visited, &matched);
    assert_eq!(count, 2);
    assert_eq!(cells, vec![addr("B3"), addr("B4")]);

    let (count, cells) = conditional_cells(tested, None, &visited, &matched);
    assert_eq!(count, 2);
    assert_eq!(cells, vec![addr("A3"), addr("A4")]);
}

#[test]
fn a_match_whose_totalled_cell_is_off_the_grid_still_counts() {
    let tested = area("A1", "A2");
    let visited = [addr("A1"), addr("A2")];
    let (count, cells) = conditional_cells(tested, Some(area("A1048576", "A1048576")), &visited, &[true, true]);
    assert_eq!(count, 2);
    assert_eq!(cells, vec![addr("A1048576")]);
}
