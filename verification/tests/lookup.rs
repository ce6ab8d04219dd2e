use ferrum::coord::{A1Ref, CellAddr, CellRef, RangeAddr, RangeRef, SheetId};
use ferrum::lookup::{index_array, index_reference, lookup_table, lookup_vector, reference_shape, table_answer, table_lookup};
use ferrum::operand::{Array, Reference};
use ferrum::value::CalcError;

fn cell(a1: &str) -> CellRef {
    A1Ref::parse(a1).unwrap().cell
}

fn range(a: &str, b: &str) -> Reference {
    Reference::single(SheetId(0), RangeRef::new(cell(a), cell(b)))
}

fn areas(r: &Result<Reference, CalcError>) -> Vec<RangeAddr> {
    r.as_ref().unwrap().areas().to_vec()
}

#[test]
fn shape_counts_rows_and_columns() {
    assert_eq!(reference_shape(&range("A1", "A4")), Ok((4, 1)));
    assert_eq!(reference_shape(&range("A1", "D1")), Ok((1, 4)));
    assert_eq!(reference_shape(&range("B2", "C5")), Ok((4, 2)));
}

#[test]
fn shape_of_a_union_is_a_ref_error() {
    let both = range("A1", "A2").union(range("C1", "C2"));
    assert_eq!(reference_shape(&both), Err(CalcError::Ref));
}

#[test]
fn index_down_a_column_picks_a_cell() {
    // INDEX(A1:A4,3) is A3.
    let r = index_reference(&range("A1", "A4"), 3, None);
    assert_eq!(areas(&r), vec![RangeAddr::new(SheetId(0), RangeRef::single(cell("A3")))]);
}

#[test]
fn index_along_a_row_with_one_index() {
    // INDEX(A1:D1,2) is B1: one index over a single row runs along it.
    let r = index_reference(&range("A1", "D1"), 2, None);
    assert_eq!(areas(&r), vec![RangeAddr::new(SheetId(0), RangeRef::single(cell("B1")))]);
}

#[test]
fn index_with_row_and_column() {
    // INDEX(A1:B4,2,2) is B2.
    let r = index_reference(&range("A1", "B4"), 2, Some(2));
    assert_eq!(areas(&r), vec![RangeAddr::new(SheetId(0), RangeRef::single(cell("B2")))]);
}

#[test]
fn index_zero_takes_the_whole_line() {
    // INDEX(A1:C4,0,2) is B1:B4, INDEX(A1:C4,3,0) is A3:C3.
    let column = index_reference(&range("A1", "C4"), 0, Some(2));
    assert_eq!(areas(&column), vec![RangeAddr::new(SheetId(0), RangeRef::new(cell("B1"), cell("B4")))]);
    let row = index_reference(&range("A1", "C4"), 3, Some(0));
    assert_eq!(areas(&row), vec![RangeAddr::new(SheetId(0), RangeRef::new(cell("A3"), cell("C3")))]);
    let whole = index_reference(&range("A1", "C4"), 0, Some(0));
    assert_eq!(areas(&whole), vec![RangeAddr::new(SheetId(0), RangeRef::new(cell("A1"), cell("C4")))]);
    // One index over a block that is neither a row nor a column takes the row.
    let one = index_reference(&range("A1", "C4"), 2, None);
    assert_eq!(areas(&one), vec![RangeAddr::new(SheetId(0), RangeRef::new(cell("A2"), cell("C2")))]);
}

#[test]
fn index_offsets_from_the_stated_corner() {
    let r = index_reference(&range("C3", "E6"), 4, Some(3));
    assert_eq!(areas(&r), vec![RangeAddr::new(SheetId(0), RangeRef::single(cell("E6")))]);
}

#[test]
fn index_out_of_range_is_a_ref_error() {
    // INDEX(A1:A4,9) is #REF!.
    assert_eq!(index_reference(&range("A1", "A4"), 9, None), Err(CalcError::Ref));
    assert_eq!(index_reference(&range("A1", "B4"), 1, Some(3)), Err(CalcError::Ref));
}

#[test]
fn index_negative_is_a_value_error() {
    assert_eq!(index_reference(&range("A1", "A4"), -1, None), Err(CalcError::Value));
    assert_eq!(index_reference(&range("A1", "B4"), 1, Some(-2)), Err(CalcError::Value));
}

#[test]
fn index_into_a_union_is_a_ref_error() {
    let both = range("A1", "A2").union(range("C1", "C2"));
    assert_eq!(index_reference(&both, 1, None), Err(CalcError::Ref));
}

#[test]
fn lookup_positions_count_from_the_stated_range() {
    // Data in A3:A4 of a stated A1:A4: positions 3 and 4, not 1 and 2.
    let walked = lookup_vector(RangeRef::new(cell("A3"), cell("A4")), RangeRef::new(cell("A1"), cell("A4")));
    assert_eq!(walked, vec![(3, cell("A3")), (4, cell("A4"))]);
    // Along a row the position is the column's.
    let across = lookup_vector(RangeRef::new(cell("C2"), cell("D2")), RangeRef::new(cell("A2"), cell("F2")));
    assert_eq!(across, vec![(3, cell("C2")), (4, cell("D2"))]);
}

#[test]
fn a_vertical_lookup_searches_the_first_column() {
    let table = RangeRef::new(cell("A1"), cell("C4"));
    assert_eq!(lookup_table(table, 2, true), Ok(RangeRef::new(cell("A1"), cell("A4"))));
    // The key found third down, read two columns across: B3.
    assert_eq!(table_answer(table, 3, 2, true), cell("B3"));
}

#[test]
fn a_horizontal_lookup_searches_the_first_row() {
    let table = RangeRef::new(cell("B2"), cell("E3"));
    assert_eq!(lookup_table(table, 2, false), Ok(RangeRef::new(cell("B2"), cell("E2"))));
    assert_eq!(table_answer(table, 3, 2, false), cell("D3"));
}

#[test]
fn a_lookup_offset_outside_the_table_is_refused() {
    let table = RangeRef::new(cell("A1"), cell("C4"));
    assert_eq!(lookup_table(table, 0, true), Err(CalcError::Value));
    assert_eq!(lookup_table(table, -3, true), Err(CalcError::Value));
    assert_eq!(lookup_table(table, 4, true), Err(CalcError::Ref));
    assert_eq!(lookup_table(table, 3, true), Ok(RangeRef::new(cell("A1"), cell("A4"))));
    assert_eq!(lookup_table(table, 5, false), Err(CalcError::Ref));
}

#[test]
fn an_index_keeps_only_its_low_32_bits() {
    // 2^32 + 1 reads as 1, the way a sheet position is stored.
    let big: i64 = (u32::MAX as i64) + 2;
    assert_eq!(
        areas(&index_reference(&range("A1", "A4"), big, None)),
        vec![RangeAddr::new(SheetId(0), RangeRef::single(cell("A1")))]
    );
    assert_eq!(
        areas(&index_reference(&range("B2", "D4"), 2, Some(big))),
        vec![RangeAddr::new(SheetId(0), RangeRef::single(cell("B3")))]
    );
    let table = RangeRef::new(cell("A1"), cell("C4"));
    assert_eq!(lookup_table(table, big, true), Ok(RangeRef::new(cell("A1"), cell("A4"))));
    assert_eq!(table_answer(table, 2, big, true), cell("A2"));
    // 2^32 + 5 reads as 5, past the table's three columns.
    assert_eq!(lookup_table(table, big + 4, true), Err(CalcError::Ref));
}

#[test]
fn a_table_lookup_checks_the_offset_before_the_search() {
    let table = RangeAddr::new(SheetId(1), RangeRef::new(cell("A1"), cell("C4")));
    // An offset outside the table wins over a key that was not found.
    assert_eq!(table_lookup(table, 0, true, None), Err(CalcError::Value));
    assert_eq!(table_lookup(table, 4, true, None), Err(CalcError::Ref));
    // A key that was not found is #N/A.
    assert_eq!(table_lookup(table, 2, true, None), Err(CalcError::NotAvailable));
    // Found third down, read two columns across: B3 of the table's sheet.
    assert_eq!(table_lookup(table, 2, true, Some(3)), Ok(CellAddr::new(SheetId(1), cell("B3"))));
    // Found second along the first row, read from the third row: B3.
    assert_eq!(table_lookup(table, 3, false, Some(2)), Ok(CellAddr::new(SheetId(1), cell("B3"))));
}

#[test]
fn index_into_an_array_counts_from_one() {
    let grid = Array::from_rows(vec![vec![1, 2, 3], vec![4, 5, 6]]).unwrap();
    assert_eq!(index_array(&grid, 2, Some(3)), Ok(&6));
    // One index runs down the first column of a block ...
    assert_eq!(index_array(&grid, 2, None), Ok(&4));
    // ... and along a single row.
    let row = Array::from_rows(vec![vec![7, 8, 9]]).unwrap();
    assert_eq!(index_array(&row, 3, None), Ok(&9));
    assert_eq!(index_array(&grid, 0, Some(1)), Err(CalcError::Value));
    assert_eq!(index_array(&grid, 1, Some(-1)), Err(CalcError::Value));
    assert_eq!(index_array(&grid, 3, Some(1)), Err(CalcError::Ref));
    assert_eq!(index_array(&grid, 1, Some(4)), Err(CalcError::Ref));
    // Only the low 32 bits count: 2^32 + 2 reads as 2, and 2^32 as 0, whose
    // step back to counting from zero wraps past the last row.
    assert_eq!(index_array(&grid, (u32::MAX as i64) + 3, Some(1)), Ok(&4));
    assert_eq!(index_array(&grid, (u32::MAX as i64) + 1, Some(1)), Err(CalcError::Ref));
}
