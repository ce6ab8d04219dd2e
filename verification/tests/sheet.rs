use ferrum::coord::{A1Ref, CellRef, RangeRef};
use ferrum::sheet::Sheet;

fn at(a1: &str) -> CellRef {
    A1Ref::parse(a1).unwrap().cell
}

fn literal(text: &str) -> String {
    text.to_string()
}

#[test]
fn an_empty_sheet_has_no_bounds() {
    let sheet: Sheet<String> = Sheet::new("Sheet1");
    assert_eq!(sheet.used_bounds(), None);
    assert!(sheet.get(at("A1")).is_none());
    assert!(sheet.is_empty());
    assert_eq!(sheet.name(), "Sheet1");
}

#[test]
fn the_bounding_box_grows_to_cover_what_is_written() {
    let mut sheet = Sheet::new("Sheet1");
    sheet.insert(at("C3"), literal("1"));
    assert_eq!(sheet.used_bounds().unwrap().to_a1(), "C3");
    sheet.insert(at("A5"), literal("2"));
    assert_eq!(sheet.used_bounds().unwrap().to_a1(), "A3:C5");
    assert_eq!(sheet.populated(), 2);
    assert_eq!(sheet.get(at("A5")).map(String::as_str), Some("2"));
}

#[test]
fn removing_an_interior_cell_leaves_the_box_alone() {
    let mut sheet = Sheet::new("Sheet1");
    sheet.insert(at("A1"), literal("1"));
    sheet.insert(at("B2"), literal("2"));
    sheet.insert(at("C3"), literal("3"));
    assert_eq!(sheet.remove(at("B2")), Some(literal("2")));
    assert_eq!(sheet.used_bounds().unwrap().to_a1(), "A1:C3");
}

#[test]
fn removing_an_edge_cell_shrinks_the_box() {
    let mut sheet = Sheet::new("Sheet1");
    sheet.insert(at("A1"), literal("1"));
    sheet.insert(at("C3"), literal("3"));
    sheet.remove(at("C3"));
    assert_eq!(sheet.used_bounds().unwrap().to_a1(), "A1");
}

#[test]
fn emptying_a_sheet_clears_its_bounds() {
    let mut sheet = Sheet::new("Sheet1");
    sheet.insert(at("A1"), literal("1"));
    sheet.remove(at("A1"));
    assert_eq!(sheet.used_bounds(), None);
    assert_eq!(sheet.remove(at("A1")), None);
}

#[test]
fn range_iteration_finds_the_same_cells_either_way_round() {
    let mut sheet = Sheet::new("Sheet1");
    for row in 0..10u32 {
        sheet.insert(CellRef::new(row, 0), literal("1"));
    }

    let small = sheet.cells_in(RangeRef::new(at("A1"), at("A5")));
    assert_eq!(small.len(), 5);

    let whole_column = sheet.cells_in(RangeRef::whole_columns(0, 0));
    assert_eq!(whole_column.len(), 10);

    let elsewhere = sheet.cells_in(RangeRef::whole_columns(5, 5));
    assert!(elsewhere.is_empty());

    assert_eq!(sheet.iter().len(), 10);
}

#[test]
fn overwriting_a_cell_keeps_one_entry() {
    let mut sheet = Sheet::new("Sheet1");
    sheet.insert(at("B2"), literal("old"));
    sheet.insert(at("B2"), literal("new"));
    assert_eq!(sheet.populated(), 1);
    assert_eq!(sheet.get(at("B2")).map(String::as_str), Some("new"));
    sheet.rename("Renamed");
    assert_eq!(sheet.name(), "Renamed");
}
