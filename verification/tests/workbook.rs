use ferrum::coord::{CellAddr, CellRef, SheetId};
use ferrum::workbook::{addr, cell_ref, next_sheet_name, RecalcReport, SheetError};

#[test]
fn a_report_with_circular_cells_says_so() {
    let mut report = RecalcReport::default();
    assert!(!report.is_circular());
    report.circular.push(CellAddr::new(SheetId(0), CellRef::new(0, 0)));
    assert!(report.is_circular());
}

#[test]
fn changed_cells_are_kept_in_order_once_each() {
    let mut report = RecalcReport::default();
    let at = |row: u32, col: u32| CellAddr::new(SheetId(0), CellRef::new(row, col));
    report.note_changed(at(2, 0));
    report.note_changed(at(0, 1));
    report.note_changed(at(2, 0));
    report.note_changed(at(0, 0));
    report.note_changed(at(1, 5));
    assert_eq!(report.changed, vec![at(0, 0), at(0, 1), at(1, 5), at(2, 0)]);
    assert_eq!(report.evaluated, 0);
}

#[test]
fn each_sheet_error_has_its_message() {
    assert_eq!(SheetError::NameTaken.message(), "a sheet with that name already exists");
    assert_eq!(SheetError::NameEmpty.message(), "a sheet needs a name");
    assert_eq!(SheetError::NoSuchSheet.message(), "no such sheet");
    assert_eq!(SheetError::LastSheet.message(), "a workbook needs at least one sheet");
}

#[test]
fn addresses_come_from_their_spelling() {
    assert_eq!(addr(SheetId(3), "B2"), Some(CellAddr::new(SheetId(3), CellRef::new(1, 1))));
    assert_eq!(addr(SheetId(0), "$C$10"), Some(CellAddr::new(SheetId(0), CellRef::new(9, 2))));
    assert_eq!(addr(SheetId(0), "nonsense"), None);
    assert_eq!(cell_ref("A1"), Some(CellRef::new(0, 0)));
    assert_eq!(cell_ref(""), None);
}

#[test]
fn a_new_sheet_takes_the_first_free_number() {
    assert_eq!(next_sheet_name(&vec![]), "Sheet1");
    assert_eq!(next_sheet_name(&vec!["Sheet1".to_string()]), "Sheet2");
    assert_eq!(
        next_sheet_name(&vec!["sheet1".to_string(), "Sheet3".to_string()]),
        "Sheet2"
    );
}

#[test]
fn when_every_number_is_taken_the_name_is_plain() {
    let names: Vec<String> = (1..1000).map(|n| format!("Sheet{n}")).collect();
    assert_eq!(next_sheet_name(&names), "Sheet");
}
