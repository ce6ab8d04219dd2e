use ferrum::coord::SheetId;
use ferrum::sheets::Sheets;
use ferrum::workbook::SheetError;

fn book() -> Sheets<u32> {
    Sheets::new(0)
}

#[test]
fn a_new_workbook_has_one_sheet_called_sheet1() {
    let sheets = book();
    assert_eq!(sheets.sheet_order(), &[SheetId(0)]);
    assert_eq!(sheets.first_sheet(), SheetId(0));
    assert_eq!(sheets.sheet(SheetId(0)).unwrap().name, "Sheet1");
    assert_eq!(sheets.sheet_id("sheet1"), Some(SheetId(0)));
}

#[test]
fn sheet_names_are_unique_ignoring_case() {
    let mut sheets = book();
    assert_eq!(sheets.add_sheet("Data", 1), Ok(SheetId(1)));
    assert_eq!(sheets.add_sheet("data", 2), Err(SheetError::NameTaken));
    assert_eq!(sheets.add_sheet("  ", 3), Err(SheetError::NameEmpty));
    assert_eq!(sheets.add_sheet("", 3), Err(SheetError::NameEmpty));
    assert_eq!(sheets.add_sheet("\t\u{3000}", 3), Err(SheetError::NameEmpty));
    assert_eq!(sheets.sheet_order(), &[SheetId(0), SheetId(1)]);
    assert_eq!(sheets.sheet_id("DATA"), Some(SheetId(1)));
}

#[test]
fn renaming_follows_the_same_rules() {
    let mut sheets = book();
    let data = sheets.add_sheet("Data", 1).unwrap();
    assert_eq!(sheets.rename_sheet(data, "Figures"), Ok(()));
    assert_eq!(sheets.sheet_id("figures"), Some(data));
    assert_eq!(sheets.sheet_id("Data"), None);
    assert_eq!(sheets.rename_sheet(data, "sheet1"), Err(SheetError::NameTaken));
    assert_eq!(sheets.rename_sheet(data, "FIGURES"), Ok(()));
    assert_eq!(sheets.sheet(data).unwrap().name, "FIGURES");
    assert_eq!(sheets.rename_sheet(data, " "), Err(SheetError::NameEmpty));
    assert_eq!(sheets.rename_sheet(SheetId(9), "Other"), Err(SheetError::NoSuchSheet));
    assert_eq!(sheets.sheet(data).unwrap().content, 1);
}

#[test]
fn removing_leaves_a_hole_and_never_the_last_sheet() {
    let mut sheets = book();
    let data = sheets.add_sheet("Data", 7).unwrap();
    assert_eq!(sheets.remove_sheet(data), Ok(7));
    assert!(sheets.sheet(data).is_none());
    // One sheet left: that is refused before anything else is looked at.
    assert_eq!(sheets.remove_sheet(data), Err(SheetError::LastSheet));
    assert_eq!(sheets.remove_sheet(sheets.first_sheet()), Err(SheetError::LastSheet));
    // The id of a removed sheet is not handed out again.
    assert_eq!(sheets.add_sheet("Data", 8), Ok(SheetId(2)));
    assert_eq!(sheets.sheet_order(), &[SheetId(0), SheetId(2)]);
    assert_eq!(sheets.remove_sheet(data), Err(SheetError::NoSuchSheet));
    assert_eq!(sheets.remove_sheet(SheetId(0)), Ok(0));
    assert_eq!(sheets.first_sheet(), SheetId(2));
}

#[test]
fn a_span_of_sheets_runs_between_its_ends_in_tab_order() {
    let mut sheets = book();
    let jan = sheets.add_sheet("Jan", 1).unwrap();
    let feb = sheets.add_sheet("Feb", 2).unwrap();
    let mar = sheets.add_sheet("Mar", 3).unwrap();
    assert_eq!(sheets.sheets_between("jan", "MAR"), Some(vec![jan, feb, mar]));
    assert_eq!(sheets.sheets_between("Mar", "Feb"), Some(vec![feb, mar]));
    assert_eq!(sheets.sheets_between("Feb", "Feb"), Some(vec![feb]));
    assert_eq!(sheets.sheets_between("Jan", "Dec"), None);
    assert_eq!(sheets.position_of("sheet1"), Some(0));
    assert_eq!(sheets.position_of("Dec"), None);
}
