use ferrum::coord::{A1Ref, CellRef};
use ferrum::value::CalcError;
use ferrum::worksheet::{
    sheet_part, write_cell, write_workbook, SheetContents, SizeException, Stored, StoredCell,
};
use ferrum::xml::XmlWriter;
use ferrum::zip::DosTime;

/// Default column width, in points, and in characters of the standard font.
const COLUMN_WIDTH_PT: f64 = 48.0;
const COLUMN_WIDTH_CHARS: f64 = 8.09;
const WIDTH_PADDING: f64 = 0.634_765_625;

fn stored_width(points: f64) -> String {
    format!("{:.4}", points * COLUMN_WIDTH_CHARS / COLUMN_WIDTH_PT + WIDTH_PADDING)
}

fn at(a1: &str) -> CellRef {
    A1Ref::parse(a1).unwrap().cell
}

fn literal(a1: &str, value: Stored) -> StoredCell {
    StoredCell { at: at(a1), formula: None, value }
}

fn formula(a1: &str, typed: &str, value: Stored) -> StoredCell {
    StoredCell { at: at(a1), formula: Some(typed.to_string()), value }
}

fn number(text: &str) -> Stored {
    Stored::Number(text.to_string())
}

fn contents(cells: Vec<StoredCell>) -> SheetContents {
    SheetContents {
        cells,
        default_row_height: "14.5".to_string(),
        default_column_width: stored_width(COLUMN_WIDTH_PT),
        columns: Vec::new(),
        rows: Vec::new(),
    }
}

fn sheet_xml(sheet: &SheetContents) -> String {
    String::from_utf8(sheet_part(sheet, true)).unwrap()
}

#[test]
fn each_kind_of_value_is_written_in_its_own_form() {
    let sheet = sheet_xml(&contents(vec![
        literal("A1", number("42.5")),
        literal("A2", Stored::Text("hello".to_string())),
        literal("A3", Stored::Logical(true)),
        formula("A4", "=1/0", Stored::Error(CalcError::Div0)),
    ]));

    assert!(sheet.contains(r#"<c r="A1"><v>42.5</v></c>"#), "{sheet}");
    assert!(sheet.contains(r#"<c r="A2" t="inlineStr"><is><t>hello</t></is></c>"#), "{sheet}");
    assert!(sheet.contains(r#"<c r="A3" t="b"><v>1</v></c>"#), "{sheet}");
    assert!(sheet.contains(r#"<c r="A4" t="e"><f>1/0</f><v>#DIV/0!</v></c>"#), "{sheet}");
}

#[test]
fn a_formula_is_written_with_its_cached_result_and_no_equals() {
    let sheet = sheet_xml(&contents(vec![literal("A1", number("6")), formula("B1", "=A1*7", number("42"))]));
    assert!(sheet.contains(r#"<c r="B1"><f>A1*7</f><v>42</v></c>"#), "{sheet}");
}

#[test]
fn markup_in_a_formula_is_escaped() {
    let sheet = sheet_xml(&contents(vec![formula(
        "A1",
        r#"=IF(1<2,"a & b","c")"#,
        Stored::Text("a & b".to_string()),
    )]));
    assert!(sheet.contains("&lt;2"), "{sheet}");
    assert!(sheet.contains("&amp; b"), "{sheet}");
    assert!(!sheet.contains("<2,"), "the raw form must not appear");
}

#[test]
fn cells_come_out_in_reading_order() {
    let sheet = sheet_xml(&contents(vec![
        literal("C3", number("3")),
        literal("A1", number("1")),
        literal("B2", number("2")),
        literal("A3", number("0")),
    ]));
    let order: Vec<usize> = ["A1", "B2", "A3", "C3"]
        .iter()
        .map(|spot| sheet.find(&format!("r=\"{spot}\"")).unwrap())
        .collect();
    assert!(order.windows(2).all(|pair| pair[0] < pair[1]), "cells should be sorted by row then column: {order:?}");
}

#[test]
fn empty_cells_are_left_out() {
    let sheet = sheet_xml(&contents(vec![literal("A1", number("1")), literal("C1", number("3"))]));
    assert!(!sheet.contains(r#"r="B1""#), "B1 holds nothing");
}

#[test]
fn a_resized_column_is_recorded_in_the_units_the_format_uses() {
    // Twice the default width should be twice the default character count.
    let mut sheet = contents(Vec::new());
    sheet.columns.push(SizeException { index: 2, size: stored_width(COLUMN_WIDTH_PT * 2.0), hidden: false });
    let sheet = sheet_xml(&sheet);

    assert!(sheet.contains(r#"<col min="3" max="3""#), "{sheet}");
    let expected = format!("{:.4}", COLUMN_WIDTH_CHARS * 2.0 + WIDTH_PADDING);
    assert!(sheet.contains(&expected), "expected width {expected}: {sheet}");
}

#[test]
fn a_resized_row_is_recorded_in_points() {
    let mut sheet = contents(Vec::new());
    sheet.rows.push(SizeException { index: 0, size: format!("{:.4}", 31.5), hidden: false });
    let sheet = sheet_xml(&sheet);
    assert!(sheet.contains(r#"ht="31.5000""#), "{sheet}");
    assert!(sheet.contains(r#"customHeight="1""#), "{sheet}");
}

#[test]
fn a_hidden_column_says_so() {
    let mut sheet = contents(Vec::new());
    sheet.columns.push(SizeException { index: 0, size: stored_width(0.0), hidden: true });
    let sheet = sheet_xml(&sheet);
    assert!(sheet.contains(r#"hidden="1""#), "{sheet}");
}

#[test]
fn surrounding_spaces_in_text_are_preserved_explicitly() {
    let sheet = sheet_xml(&contents(vec![literal("A1", Stored::Text("  padded  ".to_string()))]));
    assert!(sheet.contains(r#"xml:space="preserve""#), "{sheet}");
}

#[test]
fn an_empty_workbook_still_produces_a_valid_package() {
    let names = vec!["Sheet1".to_string()];
    let archive = write_workbook(&names, &[contents(Vec::new())], DosTime::epoch()).unwrap();
    let sheet = String::from_utf8(sheet_part(&contents(Vec::new()), true)).unwrap();
    let text = String::from_utf8_lossy(&archive).to_string();
    assert!(text.contains(&sheet), "the sheet part is stored as it is");
    assert!(sheet.contains("<sheetData"), "{sheet}");
    assert!(sheet.contains("</worksheet>"), "{sheet}");
}

#[test]
fn the_whole_part_of_a_small_sheet_is_exact() {
    let mut sheet = contents(vec![literal("B2", number("2")), literal("A1", Stored::Logical(false))]);
    sheet.rows.push(SizeException { index: 3, size: "20.0000".to_string(), hidden: false });
    let text = sheet_xml(&sheet);
    assert_eq!(
        text,
        [
            "<?xml version=\"1.0\" encoding=\"UTF-8\" standalone=\"yes\"?>\r\n",
            "<worksheet xmlns=\"http://schemas.openxmlformats.org/spreadsheetml/2006/main\">",
            "<dimension ref=\"A1:B2\"/>",
            "<sheetViews><sheetView tabSelected=\"1\" workbookViewId=\"0\"/></sheetViews>",
            "<sheetFormatPr defaultRowHeight=\"14.5\" defaultColWidth=\"8.7248\"/>",
            "<sheetData>",
            "<row r=\"1\"><c r=\"A1\" t=\"b\"><v>0</v></c></row>",
            "<row r=\"2\"><c r=\"B2\"><v>2</v></c></row>",
            "<row r=\"4\" ht=\"20.0000\" customHeight=\"1\"/>",
            "</sheetData></worksheet>",
        ]
        .concat()
    );
}

#[test]
fn a_height_on_a_row_with_cells_rides_along_with_them() {
    let mut sheet = contents(vec![literal("A2", number("5"))]);
    sheet.rows.push(SizeException { index: 1, size: "0.0000".to_string(), hidden: true });
    sheet.rows.push(SizeException { index: 0, size: "30.0000".to_string(), hidden: false });
    let text = sheet_xml(&sheet);
    assert!(
        text.contains(
            &[
                "<sheetData><row r=\"1\" ht=\"30.0000\" customHeight=\"1\"/>",
                "<row r=\"2\" ht=\"0.0000\" customHeight=\"1\" hidden=\"1\"><c r=\"A2\"><v>5</v></c></row>",
                "</sheetData>",
            ]
            .concat()
        ),
        "{text}"
    );
}

#[test]
fn a_blank_cell_with_a_formula_is_kept() {
    let mut xml = XmlWriter::fragment();
    write_cell(&mut xml, &formula("C4", "==A1", Stored::Blank));
    assert_eq!(xml.finish(), "<c r=\"C4\"><f>A1</f></c>");
    let mut xml = XmlWriter::fragment();
    write_cell(&mut xml, &literal("C4", Stored::Blank));
    assert_eq!(xml.finish(), "");
}
