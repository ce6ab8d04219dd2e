use ferrum::package::{
    content_types, root_relationships, styles_part, workbook_part, workbook_relationships,
    write_package, write_sheet_views,
};
use ferrum::worksheet::{sheet_part, SheetContents};
use ferrum::xml::XmlWriter;
use ferrum::zip::DosTime;

/// The bytes of one part, found by walking the archive's local headers.
fn part(archive: &[u8], wanted: &str) -> Option<String> {
    let mut at = 0usize;
    while at + 30 <= archive.len() {
        let signature = u32::from_le_bytes(archive[at..at + 4].try_into().ok()?);
        if signature != 0x0403_4B50 {
            break;
        }
        let size = u32::from_le_bytes(archive[at + 18..at + 22].try_into().ok()?) as usize;
        let name_len = u16::from_le_bytes(archive[at + 26..at + 28].try_into().ok()?) as usize;
        let extra = u16::from_le_bytes(archive[at + 28..at + 30].try_into().ok()?) as usize;
        let name = std::str::from_utf8(&archive[at + 30..at + 30 + name_len]).ok()?;
        let data_at = at + 30 + name_len + extra;
        if name == wanted {
            return String::from_utf8(archive[data_at..data_at + size].to_vec()).ok();
        }
        at = data_at + size;
    }
    None
}

fn sheet_bytes(is_first: bool) -> Vec<u8> {
    let empty = SheetContents {
        cells: Vec::new(),
        default_row_height: "14.5".to_string(),
        default_column_width: "8.7248".to_string(),
        columns: Vec::new(),
        rows: Vec::new(),
    };
    sheet_part(&empty, is_first)
}

fn write(names: &[&str]) -> Vec<u8> {
    let names: Vec<String> = names.iter().map(|n| n.to_string()).collect();
    let sheets: Vec<Vec<u8>> = (0..names.len()).map(|i| sheet_bytes(i == 0)).collect();
    write_package(&names, &sheets, DosTime::epoch()).unwrap()
}

#[test]
fn the_package_carries_the_parts_a_reader_needs() {
    let archive = write(&["Sheet1"]);
    for wanted in [
        "[Content_Types].xml",
        "_rels/.rels",
        "xl/workbook.xml",
        "xl/_rels/workbook.xml.rels",
        "xl/styles.xml",
        "xl/worksheets/sheet1.xml",
    ] {
        assert!(part(&archive, wanted).is_some(), "{wanted} is missing");
    }
}

#[test]
fn every_sheet_is_declared_once_in_each_place_it_must_be() {
    let archive = write(&["Sheet1", "Data", "Notes"]);

    let workbook = part(&archive, "xl/workbook.xml").unwrap();
    for name in ["Sheet1", "Data", "Notes"] {
        assert!(workbook.contains(&format!("name=\"{name}\"")), "{name}");
    }

    let types = part(&archive, "[Content_Types].xml").unwrap();
    let rels = part(&archive, "xl/_rels/workbook.xml.rels").unwrap();
    for index in 1..=3 {
        assert!(types.contains(&format!("/xl/worksheets/sheet{index}.xml")));
        assert!(rels.contains(&format!("worksheets/sheet{index}.xml")));
        assert!(part(&archive, &format!("xl/worksheets/sheet{index}.xml")).is_some());
    }
}

#[test]
fn every_sheet_says_how_it_is_being_looked_at() {
    let archive = write(&["Sheet1", "Second"]);

    let first = part(&archive, "xl/worksheets/sheet1.xml").unwrap();
    assert!(first.contains("<sheetViews>"), "{first}");
    assert!(first.contains(r#"tabSelected="1""#), "{first}");

    let second = part(&archive, "xl/worksheets/sheet2.xml").unwrap();
    assert!(second.contains("<sheetViews>"), "{second}");
    assert!(!second.contains("tabSelected"), "only one sheet is the selected tab");
}

#[test]
fn two_saves_of_one_workbook_are_byte_for_byte_equal() {
    assert_eq!(write(&["Sheet1", "B"]), write(&["Sheet1", "B"]));
}

#[test]
fn a_sheet_name_with_markup_in_it_is_escaped() {
    let workbook = part(&write(&["P&L <2026>"]), "xl/workbook.xml").unwrap();
    assert!(workbook.contains("P&amp;L &lt;2026&gt;"), "{workbook}");
}

#[test]
fn the_sheet_view_element_is_exact() {
    let mut xml = XmlWriter::fragment();
    write_sheet_views(&mut xml, true);
    assert_eq!(
        xml.finish(),
        r#"<sheetViews><sheetView tabSelected="1" workbookViewId="0"/></sheetViews>"#
    );
    let mut xml = XmlWriter::fragment();
    write_sheet_views(&mut xml, false);
    assert_eq!(xml.finish(), r#"<sheetViews><sheetView workbookViewId="0"/></sheetViews>"#);
}

#[test]
fn content_types_list_each_sheet_after_the_fixed_parts() {
    let text = String::from_utf8(content_types(2)).unwrap();
    let expected = concat_parts(&[
        "<?xml version=\"1.0\" encoding=\"UTF-8\" standalone=\"yes\"?>\r\n",
        "<Types xmlns=\"http://schemas.openxmlformats.org/package/2006/content-types\">",
        "<Default Extension=\"rels\" ContentType=\"application/vnd.openxmlformats-package.relationships+xml\"/>",
        "<Default Extension=\"xml\" ContentType=\"application/xml\"/>",
        "<Override PartName=\"/xl/workbook.xml\" ContentType=\"application/vnd.openxmlformats-officedocument.spreadsheetml.sheet.main+xml\"/>",
        "<Override PartName=\"/xl/styles.xml\" ContentType=\"application/vnd.openxmlformats-officedocument.spreadsheetml.styles+xml\"/>",
        "<Override PartName=\"/xl/worksheets/sheet1.xml\" ContentType=\"application/vnd.openxmlformats-officedocument.spreadsheetml.worksheet+xml\"/>",
        "<Override PartName=\"/xl/worksheets/sheet2.xml\" ContentType=\"application/vnd.openxmlformats-officedocument.spreadsheetml.worksheet+xml\"/>",
        "</Types>",
    ]);
    assert_eq!(text, expected);
}

fn concat_parts(parts: &[&str]) -> String {
    parts.iter().copied().collect()
}

#[test]
fn the_root_relationship_leads_to_the_workbook() {
    let text = String::from_utf8(root_relationships()).unwrap();
    assert!(text.ends_with(
        "<Relationships xmlns=\"http://schemas.openxmlformats.org/package/2006/relationships\">\
<Relationship Id=\"rId1\" Type=\"http://schemas.openxmlformats.org/officeDocument/2006/relationships/officeDocument\" Target=\"xl/workbook.xml\"/>\
</Relationships>"
    ));
}

#[test]
fn the_styles_relationship_is_numbered_after_the_last_sheet() {
    let text = String::from_utf8(workbook_relationships(2)).unwrap();
    assert!(text.contains("<Relationship Id=\"rId1\" Type=\"http://schemas.openxmlformats.org/officeDocument/2006/relationships/worksheet\" Target=\"worksheets/sheet1.xml\"/>"));
    assert!(text.contains("<Relationship Id=\"rId2\" Type=\"http://schemas.openxmlformats.org/officeDocument/2006/relationships/worksheet\" Target=\"worksheets/sheet2.xml\"/>"));
    assert!(text.contains("<Relationship Id=\"rId3\" Type=\"http://schemas.openxmlformats.org/officeDocument/2006/relationships/styles\" Target=\"styles.xml\"/>"));
    let none = String::from_utf8(workbook_relationships(0)).unwrap();
    assert!(none.contains("Id=\"rId1\" Type=\"http://schemas.openxmlformats.org/officeDocument/2006/relationships/styles\""));
}

#[test]
fn the_style_table_has_the_two_reserved_fills() {
    let text = String::from_utf8(styles_part()).unwrap();
    assert!(text.contains(
        "<fills count=\"2\"><fill><patternFill patternType=\"none\"/></fill><fill><patternFill patternType=\"gray125\"/></fill></fills>"
    ));
    assert!(text.contains("<border><left/><right/><top/><bottom/><diagonal/></border>"));
    assert!(text.contains(
        "<cellXfs count=\"1\"><xf numFmtId=\"0\" fontId=\"0\" fillId=\"0\" borderId=\"0\" xfId=\"0\"/></cellXfs>"
    ));
    assert!(text.ends_with("</styleSheet>"));
}

#[test]
fn the_workbook_part_numbers_sheets_in_order() {
    let names = vec!["Alpha".to_string(), "Beta".to_string()];
    let text = String::from_utf8(workbook_part(&names)).unwrap();
    assert!(text.contains(
        "<sheets><sheet name=\"Alpha\" sheetId=\"1\" r:id=\"rId1\"/><sheet name=\"Beta\" sheetId=\"2\" r:id=\"rId2\"/></sheets>"
    ));
}

#[test]
fn the_archive_ends_with_a_directory_of_every_part() {
    let archive = write(&["Sheet1", "Other"]);
    let end = archive.len() - 22;
    assert_eq!(u32::from_le_bytes(archive[end..end + 4].try_into().unwrap()), 0x0605_4B50);
    assert_eq!(u16::from_le_bytes(archive[end + 10..end + 12].try_into().unwrap()), 7);
}
