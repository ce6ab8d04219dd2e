//! The fixed parts of a spreadsheet package.
//!
//! The package is the handful of parts a reader insists on:
//!
//! ```text
//! [Content_Types].xml        what each part is
//! _rels/.rels                the way in
//! xl/workbook.xml            the list of sheets
//! xl/_rels/workbook.xml.rels where each sheet lives
//! xl/styles.xml              the minimum a reader will accept
//! xl/worksheets/sheetN.xml   one per sheet
//! ```
//!
//! The parts here depend on nothing but the number of sheets.

use vstd::prelude::*;

use crate::text::{decimal, push_decimal, push_str};
use crate::xml::{attributes_text, declaration, escaped, XmlWriter};
use crate::zip::{added, addable, archive, DosTime, ZipError, ZipWriter};

verus! {

broadcast use vstd::string::group_string_axioms;

pub const MAIN: &'static str = "http://schemas.openxmlformats.org/spreadsheetml/2006/main";

pub const RELATIONSHIPS: &'static str = "http://schemas.openxmlformats.org/officeDocument/2006/relationships";

pub const PACKAGE_RELATIONSHIPS: &'static str = "http://schemas.openxmlformats.org/package/2006/relationships";

pub const CONTENT_TYPES: &'static str = "http://schemas.openxmlformats.org/package/2006/content-types";

pub const SHEET_TYPE: &'static str = "application/vnd.openxmlformats-officedocument.spreadsheetml.worksheet+xml";

pub const WORKBOOK_TYPE: &'static str = "application/vnd.openxmlformats-officedocument.spreadsheetml.sheet.main+xml";

pub const STYLES_TYPE: &'static str = "application/vnd.openxmlformats-officedocument.spreadsheetml.styles+xml";

pub const RELS_TYPE: &'static str = "application/vnd.openxmlformats-package.relationships+xml";

// ---------------------------------------------------------------------------
// Markup as text.

/// One attribute, ` name="value"`, with the value escaped.
pub open spec fn attribute(name: Seq<char>, value: Seq<char>) -> Seq<char> {
    seq![' '] + name + "=\""@ + escaped(value, true) + seq!['"']
}

/// An opening tag with some attributes already written out.
pub open spec fn opening(name: Seq<char>, attributes: Seq<char>) -> Seq<char> {
    seq!['<'] + name + attributes + seq!['>']
}

/// A tag with no children.
pub open spec fn element(name: Seq<char>, attributes: Seq<char>) -> Seq<char> {
    seq!['<'] + name + attributes + "/>"@
}

/// A closing tag.
pub open spec fn closing(name: Seq<char>) -> Seq<char> {
    "</"@ + name + seq!['>']
}

pub(crate) proof fn lemma_attributes_push(s: Seq<(&str, &str)>, p: (&str, &str))
    ensures
        attributes_text(s.push(p)) == attributes_text(s) + attribute(p.0@, p.1@),
{
    assert(s.push(p).drop_last() =~= s);
    assert(s.push(p).last() == p);
}

pub(crate) proof fn lemma_one_attribute(a: (&str, &str))
    ensures
        attributes_text(seq![a]) == attribute(a.0@, a.1@),
{
    lemma_attributes_push(Seq::empty(), a);
    assert(Seq::<(&str, &str)>::empty().push(a) =~= seq![a]);
    assert(Seq::<char>::empty() + attribute(a.0@, a.1@) =~= attribute(a.0@, a.1@));
}

pub(crate) proof fn lemma_two_attributes(a: (&str, &str), b: (&str, &str))
    ensures
        attributes_text(seq![a, b]) == attribute(a.0@, a.1@) + attribute(b.0@, b.1@),
{
    lemma_one_attribute(a);
    lemma_attributes_push(seq![a], b);
    assert(seq![a].push(b) =~= seq![a, b]);
}

pub(crate) proof fn lemma_three_attributes(a: (&str, &str), b: (&str, &str), c: (&str, &str))
    ensures
        attributes_text(seq![a, b, c]) == attribute(a.0@, a.1@) + attribute(b.0@, b.1@) + attribute(
            c.0@,
            c.1@,
        ),
{
    lemma_two_attributes(a, b);
    lemma_attributes_push(seq![a, b], c);
    assert(seq![a, b].push(c) =~= seq![a, b, c]);
}

pub(crate) proof fn lemma_four_attributes(a: (&str, &str), b: (&str, &str), c: (&str, &str), d: (&str, &str))
    ensures
        attributes_text(seq![a, b, c, d]) == attribute(a.0@, a.1@) + attribute(b.0@, b.1@)
            + attribute(c.0@, c.1@) + attribute(d.0@, d.1@),
{
    lemma_three_attributes(a, b, c);
    lemma_attributes_push(seq![a, b, c], d);
    assert(seq![a, b, c].push(d) =~= seq![a, b, c, d]);
}

proof fn lemma_five_attributes(
    a: (&str, &str),
    b: (&str, &str),
    c: (&str, &str),
    d: (&str, &str),
    e: (&str, &str),
)
    ensures
        attributes_text(seq![a, b, c, d, e]) == attribute(a.0@, a.1@) + attribute(b.0@, b.1@)
            + attribute(c.0@, c.1@) + attribute(d.0@, d.1@) + attribute(e.0@, e.1@),
{
    lemma_four_attributes(a, b, c, d);
    lemma_attributes_push(seq![a, b, c, d], e);
    assert(seq![a, b, c, d].push(e) =~= seq![a, b, c, d, e]);
}

// ---------------------------------------------------------------------------
// [Content_Types].xml

/// Where the `n`-th sheet lives, from the package root.
pub open spec fn sheet_part_name(n: nat) -> Seq<char> {
    "/xl/worksheets/sheet"@ + decimal(n) + ".xml"@
}

/// An `Override` declaring what a part is.
pub open spec fn override_entry(part: Seq<char>, content_type: Seq<char>) -> Seq<char> {
    element("Override"@, attribute("PartName"@, part) + attribute("ContentType"@, content_type))
}

/// The overrides for sheets one to `n`.
pub open spec fn sheet_overrides(n: nat) -> Seq<char>
    decreases n,
{
    if n == 0 {
        Seq::empty()
    } else {
        sheet_overrides((n - 1) as nat) + override_entry(sheet_part_name(n), SHEET_TYPE@)
    }
}

/// `[Content_Types].xml` for a workbook of `n` sheets.
pub open spec fn content_types_text(n: nat) -> Seq<char> {
    declaration() + opening("Types"@, attribute("xmlns"@, CONTENT_TYPES@)) + element(
        "Default"@,
        attribute("Extension"@, "rels"@) + attribute("ContentType"@, RELS_TYPE@),
    ) + element("Default"@, attribute("Extension"@, "xml"@) + attribute("ContentType"@, "application/xml"@))
        + override_entry("/xl/workbook.xml"@, WORKBOOK_TYPE@) + override_entry(
        "/xl/styles.xml"@,
        STYLES_TYPE@,
    ) + sheet_overrides(n) + closing("Types"@)
}

/// `[Content_Types].xml`: what each part of a workbook of `sheet_count`
/// sheets is.
pub fn content_types(sheet_count: usize) -> (b: Vec<u8>)
    ensures
        b@ == vstd::utf8::encode_utf8(content_types_text(sheet_count as nat)),
{
    let mut xml = XmlWriter::new();
    let types_attributes = [("xmlns", CONTENT_TYPES)];
    xml.start("Types", &types_attributes);
    let rels = [("Extension", "rels"), ("ContentType", RELS_TYPE)];
    xml.empty("Default", &rels);
    let plain = [("Extension", "xml"), ("ContentType", "application/xml")];
    xml.empty("Default", &plain);
    let book = [("PartName", "/xl/workbook.xml"), ("ContentType", WORKBOOK_TYPE)];
    xml.empty("Override", &book);
    let styles = [("PartName", "/xl/styles.xml"), ("ContentType", STYLES_TYPE)];
    xml.empty("Override", &styles);
    proof {
        lemma_one_attribute(types_attributes@[0]);
        assert(types_attributes@ =~= seq![types_attributes@[0]]);
        lemma_two_attributes(rels@[0], rels@[1]);
        assert(rels@ =~= seq![rels@[0], rels@[1]]);
        lemma_two_attributes(plain@[0], plain@[1]);
        assert(plain@ =~= seq![plain@[0], plain@[1]]);
        lemma_two_attributes(book@[0], book@[1]);
        assert(book@ =~= seq![book@[0], book@[1]]);
        lemma_two_attributes(styles@[0], styles@[1]);
        assert(styles@ =~= seq![styles@[0], styles@[1]]);
    }
    let ghost head = xml.written();
    assert(head == declaration() + opening("Types"@, attribute("xmlns"@, CONTENT_TYPES@)) + element(
        "Default"@,
        attribute("Extension"@, "rels"@) + attribute("ContentType"@, RELS_TYPE@),
    ) + element("Default"@, attribute("Extension"@, "xml"@) + attribute("ContentType"@, "application/xml"@))
        + override_entry("/xl/workbook.xml"@, WORKBOOK_TYPE@) + override_entry(
        "/xl/styles.xml"@,
        STYLES_TYPE@,
    ));
    let mut index: u128 = 1;
    while index <= sheet_count as u128
        invariant
            1 <= index,
            index <= sheet_count + 1,
            xml.written() == head + sheet_overrides((index - 1) as nat),
            xml.open_elements() == seq!["Types"@],
        decreases sheet_count + 1 - index,
    {
        let mut part = String::new();
        push_str(&mut part, "/xl/worksheets/sheet");
        push_decimal(&mut part, index as u64);
        push_str(&mut part, ".xml");
        let entry = [("PartName", part.as_str()), ("ContentType", SHEET_TYPE)];
        xml.empty("Override", &entry);
        proof {
            lemma_two_attributes(entry@[0], entry@[1]);
            assert(entry@ =~= seq![entry@[0], entry@[1]]);
            assert(part@ == sheet_part_name(index as nat));
        }
        index = index + 1;
    }
    xml.end("Types");
    xml.into_bytes()
}

// ---------------------------------------------------------------------------
// _rels/.rels

/// A `Relationship` with its id, type and target.
pub open spec fn relationship(id: Seq<char>, kind: Seq<char>, target: Seq<char>) -> Seq<char> {
    element(
        "Relationship"@,
        attribute("Id"@, id) + attribute("Type"@, kind) + attribute("Target"@, target),
    )
}

/// `_rels/.rels`: the one relationship that leads a reader to the workbook.
pub open spec fn root_relationships_text() -> Seq<char> {
    declaration() + opening("Relationships"@, attribute("xmlns"@, PACKAGE_RELATIONSHIPS@))
        + relationship("rId1"@, RELATIONSHIPS@ + "/officeDocument"@, "xl/workbook.xml"@)
        + closing("Relationships"@)
}

/// `_rels/.rels`: where a reader finds the workbook.
pub fn root_relationships() -> (b: Vec<u8>)
    ensures
        b@ == vstd::utf8::encode_utf8(root_relationships_text()),
{
    let mut xml = XmlWriter::new();
    let top = [("xmlns", PACKAGE_RELATIONSHIPS)];
    xml.start("Relationships", &top);
    let mut kind = String::new();
    push_str(&mut kind, RELATIONSHIPS);
    push_str(&mut kind, "/officeDocument");
    let entry = [("Id", "rId1"), ("Type", kind.as_str()), ("Target", "xl/workbook.xml")];
    xml.empty("Relationship", &entry);
    xml.end("Relationships");
    proof {
        lemma_one_attribute(top@[0]);
        assert(top@ =~= seq![top@[0]]);
        lemma_three_attributes(entry@[0], entry@[1], entry@[2]);
        assert(entry@ =~= seq![entry@[0], entry@[1], entry@[2]]);
    }
    xml.into_bytes()
}

// ---------------------------------------------------------------------------
// xl/_rels/workbook.xml.rels

/// The relationship to the `n`-th sheet.
pub open spec fn sheet_relationship(n: nat) -> Seq<char> {
    relationship(
        "rId"@ + decimal(n),
        RELATIONSHIPS@ + "/worksheet"@,
        "worksheets/sheet"@ + decimal(n) + ".xml"@,
    )
}

/// The relationships to sheets one to `n`.
pub open spec fn sheet_relationships(n: nat) -> Seq<char>
    decreases n,
{
    if n == 0 {
        Seq::empty()
    } else {
        sheet_relationships((n - 1) as nat) + sheet_relationship(n)
    }
}

/// `xl/_rels/workbook.xml.rels` for a workbook of `n` sheets: each sheet
/// in turn, then the styles, numbered after the last sheet.
pub open spec fn workbook_relationships_text(n: nat) -> Seq<char> {
    declaration() + opening("Relationships"@, attribute("xmlns"@, PACKAGE_RELATIONSHIPS@))
        + sheet_relationships(n) + relationship(
        "rId"@ + decimal(n + 1),
        RELATIONSHIPS@ + "/styles"@,
        "styles.xml"@,
    ) + closing("Relationships"@)
}

/// `xl/_rels/workbook.xml.rels`: where each sheet, and the styles, live.
pub fn workbook_relationships(sheet_count: usize) -> (b: Vec<u8>)
    requires
        sheet_count < usize::MAX,
    ensures
        b@ == vstd::utf8::encode_utf8(workbook_relationships_text(sheet_count as nat)),
{
    let mut xml = XmlWriter::new();
    let top = [("xmlns", PACKAGE_RELATIONSHIPS)];
    xml.start("Relationships", &top);
    proof {
        lemma_one_attribute(top@[0]);
        assert(top@ =~= seq![top@[0]]);
    }
    let ghost head = xml.written();
    let mut index: usize = 1;
    while index <= sheet_count
        invariant
            1 <= index <= sheet_count + 1,
            sheet_count < usize::MAX,
            xml.written() == head + sheet_relationships((index - 1) as nat),
            xml.open_elements() == seq!["Relationships"@],
        decreases sheet_count + 1 - index,
    {
        let mut id = String::new();
        push_str(&mut id, "rId");
        push_decimal(&mut id, index as u64);
        let mut kind = String::new();
        push_str(&mut kind, RELATIONSHIPS);
        push_str(&mut kind, "/worksheet");
        let mut target = String::new();
        push_str(&mut target, "worksheets/sheet");
        push_decimal(&mut target, index as u64);
        push_str(&mut target, ".xml");
        let entry = [("Id", id.as_str()), ("Type", kind.as_str()), ("Target", target.as_str())];
        xml.empty("Relationship", &entry);
        proof {
            lemma_three_attributes(entry@[0], entry@[1], entry@[2]);
            assert(entry@ =~= seq![entry@[0], entry@[1], entry@[2]]);
        }
        index = index + 1;
    }
    let mut id = String::new();
    push_str(&mut id, "rId");
    push_decimal(&mut id, (sheet_count + 1) as u64);
    let mut kind = String::new();
    push_str(&mut kind, RELATIONSHIPS);
    push_str(&mut kind, "/styles");
    let entry = [("Id", id.as_str()), ("Type", kind.as_str()), ("Target", "styles.xml")];
    xml.empty("Relationship", &entry);
    proof {
        lemma_three_attributes(entry@[0], entry@[1], entry@[2]);
        assert(entry@ =~= seq![entry@[0], entry@[1], entry@[2]]);
    }
    xml.end("Relationships");
    xml.into_bytes()
}

// ---------------------------------------------------------------------------
// xl/styles.xml

/// The one font: eleven-point Aptos Narrow.
pub open spec fn fonts_text() -> Seq<char> {
    opening("fonts"@, attribute("count"@, "1"@)) + opening("font"@, Seq::empty()) + element(
        "sz"@,
        attribute("val"@, "11"@),
    ) + element("name"@, attribute("val"@, "Aptos Narrow"@)) + closing("font"@) + closing(
        "fonts"@,
    )
}

/// The two reserved fills: none, then the grey pattern.
pub open spec fn fills_text() -> Seq<char> {
    opening("fills"@, attribute("count"@, "2"@)) + opening("fill"@, Seq::empty()) + element(
        "patternFill"@,
        attribute("patternType"@, "none"@),
    ) + closing("fill"@) + opening("fill"@, Seq::empty()) + element(
        "patternFill"@,
        attribute("patternType"@, "gray125"@),
    ) + closing("fill"@) + closing("fills"@)
}

/// The one border, with all five edges empty.
pub open spec fn borders_text() -> Seq<char> {
    opening("borders"@, attribute("count"@, "1"@)) + opening("border"@, Seq::empty()) + element(
        "left"@,
        Seq::empty(),
    ) + element("right"@, Seq::empty()) + element("top"@, Seq::empty()) + element(
        "bottom"@,
        Seq::empty(),
    ) + element("diagonal"@, Seq::empty()) + closing("border"@) + closing("borders"@)
}

/// The attributes every cell format starts from: all the zeroth entries.
pub open spec fn base_format() -> Seq<char> {
    attribute("numFmtId"@, "0"@) + attribute("fontId"@, "0"@) + attribute("fillId"@, "0"@)
        + attribute("borderId"@, "0"@)
}

/// The one style format and the one cell format built on it.
pub open spec fn formats_text() -> Seq<char> {
    opening("cellStyleXfs"@, attribute("count"@, "1"@)) + element("xf"@, base_format()) + closing(
        "cellStyleXfs"@,
    ) + opening("cellXfs"@, attribute("count"@, "1"@)) + element(
        "xf"@,
        base_format() + attribute("xfId"@, "0"@),
    ) + closing("cellXfs"@)
}

/// `xl/styles.xml`: the smallest style table a reader accepts.
pub open spec fn styles_text() -> Seq<char> {
    declaration() + opening("styleSheet"@, attribute("xmlns"@, MAIN@)) + fonts_text()
        + fills_text() + borders_text() + formats_text() + closing("styleSheet"@)
}

pub(crate) fn no_attributes() -> (a: [(&'static str, &'static str); 0])
    ensures
        attributes_text(a@) == Seq::<char>::empty(),
{
    let none: [(&str, &str); 0] = [];
    assert(none@ =~= Seq::<(&str, &str)>::empty());
    none
}

fn write_fonts(xml: &mut XmlWriter)
    ensures
        final(xml).written() == old(xml).written() + fonts_text(),
        final(xml).open_elements() == old(xml).open_elements(),
{
    let none = no_attributes();
    let count = [("count", "1")];
    let size = [("val", "11")];
    let face = [("val", "Aptos Narrow")];
    xml.start("fonts", &count);
    xml.start("font", &none);
    xml.empty("sz", &size);
    xml.empty("name", &face);
    xml.end("font");
    xml.end("fonts");
    proof {
        lemma_one_attribute(count@[0]);
        assert(count@ =~= seq![count@[0]]);
        lemma_one_attribute(size@[0]);
        assert(size@ =~= seq![size@[0]]);
        lemma_one_attribute(face@[0]);
        assert(face@ =~= seq![face@[0]]);
    }
    assert(xml.open_elements() =~= old(xml).open_elements());
}

fn write_fills(xml: &mut XmlWriter)
    ensures
        final(xml).written() == old(xml).written() + fills_text(),
        final(xml).open_elements() == old(xml).open_elements(),
{
    let none = no_attributes();
    let two = [("count", "2")];
    let plain = [("patternType", "none")];
    let grey = [("patternType", "gray125")];
    xml.start("fills", &two);
    xml.start("fill", &none);
    xml.empty("patternFill", &plain);
    xml.end("fill");
    xml.start("fill", &none);
    xml.empty("patternFill", &grey);
    xml.end("fill");
    xml.end("fills");
    proof {
        lemma_one_attribute(two@[0]);
        assert(two@ =~= seq![two@[0]]);
        lemma_one_attribute(plain@[0]);
        assert(plain@ =~= seq![plain@[0]]);
        lemma_one_attribute(grey@[0]);
        assert(grey@ =~= seq![grey@[0]]);
    }
    assert(xml.open_elements() =~= old(xml).open_elements());
}

fn write_borders(xml: &mut XmlWriter)
    ensures
        final(xml).written() == old(xml).written() + borders_text(),
        final(xml).open_elements() == old(xml).open_elements(),
{
    let none = no_attributes();
    let count = [("count", "1")];
    xml.start("borders", &count);
    xml.start("border", &none);
    xml.empty("left", &none);
    xml.empty("right", &none);
    xml.empty("top", &none);
    xml.empty("bottom", &none);
    xml.empty("diagonal", &none);
    xml.end("border");
    xml.end("borders");
    proof {
        lemma_one_attribute(count@[0]);
        assert(count@ =~= seq![count@[0]]);
    }
    assert(xml.open_elements() =~= old(xml).open_elements());
}

fn write_formats(xml: &mut XmlWriter)
    ensures
        final(xml).written() == old(xml).written() + formats_text(),
        final(xml).open_elements() == old(xml).open_elements(),
{
    let count = [("count", "1")];
    let base = [("numFmtId", "0"), ("fontId", "0"), ("fillId", "0"), ("borderId", "0")];
    let cell = [base[0], base[1], base[2], base[3], ("xfId", "0")];
    xml.start("cellStyleXfs", &count);
    xml.empty("xf", &base);
    xml.end("cellStyleXfs");
    xml.start("cellXfs", &count);
    xml.empty("xf", &cell);
    xml.end("cellXfs");
    proof {
        lemma_one_attribute(count@[0]);
        assert(count@ =~= seq![count@[0]]);
        lemma_four_attributes(base@[0], base@[1], base@[2], base@[3]);
        assert(base@ =~= seq![base@[0], base@[1], base@[2], base@[3]]);
        lemma_five_attributes(cell@[0], cell@[1], cell@[2], cell@[3], cell@[4]);
        assert(cell@ =~= seq![cell@[0], cell@[1], cell@[2], cell@[3], cell@[4]]);
    }
    assert(xml.open_elements() =~= old(xml).open_elements());
}

/// The smallest style table a reader will accept.
///
/// Nothing here is used yet; a reader refuses the file without it. The two
/// fills are not a mistake: the format reserves the first two slots and the
/// second must be the grey pattern.
pub fn styles_part() -> (b: Vec<u8>)
    ensures
        b@ == vstd::utf8::encode_utf8(styles_text()),
{
    let mut xml = XmlWriter::new();
    let top = [("xmlns", MAIN)];
    xml.start("styleSheet", &top);
    proof {
        lemma_one_attribute(top@[0]);
        assert(top@ =~= seq![top@[0]]);
    }
    write_fonts(&mut xml);
    write_fills(&mut xml);
    write_borders(&mut xml);
    write_formats(&mut xml);
    xml.end("styleSheet");
    xml.into_bytes()
}

// ---------------------------------------------------------------------------
// The view element of a sheet

/// `sheetViews` for a sheet: the first sheet is the selected tab.
pub open spec fn sheet_views_text(is_first: bool) -> Seq<char> {
    opening("sheetViews"@, Seq::empty()) + element(
        "sheetView"@,
        (if is_first {
            attribute("tabSelected"@, "1"@)
        } else {
            Seq::empty()
        }) + attribute("workbookViewId"@, "0"@),
    ) + closing("sheetViews"@)
}

/// How the sheet is being looked at.
///
/// This element looks purely cosmetic and is not. Without it a reader scales
/// every custom row height by two thirds: a row written at 20 points comes
/// back as 13.4, at 30 points as 20, exactly.
pub fn write_sheet_views(xml: &mut XmlWriter, is_first: bool)
    ensures
        final(xml).written() == old(xml).written() + sheet_views_text(is_first),
        final(xml).open_elements() == old(xml).open_elements(),
{
    let none = no_attributes();
    xml.start("sheetViews", &none);
    let mut attributes: Vec<(&str, &str)> = Vec::new();
    if is_first {
        attributes.push(("tabSelected", "1"));
    }
    attributes.push(("workbookViewId", "0"));
    proof {
        if is_first {
            lemma_two_attributes(attributes@[0], attributes@[1]);
            assert(attributes@ =~= seq![attributes@[0], attributes@[1]]);
        } else {
            lemma_one_attribute(attributes@[0]);
            assert(attributes@ =~= seq![attributes@[0]]);
            assert(Seq::<char>::empty() + attribute("workbookViewId"@, "0"@) =~= attribute(
                "workbookViewId"@,
                "0"@,
            ));
        }
    }
    xml.empty("sheetView", attributes.as_slice());
    xml.end("sheetViews");
    assert(xml.open_elements() =~= old(xml).open_elements());
}

// ---------------------------------------------------------------------------
// xl/workbook.xml

/// The entry for the `n`-th sheet, counting from one, under its name.
pub open spec fn sheet_entry(name: Seq<char>, n: nat) -> Seq<char> {
    element(
        "sheet"@,
        attribute("name"@, name) + attribute("sheetId"@, decimal(n)) + attribute(
            "r:id"@,
            "rId"@ + decimal(n),
        ),
    )
}

/// The entries for these sheets, numbered in order.
pub open spec fn sheet_entries(names: Seq<Seq<char>>) -> Seq<char>
    decreases names.len(),
{
    if names.len() == 0 {
        Seq::empty()
    } else {
        sheet_entries(names.drop_last()) + sheet_entry(names.last(), names.len())
    }
}

/// `xl/workbook.xml` for sheets with these names, in tab order.
pub open spec fn workbook_text(names: Seq<Seq<char>>) -> Seq<char> {
    declaration() + opening(
        "workbook"@,
        attribute("xmlns"@, MAIN@) + attribute("xmlns:r"@, RELATIONSHIPS@),
    ) + opening("sheets"@, Seq::empty()) + sheet_entries(names) + closing("sheets"@) + closing(
        "workbook"@,
    )
}

/// `xl/workbook.xml`: the list of sheets, in tab order, each numbered and
/// pointing at its relationship.
pub fn workbook_part(names: &[String]) -> (b: Vec<u8>)
    ensures
        b@ == vstd::utf8::encode_utf8(workbook_text(names@.map_values(|s: String| s@))),
{
    let ghost all = names@.map_values(|s: String| s@);
    let none = no_attributes();
    let mut xml = XmlWriter::new();
    let top = [("xmlns", MAIN), ("xmlns:r", RELATIONSHIPS)];
    xml.start("workbook", &top);
    xml.start("sheets", &none);
    proof {
        lemma_two_attributes(top@[0], top@[1]);
        assert(top@ =~= seq![top@[0], top@[1]]);
    }
    let ghost head = xml.written();
    let mut i: usize = 0;
    while i < names.len()
        invariant
            i <= names@.len(),
            all == names@.map_values(|s: String| s@),
            xml.written() == head + sheet_entries(all.subrange(0, i as int)),
            xml.open_elements() == seq!["workbook"@, "sheets"@],
        decreases names.len() - i,
    {
        let mut number = String::new();
        push_decimal(&mut number, (i + 1) as u64);
        let mut id = String::new();
        push_str(&mut id, "rId");
        push_decimal(&mut id, (i + 1) as u64);
        let entry = [("name", names[i].as_str()), ("sheetId", number.as_str()), ("r:id", id.as_str())];
        xml.empty("sheet", &entry);
        proof {
            lemma_three_attributes(entry@[0], entry@[1], entry@[2]);
            assert(entry@ =~= seq![entry@[0], entry@[1], entry@[2]]);
            let done = all.subrange(0, i + 1);
            assert(done.drop_last() =~= all.subrange(0, i as int));
            assert(done.last() == names@[i as int]@);
        }
        i = i + 1;
    }
    assert(all.subrange(0, all.len() as int) =~= all);
    xml.end("sheets");
    xml.end("workbook");
    xml.into_bytes()
}

// ---------------------------------------------------------------------------
// The whole package

/// Where the `n`-th sheet goes in the archive.
pub open spec fn sheet_file_name(n: nat) -> Seq<char> {
    "xl/worksheets/sheet"@ + decimal(n) + ".xml"@
}

/// Every file of the package, in the order it is written: the fixed parts,
/// then one part per sheet, numbered from one.
pub open spec fn package_files(names: Seq<Seq<char>>, sheets: Seq<Seq<u8>>) -> Seq<(Seq<char>, Seq<u8>)> {
    seq![
        ("[Content_Types].xml"@, vstd::utf8::encode_utf8(content_types_text(sheets.len()))),
        ("_rels/.rels"@, vstd::utf8::encode_utf8(root_relationships_text())),
        ("xl/workbook.xml"@, vstd::utf8::encode_utf8(workbook_text(names))),
        (
            "xl/_rels/workbook.xml.rels"@,
            vstd::utf8::encode_utf8(workbook_relationships_text(sheets.len())),
        ),
        ("xl/styles.xml"@, vstd::utf8::encode_utf8(styles_text())),
    ] + Seq::new(sheets.len(), |i: int| (sheet_file_name((i + 1) as nat), sheets[i]))
}

proof fn lemma_addable_prefix(time: DosTime, files: Seq<(Seq<char>, Seq<u8>)>, k: int)
    requires
        addable(time, files),
        0 <= k <= files.len(),
    ensures
        addable(time, files.subrange(0, k)),
    decreases files.len(),
{
    if k < files.len() {
        lemma_addable_prefix(time, files.drop_last(), k);
        assert(files.drop_last().subrange(0, k) =~= files.subrange(0, k));
    } else {
        assert(files.subrange(0, k) =~= files);
    }
}

/// Add one more file to an archive that holds exactly the files `done`.
fn add_next(
    zip: &mut ZipWriter,
    name: &str,
    data: &[u8],
    Ghost(done): Ghost<Seq<(Seq<char>, Seq<u8>)>>,
) -> (r: Result<(), ZipError>)
    requires
        old(zip).well_formed(),
        addable(old(zip).stamp(), done),
        old(zip).bytes() == added(old(zip).stamp(), done).0,
        old(zip).entry_infos() == added(old(zip).stamp(), done).1,
    ensures
        final(zip).well_formed(),
        final(zip).stamp() == old(zip).stamp(),
        r is Ok <==> addable(old(zip).stamp(), done.push((name@, data@))),
        r is Ok ==> final(zip).bytes() == added(old(zip).stamp(), done.push((name@, data@))).0
            && final(zip).entry_infos() == added(old(zip).stamp(), done.push((name@, data@))).1,
{
    let ghost all = done.push((name@, data@));
    assert(all.drop_last() =~= done);
    zip.add(name, data)
}

/// Assemble a package from the names of its sheets and the part already
/// written for each, in tab order.
///
/// `time` stamps every entry. Passing [`DosTime::epoch`] makes the output
/// reproducible.
#[verifier::rlimit(80)]
pub fn write_package(names: &[String], sheets: &[Vec<u8>], time: DosTime) -> (r: Result<Vec<u8>, ZipError>)
    requires
        names@.len() == sheets@.len(),
        sheets@.len() < usize::MAX,
    ensures
        match archive(
            time,
            package_files(names@.map_values(|s: String| s@), sheets@.map_values(|v: Vec<u8>| v@)),
        ) {
            Some(bytes) => r matches Ok(b) && b@ == bytes,
            None => r matches Err(ZipError::TooLarge),
        },
{
    let ghost files = package_files(
        names@.map_values(|s: String| s@),
        sheets@.map_values(|v: Vec<u8>| v@),
    );
    let n = sheets.len();
    let mut zip = ZipWriter::new().with_time(time);
    assert(added(time, files.subrange(0, 0)).0 =~= Seq::<u8>::empty());
    let a = content_types(n);
    if add_next(&mut zip, "[Content_Types].xml", a.as_slice(), Ghost(files.subrange(0, 0))).is_err() {
        proof {
            assert(files.subrange(0, 0).push(files[0]) =~= files.subrange(0, 1));
            if addable(time, files) {
                lemma_addable_prefix(time, files, 1);
            }
        }
        return Err(ZipError::TooLarge);
    }
    assert(files.subrange(0, 0).push(files[0]) =~= files.subrange(0, 1));
    let b = root_relationships();
    let c = workbook_part(names);
    let d = workbook_relationships(n);
    let e = styles_part();
    let fixed: [(&str, &Vec<u8>); 4] = [
        ("_rels/.rels", &b),
        ("xl/workbook.xml", &c),
        ("xl/_rels/workbook.xml.rels", &d),
        ("xl/styles.xml", &e),
    ];
    let mut k: usize = 0;
    while k < 4
        invariant
            k <= 4,
            files == package_files(
                names@.map_values(|s: String| s@),
                sheets@.map_values(|v: Vec<u8>| v@),
            ),
            files.len() == 5 + n,
            forall|j: int| 0 <= j < 4 ==> (#[trigger] fixed@[j]).0@ == files[j + 1].0 && fixed@[j].1@ == files[j + 1].1,
            zip.well_formed(),
            zip.stamp() == time,
            addable(time, files.subrange(0, k + 1)),
            zip.bytes() == added(time, files.subrange(0, k + 1)).0,
            zip.entry_infos() == added(time, files.subrange(0, k + 1)).1,
        decreases 4 - k,
    {
        let (name, data) = fixed[k];
        let result = add_next(&mut zip, name, data.as_slice(), Ghost(files.subrange(0, k + 1)));
        proof {
            assert(files.subrange(0, k + 1).push(files[k + 1]) =~= files.subrange(0, k + 2));
        }
        if result.is_err() {
            proof {
                if addable(time, files) {
                    lemma_addable_prefix(time, files, k + 2);
                }
            }
            return Err(ZipError::TooLarge);
        }
        k = k + 1;
    }
    let mut i: usize = 0;
    while i < n
        invariant
            i <= n,
            n == sheets@.len(),
            n == names@.len(),
            files == package_files(
                names@.map_values(|s: String| s@),
                sheets@.map_values(|v: Vec<u8>| v@),
            ),
            files.len() == 5 + n,
            zip.well_formed(),
            zip.stamp() == time,
            addable(time, files.subrange(0, 5 + i)),
            zip.bytes() == added(time, files.subrange(0, 5 + i)).0,
            zip.entry_infos() == added(time, files.subrange(0, 5 + i)).1,
        decreases n - i,
    {
        let mut name = String::new();
        push_str(&mut name, "xl/worksheets/sheet");
        push_decimal(&mut name, (i + 1) as u64);
        push_str(&mut name, ".xml");
        let result = add_next(&mut zip, name.as_str(), sheets[i].as_slice(), Ghost(files.subrange(0, 5 + i)));
        proof {
            assert(files[5 + i] == (sheet_file_name((i + 1) as nat), sheets@[i as int]@));
            assert(files.subrange(0, 5 + i).push(files[5 + i]) =~= files.subrange(0, 5 + i + 1));
        }
        if result.is_err() {
            proof {
                if addable(time, files) {
                    lemma_addable_prefix(time, files, 5 + i + 1);
                }
            }
            return Err(ZipError::TooLarge);
        }
        i = i + 1;
    }
    assert(files.subrange(0, 5 + n) =~= files);
    zip.finish()
}

} // verus!
