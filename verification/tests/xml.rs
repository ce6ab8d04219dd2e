use ferrum::xml::{escape, escape_attribute, XmlWriter};

#[test]
fn a_document_starts_with_the_declaration() {
    let mut xml = XmlWriter::new();
    xml.empty("root", &[]);
    let out = xml.finish();
    assert!(out.starts_with("<?xml version=\"1.0\""));
    assert!(out.ends_with("<root/>"));
}

#[test]
fn elements_nest() {
    let mut xml = XmlWriter::fragment();
    xml.start("a", &[]);
    xml.start("b", &[("x", "1")]);
    xml.text("hello");
    xml.end("b");
    xml.end("a");
    assert_eq!(xml.finish(), r#"<a><b x="1">hello</b></a>"#);
}

#[test]
fn attributes_are_written_in_order() {
    let mut xml = XmlWriter::fragment();
    xml.empty("c", &[("r", "A1"), ("t", "s"), ("s", "0")]);
    assert_eq!(xml.finish(), r#"<c r="A1" t="s" s="0"/>"#);
}

#[test]
fn the_markup_characters_are_escaped_in_text() {
    let mut xml = XmlWriter::fragment();
    xml.text_element("v", &[], "a & b < c > d");
    assert_eq!(xml.finish(), "<v>a &amp; b &lt; c &gt; d</v>");
}

#[test]
fn quotes_are_escaped_only_inside_an_attribute() {
    assert_eq!(escape(r#"say "hi""#), r#"say "hi""#);
    assert_eq!(escape_attribute(r#"say "hi""#), "say &quot;hi&quot;");
    assert_eq!(escape_attribute("it's"), "it&apos;s");
}

#[test]
fn a_formula_full_of_markup_survives() {
    let mut xml = XmlWriter::fragment();
    xml.text_element("f", &[], r#"IF(A1<B1,"x & y",C1>0)"#);
    assert_eq!(xml.finish(), r#"<f>IF(A1&lt;B1,"x &amp; y",C1&gt;0)</f>"#);
}

#[test]
fn control_characters_are_dropped_rather_than_written() {
    let mut xml = XmlWriter::fragment();
    xml.text_element("v", &[], "a\u{0}b\u{7}c");
    assert_eq!(xml.finish(), "<v>abc</v>");
}

#[test]
fn the_three_allowed_control_characters_survive() {
    let mut xml = XmlWriter::fragment();
    xml.text_element("v", &[], "a\tb\nc\rd");
    assert_eq!(xml.finish(), "<v>a\tb\nc\rd</v>");
}

#[test]
fn text_outside_the_basic_plane_survives() {
    let mut xml = XmlWriter::fragment();
    xml.text_element("v", &[], "naïve 日本語 🧮");
    assert_eq!(xml.finish(), "<v>naïve 日本語 🧮</v>");
}

#[test]
fn depth_reports_what_is_still_open() {
    let mut xml = XmlWriter::fragment();
    assert_eq!(xml.depth(), 0);
    xml.start("a", &[]);
    assert_eq!(xml.depth(), 1);
    xml.start("b", &[]);
    assert_eq!(xml.depth(), 2);
    xml.end("b");
    xml.end("a");
    assert_eq!(xml.depth(), 0);
}

#[test]
fn an_attribute_value_is_escaped_but_its_name_is_not() {
    let mut xml = XmlWriter::fragment();
    xml.empty("sheet", &[("name", "P&L <2026>")]);
    assert_eq!(xml.finish(), r#"<sheet name="P&amp;L &lt;2026&gt;"/>"#);
}

#[test]
fn into_bytes_is_the_utf8_of_the_document() {
    let mut xml = XmlWriter::fragment();
    xml.text_element("v", &[], "é");
    assert_eq!(xml.into_bytes(), "<v>é</v>".as_bytes());
}
