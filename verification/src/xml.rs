//! Writing XML.
//!
//! Enough for the parts of a spreadsheet file, and no more. The one thing it
//! is strict about is escaping, because that is where a hand-rolled writer
//! produces a file that opens fine until somebody types an ampersand.

use vstd::prelude::*;

use crate::text::{chars_of, push_char, push_str};

verus! {

broadcast use vstd::string::group_string_axioms;

/// The declaration a document starts with.
pub open spec fn declaration() -> Seq<char> {
    "<?xml version=\"1.0\" encoding=\"UTF-8\" standalone=\"yes\"?>\r\n"@
}

/// What one character becomes in escaped output.
///
/// `&`, `<` and `>` always become entities, and the two quotes do inside an
/// attribute. Tab, newline and carriage return pass through; every other
/// control character is dropped, because XML cannot carry it at all.
pub open spec fn escape_char(c: char, in_attribute: bool) -> Seq<char> {
    if c == '&' {
        "&amp;"@
    } else if c == '<' {
        "&lt;"@
    } else if c == '>' {
        "&gt;"@
    } else if c == '"' && in_attribute {
        "&quot;"@
    } else if c == '\'' && in_attribute {
        "&apos;"@
    } else if c == '\t' || c == '\n' || c == '\r' {
        seq![c]
    } else if (c as u32) < 0x20 {
        Seq::empty()
    } else {
        seq![c]
    }
}

/// A text with every character escaped.
pub open spec fn escaped(s: Seq<char>, in_attribute: bool) -> Seq<char>
    decreases s.len(),
{
    if s.len() == 0 {
        Seq::empty()
    } else {
        escaped(s.drop_last(), in_attribute) + escape_char(s.last(), in_attribute)
    }
}

/// The attributes of a tag: ` name="value"` for each, in order, with the
/// value escaped for an attribute.
pub open spec fn attributes_text(attributes: Seq<(&str, &str)>) -> Seq<char>
    decreases attributes.len(),
{
    if attributes.len() == 0 {
        Seq::empty()
    } else {
        let (name, value) = attributes.last();
        attributes_text(attributes.drop_last()) + seq![' '] + name@ + "=\""@ + escaped(value@, true)
            + seq!['"']
    }
}

/// An opening tag.
pub open spec fn start_tag(name: Seq<char>, attributes: Seq<(&str, &str)>) -> Seq<char> {
    seq!['<'] + name + attributes_text(attributes) + seq!['>']
}

/// A tag with no children.
pub open spec fn empty_tag(name: Seq<char>, attributes: Seq<(&str, &str)>) -> Seq<char> {
    seq!['<'] + name + attributes_text(attributes) + "/>"@
}

/// A closing tag.
pub open spec fn end_tag(name: Seq<char>) -> Seq<char> {
    "</"@ + name + seq!['>']
}

/// Builds an XML document.
pub struct XmlWriter {
    out: String,
    /// Names of the elements currently open, so a close can be checked.
    open: Vec<String>,
}

fn escape_into(out: &mut String, text: &str, in_attribute: bool)
    ensures
        final(out)@ == old(out)@ + escaped(text@, in_attribute),
{
    let chars = chars_of(text);
    let mut i: usize = 0;
    while i < chars.len()
        invariant
            i <= chars@.len(),
            chars@ == text@,
            out@ == old(out)@ + escaped(chars@.subrange(0, i as int), in_attribute),
        decreases chars.len() - i,
    {
        let c = chars[i];
        let ghost before = out@;
        if c == '&' {
            push_str(out, "&amp;");
        } else if c == '<' {
            push_str(out, "&lt;");
        } else if c == '>' {
            push_str(out, "&gt;");
        } else if c == '"' && in_attribute {
            push_str(out, "&quot;");
        } else if c == '\'' && in_attribute {
            push_str(out, "&apos;");
        } else if c == '\t' || c == '\n' || c == '\r' {
            push_char(out, c);
        } else if (c as u32) < 0x20 {
        } else {
            push_char(out, c);
        }
        assert(out@ == before + escape_char(c, in_attribute));
        assert(chars@.subrange(0, i + 1).drop_last() =~= chars@.subrange(0, i as int));
        i = i + 1;
    }
    assert(chars@.subrange(0, chars@.len() as int) =~= chars@);
}

impl XmlWriter {
    /// The document written so far.
    pub closed spec fn written(&self) -> Seq<char> {
        self.out@
    }

    /// The names of the open elements, outermost first.
    pub closed spec fn open_elements(&self) -> Seq<Seq<char>> {
        self.open@.map_values(|s: String| s@)
    }

    /// Start a document with the declaration these files carry.
    pub fn new() -> (w: Self)
        ensures
            w.written() == declaration(),
            w.open_elements() == Seq::<Seq<char>>::empty(),
    {
        let w = XmlWriter {
            out: String::from_str("<?xml version=\"1.0\" encoding=\"UTF-8\" standalone=\"yes\"?>\r\n"),
            open: Vec::new(),
        };
        assert(w.open@.map_values(|s: String| s@) =~= Seq::<Seq<char>>::empty());
        w
    }

    /// Start without a declaration, for a fragment.
    pub fn fragment() -> (w: Self)
        ensures
            w.written() == Seq::<char>::empty(),
            w.open_elements() == Seq::<Seq<char>>::empty(),
    {
        let w = XmlWriter { out: String::new(), open: Vec::new() };
        assert(w.open@.map_values(|s: String| s@) =~= Seq::<Seq<char>>::empty());
        w
    }

    fn write_attributes(&mut self, attributes: &[(&str, &str)])
        ensures
            final(self).written() == old(self).written() + attributes_text(attributes@),
            final(self).open_elements() == old(self).open_elements(),
    {
        let mut i: usize = 0;
        while i < attributes.len()
            invariant
                i <= attributes@.len(),
                self.out@ == old(self).out@ + attributes_text(attributes@.subrange(0, i as int)),
                self.open@ == old(self).open@,
            decreases attributes.len() - i,
        {
            let (name, value) = attributes[i];
            push_char(&mut self.out, ' ');
            push_str(&mut self.out, name);
            push_str(&mut self.out, "=\"");
            escape_into(&mut self.out, value, true);
            push_char(&mut self.out, '"');
            assert(attributes@.subrange(0, i + 1).drop_last() =~= attributes@.subrange(0, i as int));
            i = i + 1;
        }
        assert(attributes@.subrange(0, attributes@.len() as int) =~= attributes@);
    }

    /// Open an element with attributes, leaving it open for children.
    pub fn start(&mut self, name: &str, attributes: &[(&str, &str)])
        ensures
            final(self).written() == old(self).written() + start_tag(name@, attributes@),
            final(self).open_elements() == old(self).open_elements().push(name@),
    {
        push_char(&mut self.out, '<');
        push_str(&mut self.out, name);
        self.write_attributes(attributes);
        push_char(&mut self.out, '>');
        let owned = String::from_str(name);
        self.open.push(owned);
        assert(self.open@.map_values(|s: String| s@) =~= old(self).open@.map_values(
            |s: String| s@,
        ).push(name@));
    }

    /// Write an element with no children.
    pub fn empty(&mut self, name: &str, attributes: &[(&str, &str)])
        ensures
            final(self).written() == old(self).written() + empty_tag(name@, attributes@),
            final(self).open_elements() == old(self).open_elements(),
    {
        push_char(&mut self.out, '<');
        push_str(&mut self.out, name);
        self.write_attributes(attributes);
        push_str(&mut self.out, "/>");
    }

    /// Write an element whose only content is text.
    pub fn text_element(&mut self, name: &str, attributes: &[(&str, &str)], text: &str)
        ensures
            final(self).written() == old(self).written() + start_tag(name@, attributes@) + escaped(
                text@,
                false,
            ) + end_tag(name@),
            final(self).open_elements() == old(self).open_elements(),
    {
        self.start(name, attributes);
        self.text(text);
        self.end(name);
        assert(self.open_elements() =~= old(self).open_elements());
    }

    /// Write character data, escaped.
    pub fn text(&mut self, text: &str)
        ensures
            final(self).written() == old(self).written() + escaped(text@, false),
            final(self).open_elements() == old(self).open_elements(),
    {
        escape_into(&mut self.out, text, false);
    }

    /// Close the most recently opened element, which must be the one named.
    pub fn end(&mut self, name: &str)
        requires
            old(self).open_elements().len() > 0,
            old(self).open_elements().last() == name@,
        ensures
            final(self).written() == old(self).written() + end_tag(name@),
            final(self).open_elements() == old(self).open_elements().drop_last(),
    {
        let ghost before = self.open@;
        let _closed = self.open.pop();
        assert(self.open@ =~= before.drop_last());
        assert(self.open@.map_values(|s: String| s@) =~= before.map_values(|s: String| s@).drop_last());
        push_str(&mut self.out, "</");
        push_str(&mut self.out, name);
        push_char(&mut self.out, '>');
    }

    /// How many elements are still open. Zero means the document is balanced.
    pub fn depth(&self) -> (d: usize)
        ensures
            d == self.open_elements().len(),
    {
        self.open.len()
    }

    /// Finish and hand back the document, which must have nothing left open.
    pub fn finish(self) -> (s: String)
        requires
            self.open_elements().len() == 0,
        ensures
            s@ == self.written(),
    {
        self.out
    }

    /// Finish and hand back the document's UTF-8 bytes.
    pub fn into_bytes(self) -> (b: Vec<u8>)
        requires
            self.open_elements().len() == 0,
        ensures
            b@ == vstd::utf8::encode_utf8(self.written()),
    {
        string_bytes(self.finish())
    }
}

/// `String::into_bytes`: the string's UTF-8 encoding, which is what a
/// `String` holds and what the documentation says it hands back.
#[verifier::external_body]
fn string_bytes(s: String) -> (b: Vec<u8>)
    ensures
        b@ == vstd::utf8::encode_utf8(s@),
{
    s.into_bytes()
}

/// Escape text for XML, as a standalone helper.
pub fn escape(text: &str) -> (s: String)
    ensures
        s@ == escaped(text@, false),
{
    let mut out = String::new();
    escape_into(&mut out, text, false);
    out
}

/// Escape text for an XML attribute value.
pub fn escape_attribute(text: &str) -> (s: String)
    ensures
        s@ == escaped(text@, true),
{
    let mut out = String::new();
    escape_into(&mut out, text, true);
    out
}

/// Escaped text carries no markup: no `<` or `>` at all, no quote inside an
/// attribute, and no control character other than tab, newline and carriage
/// return.
pub proof fn lemma_escaped_is_inert(s: Seq<char>, in_attribute: bool)
    ensures
        forall|i: int|
            0 <= i < escaped(s, in_attribute).len() ==> {
                let c = #[trigger] escaped(s, in_attribute)[i];
                &&& c != '<'
                &&& c != '>'
                &&& in_attribute ==> c != '"' && c != '\''
                &&& (c as u32) < 0x20 ==> (c == '\t' || c == '\n' || c == '\r')
            },
    decreases s.len(),
{
    reveal_strlit("&amp;");
    reveal_strlit("&lt;");
    reveal_strlit("&gt;");
    reveal_strlit("&quot;");
    reveal_strlit("&apos;");
    if s.len() > 0 {
        lemma_escaped_is_inert(s.drop_last(), in_attribute);
        let head = escaped(s.drop_last(), in_attribute);
        let tail = escape_char(s.last(), in_attribute);
        assert forall|i: int| 0 <= i < escaped(s, in_attribute).len() implies {
            let c = #[trigger] escaped(s, in_attribute)[i];
            &&& c != '<'
            &&& c != '>'
            &&& in_attribute ==> c != '"' && c != '\''
            &&& (c as u32) < 0x20 ==> (c == '\t' || c == '\n' || c == '\r')
        } by {
            if i < head.len() {
                assert(escaped(s, in_attribute)[i] == head[i]);
            } else {
                assert(escaped(s, in_attribute)[i] == tail[i - head.len()]);
            }
        }
    }
}

} // verus!
