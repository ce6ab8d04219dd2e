//! The part that holds one sheet: `xl/worksheets/sheetN.xml`.
//!
//! The schema fixes the order of its pieces: the extent of the data, how the
//! sheet is being looked at, its default sizes, the columns that differ from
//! the default, and then the rows. Rows come out in order, each with its
//! cells in column order, and a row whose height was changed is written even
//! when it holds nothing.
//!
//! Text is written inline rather than through a shared-strings table. Both
//! are valid; inline is one part fewer.
//!
//! Numbers and sizes arrive already written out as decimal text: this module
//! decides where everything goes, not how a double is spelled.

use vstd::prelude::*;
use vstd::relations::{sorted_by, total_ordering};
use vstd::seq_lib::lemma_sorted_unique;

use crate::coord::{CellRef, RangeRef};
use crate::lexer::{is_whitespace, whitespace};
use crate::package::{
    attribute, closing, element, lemma_attributes_push, lemma_one_attribute, lemma_two_attributes,
    no_attributes, opening, package_files, sheet_views_text, write_package, write_sheet_views, MAIN,
};
use crate::zip::{archive, DosTime, ZipError};
use crate::text::{chars_of, decimal, push_decimal, string_from};
use crate::value::{display_text, CalcError};
use crate::xml::{attributes_text, declaration, escaped, XmlWriter};

verus! {

broadcast use vstd::string::group_string_axioms;

/// What a cell holds, as the sheet part records it. A number carries the
/// decimal text it is written as.
pub enum Stored {
    Blank,
    Number(String),
    Text(String),
    Logical(bool),
    Error(CalcError),
}

/// One cell to be written: where it is, the formula as typed, if it has one,
/// and its value.
pub struct StoredCell {
    pub at: CellRef,
    pub formula: Option<String>,
    pub value: Stored,
}

/// A row or column whose size differs from the sheet's default: its index,
/// its size as the decimal text the part records, and whether it is hidden.
pub struct SizeException {
    pub index: u32,
    pub size: String,
    pub hidden: bool,
}

/// A formula as stored: what was typed, without the leading `=` signs.
pub open spec fn stored_formula(typed: Seq<char>) -> Seq<char>
    decreases typed.len(),
{
    if typed.len() > 0 && typed[0] == '=' {
        stored_formula(typed.drop_first())
    } else {
        typed
    }
}

/// Text that starts or ends with white space, which survives only when the
/// part says so.
pub open spec fn padded(text: Seq<char>) -> bool {
    text.len() > 0 && (whitespace(text[0]) || whitespace(text.last()))
}

/// `<name>text</name>`, with the text escaped.
pub open spec fn text_element_text(name: Seq<char>, attributes: Seq<char>, text: Seq<char>) -> Seq<char> {
    opening(name, attributes) + escaped(text, false) + closing(name)
}

/// The type marker of a cell: text, logical and error cells say what they
/// are; numbers are the default.
pub open spec fn kind_attribute(value: Stored) -> Seq<char> {
    match value {
        Stored::Text(_) => attribute("t"@, "inlineStr"@),
        Stored::Logical(_) => attribute("t"@, "b"@),
        Stored::Error(_) => attribute("t"@, "e"@),
        _ => Seq::empty(),
    }
}

/// The value of a cell as the part records it.
pub open spec fn value_text(value: Stored) -> Seq<char> {
    match value {
        Stored::Blank => Seq::empty(),
        Stored::Number(n) => text_element_text("v"@, Seq::empty(), n@),
        Stored::Logical(b) => text_element_text(
            "v"@,
            Seq::empty(),
            if b {
                "1"@
            } else {
                "0"@
            },
        ),
        Stored::Error(e) => text_element_text("v"@, Seq::empty(), display_text(e)),
        Stored::Text(t) => opening("is"@, Seq::empty()) + text_element_text(
            "t"@,
            if padded(t@) {
                attribute("xml:space"@, "preserve"@)
            } else {
                Seq::empty()
            },
            t@,
        ) + closing("is"@),
    }
}

/// The formula of a cell as the part records it: without its `=`.
pub open spec fn formula_text(formula: Option<String>) -> Seq<char> {
    match formula {
        Some(f) => text_element_text("f"@, Seq::empty(), stored_formula(f@)),
        None => Seq::empty(),
    }
}

/// One cell. A blank cell with no formula carries nothing worth writing.
pub open spec fn cell_text(cell: StoredCell) -> Seq<char> {
    if cell.formula is None && cell.value is Blank {
        Seq::empty()
    } else {
        opening("c"@, attribute("r"@, cell.at.a1_text()) + kind_attribute(cell.value)) + formula_text(
            cell.formula,
        ) + value_text(cell.value) + closing("c"@)
    }
}

/// A position that can be written as a reference.
pub open spec fn writable(at: CellRef) -> bool {
    at.row < u32::MAX && at.col < u32::MAX
}

proof fn lemma_stored_formula_skips(typed: Seq<char>, k: int)
    requires
        0 <= k <= typed.len(),
        forall|i: int| 0 <= i < k ==> typed[i] == '=',
        k == typed.len() || typed[k] != '=',
    ensures
        stored_formula(typed) == typed.subrange(k, typed.len() as int),
    decreases k,
{
    if k == 0 {
        assert(typed.subrange(0, typed.len() as int) =~= typed);
    } else {
        let rest = typed.drop_first();
        assert forall|i: int| 0 <= i < k - 1 implies rest[i] == '=' by {
            assert(rest[i] == typed[i + 1]);
        }
        if k - 1 < rest.len() {
            assert(rest[k - 1] == typed[k]);
        }
        lemma_stored_formula_skips(rest, k - 1);
        assert(rest.subrange(k - 1, rest.len() as int) =~= typed.subrange(k, typed.len() as int));
    }
}

/// The formula as stored: the typed text without its leading `=` signs.
fn strip_equals(typed: &str) -> (r: String)
    ensures
        r@ == stored_formula(typed@),
{
    let chars = chars_of(typed);
    let mut k: usize = 0;
    while k < chars.len() && chars[k] == '='
        invariant
            k <= chars@.len(),
            chars@ == typed@,
            forall|i: int| 0 <= i < k ==> chars@[i] == '=',
        decreases chars.len() - k,
    {
        k = k + 1;
    }
    let mut rest: Vec<char> = Vec::new();
    let mut i: usize = k;
    while i < chars.len()
        invariant
            k <= i <= chars@.len(),
            rest@ == chars@.subrange(k as int, i as int),
        decreases chars.len() - i,
    {
        rest.push(chars[i]);
        i = i + 1;
        assert(rest@ =~= chars@.subrange(k as int, i as int));
    }
    proof {
        lemma_stored_formula_skips(typed@, k as int);
    }
    string_from(&rest)
}

/// Whether text starts or ends with white space.
fn is_padded(text: &str) -> (b: bool)
    ensures
        b == padded(text@),
{
    let chars = chars_of(text);
    if chars.len() == 0 {
        return false;
    }
    let first = is_whitespace(chars[0]);
    let last = is_whitespace(chars[chars.len() - 1]);
    first || last
}

/// Write a text element with no attributes.
fn write_plain(xml: &mut XmlWriter, name: &str, text: &str)
    ensures
        final(xml).written() == old(xml).written() + text_element_text(name@, Seq::empty(), text@),
        final(xml).open_elements() == old(xml).open_elements(),
{
    let none = no_attributes();
    xml.text_element(name, &none, text);
    assert(old(xml).written() + (seq!['<'] + name@ + Seq::<char>::empty() + seq!['>']) + escaped(
        text@,
        false,
    ) + ("</"@ + name@ + seq!['>']) =~= old(xml).written() + text_element_text(
        name@,
        Seq::empty(),
        text@,
    ));
}

/// Write the value of a cell.
fn write_value(xml: &mut XmlWriter, value: &Stored)
    ensures
        final(xml).written() == old(xml).written() + value_text(*value),
        final(xml).open_elements() == old(xml).open_elements(),
{
    match value {
        Stored::Blank => {
            assert(xml.written() =~= old(xml).written() + Seq::<char>::empty());
        },
        Stored::Number(n) => {
            write_plain(xml, "v", n.as_str());
        },
        Stored::Logical(b) => {
            write_plain(xml, "v", if *b { "1" } else { "0" });
        },
        Stored::Error(e) => {
            write_plain(xml, "v", e.as_str());
        },
        Stored::Text(t) => {
            let none = no_attributes();
            xml.start("is", &none);
            if is_padded(t.as_str()) {
                let preserve = [("xml:space", "preserve")];
                proof {
                    lemma_one_attribute(preserve@[0]);
                    assert(preserve@ =~= seq![preserve@[0]]);
                }
                xml.text_element("t", &preserve, t.as_str());
            } else {
                xml.text_element("t", &none, t.as_str());
            }
            xml.end("is");
            assert(xml.written() =~= old(xml).written() + value_text(*value));
            assert(xml.open_elements() =~= old(xml).open_elements());
        },
    }
}

/// Write the formula of a cell, if it has one.
fn write_formula(xml: &mut XmlWriter, formula: &Option<String>)
    ensures
        final(xml).written() == old(xml).written() + formula_text(*formula),
        final(xml).open_elements() == old(xml).open_elements(),
{
    match formula {
        Some(typed) => {
            let stored = strip_equals(typed.as_str());
            write_plain(xml, "f", stored.as_str());
        },
        None => {
            assert(xml.written() =~= old(xml).written() + Seq::<char>::empty());
        },
    }
}

/// Open the element of a cell: its reference and its type marker.
fn open_cell(xml: &mut XmlWriter, cell: &StoredCell)
    requires
        writable(cell.at),
    ensures
        final(xml).written() == old(xml).written() + opening(
            "c"@,
            attribute("r"@, cell.at.a1_text()) + kind_attribute(cell.value),
        ),
        final(xml).open_elements() == old(xml).open_elements().push("c"@),
{
    let reference = cell.at.to_a1();
    let kind: Option<&str> = match &cell.value {
        Stored::Text(_) => Some("inlineStr"),
        Stored::Logical(_) => Some("b"),
        Stored::Error(_) => Some("e"),
        _ => None,
    };
    let mut attributes: Vec<(&str, &str)> = Vec::new();
    attributes.push(("r", reference.as_str()));
    match kind {
        Some(k) => {
            attributes.push(("t", k));
        },
        None => {},
    }
    proof {
        if kind is Some {
            lemma_two_attributes(attributes@[0], attributes@[1]);
            assert(attributes@ =~= seq![attributes@[0], attributes@[1]]);
        } else {
            lemma_one_attribute(attributes@[0]);
            assert(attributes@ =~= seq![attributes@[0]]);
            assert(attribute("r"@, cell.at.a1_text()) + Seq::<char>::empty() =~= attribute(
                "r"@,
                cell.at.a1_text(),
            ));
        }
    }
    xml.start("c", attributes.as_slice());
}

/// Write one cell.
pub fn write_cell(xml: &mut XmlWriter, cell: &StoredCell)
    requires
        writable(cell.at),
    ensures
        final(xml).written() == old(xml).written() + cell_text(*cell),
        final(xml).open_elements() == old(xml).open_elements(),
{
    let blank = match &cell.value {
        Stored::Blank => true,
        _ => false,
    };
    if cell.formula.is_none() && blank {
        assert(xml.written() =~= old(xml).written() + Seq::<char>::empty());
        return;
    }
    open_cell(xml, cell);
    write_formula(xml, &cell.formula);
    write_value(xml, &cell.value);
    xml.end("c");
    assert(xml.written() =~= old(xml).written() + cell_text(*cell));
    assert(xml.open_elements() =~= old(xml).open_elements());
}

/// The cells of a row, each as `cell_text` has it.
pub open spec fn cells_text(cells: Seq<StoredCell>) -> Seq<char>
    decreases cells.len(),
{
    if cells.len() == 0 {
        Seq::empty()
    } else {
        cells_text(cells.drop_last()) + cell_text(cells.last())
    }
}

/// The size a row or column differs by: its size, that it is custom, and
/// whether it is hidden.
pub open spec fn size_attributes(name: Seq<char>, custom: Seq<char>, size: SizeException) -> Seq<char> {
    attribute(name, size.size@) + attribute(custom, "1"@) + (if size.hidden {
        attribute("hidden"@, "1"@)
    } else {
        Seq::empty()
    })
}

/// The attributes of a row: its number, counting from one, and its height
/// when that was changed.
pub open spec fn row_attributes(row: u32, height: Option<SizeException>) -> Seq<char> {
    attribute("r"@, decimal((row + 1) as nat)) + match height {
        Some(h) => size_attributes("ht"@, "customHeight"@, h),
        None => Seq::empty(),
    }
}

/// One row: an empty element when it holds no cells.
pub open spec fn row_text(row: u32, height: Option<SizeException>, cells: Seq<StoredCell>) -> Seq<char> {
    if cells.len() == 0 {
        element("row"@, row_attributes(row, height))
    } else {
        opening("row"@, row_attributes(row, height)) + cells_text(cells) + closing("row"@)
    }
}

/// The items a list of keys points at, in the keys' order.
pub open spec fn picked<T>(items: Seq<T>, keys: Seq<(u32, u32, usize)>) -> Seq<T> {
    keys.map_values(|key: (u32, u32, usize)| items[key.2 as int])
}

/// Keys pointing into `items`, each carrying the row (and column) of the
/// item it points at.
pub open spec fn keys_point_into_cells(keys: Seq<(u32, u32, usize)>, cells: Seq<StoredCell>) -> bool {
    forall|k: int|
        0 <= k < keys.len() ==> (#[trigger] keys[k]).2 < cells.len() && keys[k].0 == cells[keys[k].2 as int].at.row
            && keys[k].1 == cells[keys[k].2 as int].at.col
}

/// Write the cells that `order[from..to]` points at, in that order.
fn write_cells(
    xml: &mut XmlWriter,
    cells: &[StoredCell],
    order: &[(u32, u32, usize)],
    from: usize,
    to: usize,
)
    requires
        from <= to <= order@.len(),
        keys_point_into_cells(order@, cells@),
        forall|i: int| 0 <= i < cells@.len() ==> writable(#[trigger] cells@[i].at),
    ensures
        final(xml).written() == old(xml).written() + cells_text(
            picked(cells@, order@.subrange(from as int, to as int)),
        ),
        final(xml).open_elements() == old(xml).open_elements(),
{
    let mut k: usize = from;
    while k < to
        invariant
            from <= k <= to <= order@.len(),
            keys_point_into_cells(order@, cells@),
            forall|i: int| 0 <= i < cells@.len() ==> writable(#[trigger] cells@[i].at),
            xml.written() == old(xml).written() + cells_text(
                picked(cells@, order@.subrange(from as int, k as int)),
            ),
            xml.open_elements() == old(xml).open_elements(),
        decreases to - k,
    {
        let at = order[k].2;
        assert(order@[k as int].2 < cells@.len());
        write_cell(xml, &cells[at]);
        proof {
            let done = picked(cells@, order@.subrange(from as int, k + 1));
            assert(done.drop_last() =~= picked(cells@, order@.subrange(from as int, k as int)));
            assert(done.last() == cells@[at as int]);
        }
        k = k + 1;
    }
}

/// Write one row with the cells `order[from..to]` points at, and its height
/// when that was changed.
fn write_row(
    xml: &mut XmlWriter,
    row: u32,
    height: Option<&SizeException>,
    cells: &[StoredCell],
    order: &[(u32, u32, usize)],
    from: usize,
    to: usize,
)
    requires
        row < u32::MAX,
        from <= to <= order@.len(),
        keys_point_into_cells(order@, cells@),
        forall|i: int| 0 <= i < cells@.len() ==> writable(#[trigger] cells@[i].at),
    ensures
        final(xml).written() == old(xml).written() + row_text(
            row,
            match height {
                Some(h) => Some(*h),
                None => None,
            },
            picked(cells@, order@.subrange(from as int, to as int)),
        ),
        final(xml).open_elements() == old(xml).open_elements(),
{
    let ghost wanted = match height {
        Some(h) => Some(*h),
        None => None,
    };
    let ghost these = picked(cells@, order@.subrange(from as int, to as int));
    let mut number = String::new();
    push_decimal(&mut number, row as u64 + 1);
    let mut attributes: Vec<(&str, &str)> = Vec::new();
    attributes.push(("r", number.as_str()));
    proof {
        lemma_one_attribute(attributes@[0]);
        assert(attributes@ =~= seq![attributes@[0]]);
    }
    match height {
        Some(h) => {
            let ghost before = attributes@;
            let size_text = h.size.as_str();
            attributes.push(("ht", size_text));
            proof {
                lemma_attributes_push(before, ("ht", size_text));
            }
            let ghost middle = attributes@;
            attributes.push(("customHeight", "1"));
            proof {
                lemma_attributes_push(middle, ("customHeight", "1"));
            }
            if h.hidden {
                let ghost last = attributes@;
                attributes.push(("hidden", "1"));
                proof {
                    lemma_attributes_push(last, ("hidden", "1"));
                }
            }
        },
        None => {},
    }
    assert(attributes_text(attributes@) =~= row_attributes(row, wanted));
    if from == to {
        xml.empty("row", attributes.as_slice());
        return;
    }
    xml.start("row", attributes.as_slice());
    write_cells(xml, cells, order, from, to);
    xml.end("row");
    assert(xml.written() =~= old(xml).written() + row_text(row, wanted, these));
    assert(xml.open_elements() =~= old(xml).open_elements());
}

/// One column that differs from the default width.
pub open spec fn column_text(column: SizeException) -> Seq<char> {
    let number = decimal((column.index + 1) as nat);
    element(
        "col"@,
        attribute("min"@, number) + attribute("max"@, number) + size_attributes(
            "width"@,
            "customWidth"@,
            column,
        ),
    )
}

/// The columns that differ from the default width, in order.
pub open spec fn column_entries(columns: Seq<SizeException>) -> Seq<char>
    decreases columns.len(),
{
    if columns.len() == 0 {
        Seq::empty()
    } else {
        column_entries(columns.drop_last()) + column_text(columns.last())
    }
}

/// The `cols` element, left out when every column has the default width.
pub open spec fn columns_text(columns: Seq<SizeException>) -> Seq<char> {
    if columns.len() == 0 {
        Seq::empty()
    } else {
        opening("cols"@, Seq::empty()) + column_entries(columns) + closing("cols"@)
    }
}

/// Write one column entry.
fn write_column(xml: &mut XmlWriter, column: &SizeException)
    requires
        column.index < u32::MAX,
    ensures
        final(xml).written() == old(xml).written() + column_text(*column),
        final(xml).open_elements() == old(xml).open_elements(),
{
    let mut number = String::new();
    push_decimal(&mut number, column.index as u64 + 1);
    let mut attributes: Vec<(&str, &str)> = Vec::new();
    attributes.push(("min", number.as_str()));
    proof {
        lemma_one_attribute(attributes@[0]);
        assert(attributes@ =~= seq![attributes@[0]]);
    }
    let ghost first = attributes@;
    attributes.push(("max", number.as_str()));
    proof {
        lemma_attributes_push(first, attributes@[1]);
    }
    let ghost second = attributes@;
    let width = column.size.as_str();
    attributes.push(("width", width));
    proof {
        lemma_attributes_push(second, ("width", width));
    }
    let ghost third = attributes@;
    attributes.push(("customWidth", "1"));
    proof {
        lemma_attributes_push(third, ("customWidth", "1"));
    }
    if column.hidden {
        let ghost fourth = attributes@;
        attributes.push(("hidden", "1"));
        proof {
            lemma_attributes_push(fourth, ("hidden", "1"));
        }
    }
    assert(attributes_text(attributes@) =~= attribute("min"@, decimal((column.index + 1) as nat))
        + attribute("max"@, decimal((column.index + 1) as nat)) + size_attributes(
        "width"@,
        "customWidth"@,
        *column,
    ));
    xml.empty("col", attributes.as_slice());
}

/// Write the columns that differ from the default width; nothing when none
/// does.
pub fn write_columns(xml: &mut XmlWriter, columns: &[SizeException])
    requires
        forall|i: int| 0 <= i < columns@.len() ==> (#[trigger] columns@[i]).index < u32::MAX,
    ensures
        final(xml).written() == old(xml).written() + columns_text(columns@),
        final(xml).open_elements() == old(xml).open_elements(),
{
    if columns.len() == 0 {
        assert(xml.written() =~= old(xml).written() + Seq::<char>::empty());
        return;
    }
    let none = no_attributes();
    xml.start("cols", &none);
    let ghost head = xml.written();
    let mut i: usize = 0;
    while i < columns.len()
        invariant
            i <= columns@.len(),
            forall|k: int| 0 <= k < columns@.len() ==> (#[trigger] columns@[k]).index < u32::MAX,
            xml.written() == head + column_entries(columns@.subrange(0, i as int)),
            xml.open_elements() == old(xml).open_elements().push("cols"@),
        decreases columns.len() - i,
    {
        write_column(xml, &columns[i]);
        assert(columns@.subrange(0, i + 1).drop_last() =~= columns@.subrange(0, i as int));
        i = i + 1;
    }
    assert(columns@.subrange(0, columns@.len() as int) =~= columns@);
    xml.end("cols");
    assert(xml.written() =~= old(xml).written() + columns_text(columns@));
    assert(xml.open_elements() =~= old(xml).open_elements());
}

// ---------------------------------------------------------------------------
// Reading order

/// Keys compare by their first number, then their second, then their third,
/// as tuples of integers do.
pub open spec fn key_le(a: (u32, u32, usize), b: (u32, u32, usize)) -> bool {
    a.0 < b.0 || (a.0 == b.0 && (a.1 < b.1 || (a.1 == b.1 && a.2 <= b.2)))
}

pub open spec fn key_order() -> spec_fn((u32, u32, usize), (u32, u32, usize)) -> bool {
    |a: (u32, u32, usize), b: (u32, u32, usize)| key_le(a, b)
}

/// A key per cell: its row, its column, and where it stands in the list.
pub open spec fn cell_keys(cells: Seq<StoredCell>) -> Seq<(u32, u32, usize)> {
    Seq::new(cells.len(), |k: int| (cells[k].at.row, cells[k].at.col, k as usize))
}

/// A key per size exception: its index, and where it stands in the list.
pub open spec fn size_keys(sizes: Seq<SizeException>) -> Seq<(u32, u32, usize)> {
    Seq::new(sizes.len(), |k: int| (sizes[k].index, 0u32, k as usize))
}

/// The cells in reading order: by row, then column, cells that share a
/// position keeping the order they were given in.
pub open spec fn reading_order(cells: Seq<StoredCell>) -> Seq<StoredCell> {
    picked(cells, cell_keys(cells).sort_by(key_order()))
}

/// The size exceptions by index, those that share one keeping the order they
/// were given in.
pub open spec fn index_order(sizes: Seq<SizeException>) -> Seq<SizeException> {
    picked(sizes, size_keys(sizes).sort_by(key_order()))
}

proof fn lemma_key_order_is_total()
    ensures
        total_ordering(key_order()),
{
    let le = key_order();
    assert forall|x: (u32, u32, usize), y: (u32, u32, usize)| #[trigger] le(x, y) && #[trigger] le(y, x) implies x
        == y by {
        assert(x.0 == y.0 && x.1 == y.1 && x.2 == y.2);
    }
}

/// `slice::sort_unstable` on triples of integers: the same triples, in
/// ascending order, which for tuples is by the first number, then the
/// second, then the third.
#[verifier::external_body]
fn sort_keys(keys: &mut Vec<(u32, u32, usize)>)
    ensures
        final(keys)@.to_multiset() == old(keys)@.to_multiset(),
        sorted_by(final(keys)@, key_order()),
{
    keys.sort_unstable();
}

/// Sorted keys are the sorted sequence of what was sorted.
proof fn lemma_sorted_is_sort_by(sorted: Seq<(u32, u32, usize)>, keys: Seq<(u32, u32, usize)>)
    requires
        sorted.to_multiset() == keys.to_multiset(),
        sorted_by(sorted, key_order()),
    ensures
        sorted == keys.sort_by(key_order()),
        forall|k: int| 0 <= k < sorted.len() ==> keys.contains(#[trigger] sorted[k]),
{
    lemma_key_order_is_total();
    keys.lemma_sort_by_ensures(key_order());
    lemma_sorted_unique(sorted, keys.sort_by(key_order()), key_order());
    assert forall|k: int| 0 <= k < sorted.len() implies keys.contains(#[trigger] sorted[k]) by {
        assert(keys.sort_by(key_order())[k] == sorted[k]);
        assert(keys.sort_by(key_order()).contains(sorted[k]));
    }
}

/// The cells' keys in reading order.
fn cell_order(cells: &[StoredCell]) -> (r: Vec<(u32, u32, usize)>)
    ensures
        r@ == cell_keys(cells@).sort_by(key_order()),
        keys_point_into_cells(r@, cells@),
{
    let mut keys: Vec<(u32, u32, usize)> = Vec::new();
    let mut k: usize = 0;
    while k < cells.len()
        invariant
            k <= cells@.len(),
            keys@ == cell_keys(cells@).subrange(0, k as int),
        decreases cells.len() - k,
    {
        keys.push((cells[k].at.row, cells[k].at.col, k));
        k = k + 1;
        assert(keys@ =~= cell_keys(cells@).subrange(0, k as int));
    }
    assert(keys@ =~= cell_keys(cells@));
    sort_keys(&mut keys);
    proof {
        lemma_sorted_is_sort_by(keys@, cell_keys(cells@));
        assert forall|k: int| 0 <= k < keys@.len() implies (#[trigger] keys@[k]).2 < cells@.len()
            && keys@[k].0 == cells@[keys@[k].2 as int].at.row && keys@[k].1 == cells@[keys@[k].2 as int].at.col by {
            let i = choose|i: int| 0 <= i < cell_keys(cells@).len() && cell_keys(cells@)[i] == keys@[k];
            assert(cell_keys(cells@)[i] == keys@[k]);
        }
    }
    keys
}

/// The size exceptions' keys in index order.
fn size_order(sizes: &[SizeException]) -> (r: Vec<(u32, u32, usize)>)
    ensures
        r@ == size_keys(sizes@).sort_by(key_order()),
        forall|k: int|
            0 <= k < r@.len() ==> (#[trigger] r@[k]).2 < sizes@.len() && r@[k].0 == sizes@[r@[k].2 as int].index,
{
    let mut keys: Vec<(u32, u32, usize)> = Vec::new();
    let mut k: usize = 0;
    while k < sizes.len()
        invariant
            k <= sizes@.len(),
            keys@ == size_keys(sizes@).subrange(0, k as int),
        decreases sizes.len() - k,
    {
        keys.push((sizes[k].index, 0, k));
        k = k + 1;
        assert(keys@ =~= size_keys(sizes@).subrange(0, k as int));
    }
    assert(keys@ =~= size_keys(sizes@));
    sort_keys(&mut keys);
    proof {
        lemma_sorted_is_sort_by(keys@, size_keys(sizes@));
        assert forall|k: int| 0 <= k < keys@.len() implies (#[trigger] keys@[k]).2 < sizes@.len()
            && keys@[k].0 == sizes@[keys@[k].2 as int].index by {
            let i = choose|i: int| 0 <= i < size_keys(sizes@).len() && size_keys(sizes@)[i] == keys@[k];
            assert(size_keys(sizes@)[i] == keys@[k]);
        }
    }
    keys
}

// ---------------------------------------------------------------------------
// The rows

/// How many cells at the front share a row.
pub open spec fn run_length(cells: Seq<StoredCell>, row: u32) -> nat
    decreases cells.len(),
{
    if cells.len() > 0 && cells[0].at.row == row {
        1 + run_length(cells.drop_first(), row)
    } else {
        0
    }
}

/// A run of cells sharing a row is no longer than the cells.
pub proof fn lemma_run_length_fits(cells: Seq<StoredCell>, row: u32)
    ensures
        run_length(cells, row) <= cells.len(),
    decreases cells.len(),
{
    if cells.len() > 0 && cells[0].at.row == row {
        lemma_run_length_fits(cells.drop_first(), row);
    }
}

/// The rows of a sheet, from cells in reading order and size exceptions in
/// index order: whichever row comes first is written first. A row with cells
/// carries all of them, and its height when that was changed; a changed
/// height with no cells in its row is a row of its own.
pub open spec fn rows_text(cells: Seq<StoredCell>, sizes: Seq<SizeException>) -> Seq<char>
    decreases cells.len() + sizes.len(),
{
    if cells.len() == 0 {
        if sizes.len() == 0 {
            Seq::empty()
        } else {
            row_text(sizes[0].index, Some(sizes[0]), Seq::empty()) + rows_text(cells, sizes.drop_first())
        }
    } else if sizes.len() > 0 && sizes[0].index < cells[0].at.row {
        row_text(sizes[0].index, Some(sizes[0]), Seq::empty()) + rows_text(cells, sizes.drop_first())
    } else {
        let row = cells[0].at.row;
        let n = 1 + run_length(cells.drop_first(), row);
        proof {
            lemma_run_length_fits(cells.drop_first(), row);
        }
        if sizes.len() > 0 && sizes[0].index == row {
            row_text(row, Some(sizes[0]), cells.take(n as int)) + rows_text(
                cells.skip(n as int),
                sizes.drop_first(),
            )
        } else {
            row_text(row, None, cells.take(n as int)) + rows_text(cells.skip(n as int), sizes)
        }
    }
}

/// A run of cells that share a row, ended by the end of the cells or by a
/// cell in another row, has the length `run_length` gives.
proof fn lemma_run_length_is(cells: Seq<StoredCell>, row: u32, n: int)
    requires
        0 <= n <= cells.len(),
        forall|k: int| 0 <= k < n ==> (#[trigger] cells[k]).at.row == row,
        n < cells.len() ==> cells[n].at.row != row,
    ensures
        run_length(cells, row) == n,
    decreases n,
{
    if n > 0 {
        let rest = cells.drop_first();
        assert forall|k: int| 0 <= k < n - 1 implies (#[trigger] rest[k]).at.row == row by {
            assert(rest[k] == cells[k + 1]);
        }
        if n - 1 < rest.len() {
            assert(rest[n - 1] == cells[n]);
        }
        lemma_run_length_is(rest, row, n - 1);
    } else if cells.len() > 0 {
        assert(cells[0].at.row != row);
    }
}

/// The rows when a lone changed height comes first.
proof fn lemma_size_row_first(cells: Seq<StoredCell>, sizes: Seq<SizeException>)
    requires
        sizes.len() > 0,
        cells.len() == 0 || sizes[0].index < cells[0].at.row,
    ensures
        rows_text(cells, sizes) == row_text(sizes[0].index, Some(sizes[0]), Seq::empty()) + rows_text(
            cells,
            sizes.drop_first(),
        ),
{
}

/// The rows when a row of cells comes first.
proof fn lemma_cell_row_first(cells: Seq<StoredCell>, sizes: Seq<SizeException>, n: int)
    requires
        cells.len() > 0,
        !(sizes.len() > 0 && sizes[0].index < cells[0].at.row),
        n == 1 + run_length(cells.drop_first(), cells[0].at.row),
    ensures
        sizes.len() > 0 && sizes[0].index == cells[0].at.row ==> rows_text(cells, sizes) == row_text(
            cells[0].at.row,
            Some(sizes[0]),
            cells.take(n),
        ) + rows_text(cells.skip(n), sizes.drop_first()),
        !(sizes.len() > 0 && sizes[0].index == cells[0].at.row) ==> rows_text(cells, sizes) == row_text(
            cells[0].at.row,
            None,
            cells.take(n),
        ) + rows_text(cells.skip(n), sizes),
{
}

/// Where the run of keys in the row of `order[i]` ends.
fn run_end(order: &[(u32, u32, usize)], i: usize) -> (e: usize)
    requires
        i < order@.len(),
    ensures
        i < e <= order@.len(),
        forall|k: int| i <= k < e ==> (#[trigger] order@[k]).0 == order@[i as int].0,
        e < order@.len() ==> order@[e as int].0 != order@[i as int].0,
{
    let row = order[i].0;
    let mut e: usize = i + 1;
    while e < order.len() && order[e].0 == row
        invariant
            i < e <= order@.len(),
            row == order@[i as int].0,
            forall|k: int| i <= k < e ==> (#[trigger] order@[k]).0 == row,
        decreases order.len() - e,
    {
        e = e + 1;
    }
    e
}

/// Write a changed height whose row holds no cells, when it comes next.
fn write_size_row(
    xml: &mut XmlWriter,
    cells: &[StoredCell],
    sizes: &[SizeException],
    order: &[(u32, u32, usize)],
    by_index: &[(u32, u32, usize)],
    i: usize,
    j: usize,
) -> (r: (usize, usize))
    requires
        i <= order@.len(),
        j <= by_index@.len(),
        keys_point_into_cells(order@, cells@),
        forall|k: int|
            0 <= k < by_index@.len() ==> (#[trigger] by_index@[k]).2 < sizes@.len() && by_index@[k].0
                == sizes@[by_index@[k].2 as int].index,
        forall|k: int| 0 <= k < cells@.len() ==> writable(#[trigger] cells@[k].at),
        forall|k: int| 0 <= k < sizes@.len() ==> (#[trigger] sizes@[k]).index < u32::MAX,
        j < by_index@.len(),
        i == order@.len() || sizes@[by_index@[j as int].2 as int].index < order@[i as int].0,
    ensures
        r.0 == i && r.1 == j + 1,
        old(xml).written() + rows_text(
            picked(cells@, order@).subrange(i as int, order@.len() as int),
            picked(sizes@, by_index@).subrange(j as int, by_index@.len() as int),
        ) == final(xml).written() + rows_text(
            picked(cells@, order@).subrange(r.0 as int, order@.len() as int),
            picked(sizes@, by_index@).subrange(r.1 as int, by_index@.len() as int),
        ),
        final(xml).open_elements() == old(xml).open_elements(),
{
    let n = order.len();
    let m = by_index.len();
    let ghost all_cells = picked(cells@, order@);
    let ghost all_sizes = picked(sizes@, by_index@);
    let ghost rest_cells = all_cells.subrange(i as int, n as int);
    let ghost rest_sizes = all_sizes.subrange(j as int, m as int);
    let size = &sizes[by_index[j].2];
    write_row(xml, size.index, Some(size), cells, order, i, i);
    proof {
        assert(rest_sizes[0] == *size);
        if i < n {
            assert(rest_cells[0] == cells@[order@[i as int].2 as int]);
        }
        lemma_size_row_first(rest_cells, rest_sizes);
        assert(rest_sizes.drop_first() =~= all_sizes.subrange(j + 1, m as int));
        assert(picked(cells@, order@.subrange(i as int, i as int)) =~= Seq::<StoredCell>::empty());
    }
    (i, j + 1)
}

/// Write the row of the next cell, with every cell of that row and its
/// changed height, if it has one.
#[verifier::rlimit(40)]
fn write_cell_row(
    xml: &mut XmlWriter,
    cells: &[StoredCell],
    sizes: &[SizeException],
    order: &[(u32, u32, usize)],
    by_index: &[(u32, u32, usize)],
    i: usize,
    j: usize,
) -> (r: (usize, usize))
    requires
        i <= order@.len(),
        j <= by_index@.len(),
        keys_point_into_cells(order@, cells@),
        forall|k: int|
            0 <= k < by_index@.len() ==> (#[trigger] by_index@[k]).2 < sizes@.len() && by_index@[k].0
                == sizes@[by_index@[k].2 as int].index,
        forall|k: int| 0 <= k < cells@.len() ==> writable(#[trigger] cells@[k].at),
        forall|k: int| 0 <= k < sizes@.len() ==> (#[trigger] sizes@[k]).index < u32::MAX,
        i < order@.len(),
        !(j < by_index@.len() && sizes@[by_index@[j as int].2 as int].index < order@[i as int].0),
    ensures
        i < r.0 <= order@.len(),
        r.1 == j || r.1 == j + 1,
        r.1 <= by_index@.len(),
        old(xml).written() + rows_text(
            picked(cells@, order@).subrange(i as int, order@.len() as int),
            picked(sizes@, by_index@).subrange(j as int, by_index@.len() as int),
        ) == final(xml).written() + rows_text(
            picked(cells@, order@).subrange(r.0 as int, order@.len() as int),
            picked(sizes@, by_index@).subrange(r.1 as int, by_index@.len() as int),
        ),
        final(xml).open_elements() == old(xml).open_elements(),
{
    let n = order.len();
    let m = by_index.len();
    let ghost all_cells = picked(cells@, order@);
    let ghost all_sizes = picked(sizes@, by_index@);
    let ghost rest_cells = all_cells.subrange(i as int, n as int);
    let ghost rest_sizes = all_sizes.subrange(j as int, m as int);
    let row = order[i].0;
    let e = run_end(order, i);
    let same = j < m && sizes[by_index[j].2].index == row;
    proof {
        assert(rest_cells[0] == cells@[order@[i as int].2 as int]);
        let tail = rest_cells.drop_first();
        assert forall|k: int| 0 <= k < e - i - 1 implies (#[trigger] tail[k]).at.row == row by {
            assert(tail[k] == cells@[order@[i + 1 + k].2 as int]);
        }
        if e < n {
            assert(tail[e - i - 1] == cells@[order@[e as int].2 as int]);
        }
        lemma_run_length_is(tail, row, e - i - 1);
        if j < m {
            assert(rest_sizes[0] == sizes@[by_index@[j as int].2 as int]);
        }
        lemma_cell_row_first(rest_cells, rest_sizes, e - i);
        assert(rest_cells.take(e - i) =~= picked(cells@, order@.subrange(i as int, e as int)));
        assert(rest_cells.skip(e - i) =~= all_cells.subrange(e as int, n as int));
        if j < m {
            assert(rest_sizes.drop_first() =~= all_sizes.subrange(j + 1, m as int));
        }
    }
    if same {
        let size = &sizes[by_index[j].2];
        write_row(xml, row, Some(size), cells, order, i, e);
        (e, j + 1)
    } else {
        write_row(xml, row, None, cells, order, i, e);
        (e, j)
    }
}

/// Write `sheetData`: every row that holds a cell or has a changed height, in
/// order, each with its cells in column order.
pub fn write_rows(xml: &mut XmlWriter, cells: &[StoredCell], sizes: &[SizeException])
    requires
        forall|i: int| 0 <= i < cells@.len() ==> writable(#[trigger] cells@[i].at),
        forall|i: int| 0 <= i < sizes@.len() ==> (#[trigger] sizes@[i]).index < u32::MAX,
    ensures
        final(xml).written() == old(xml).written() + opening("sheetData"@, Seq::empty()) + rows_text(
            reading_order(cells@),
            index_order(sizes@),
        ) + closing("sheetData"@),
        final(xml).open_elements() == old(xml).open_elements(),
{
    let order = cell_order(cells);
    let by_index = size_order(sizes);
    let ghost all_cells = picked(cells@, order@);
    let ghost all_sizes = picked(sizes@, by_index@);
    let none = no_attributes();
    xml.start("sheetData", &none);
    let ghost head = xml.written();
    let n = order.len();
    let m = by_index.len();
    let mut i: usize = 0;
    let mut j: usize = 0;
    proof {
        assert(all_cells.subrange(0, n as int) =~= all_cells);
        assert(all_sizes.subrange(0, m as int) =~= all_sizes);
    }
    while i < n || j < m
        invariant
            n == order@.len(),
            m == by_index@.len(),
            all_cells == picked(cells@, order@),
            all_sizes == picked(sizes@, by_index@),
            keys_point_into_cells(order@, cells@),
            forall|k: int|
                0 <= k < m ==> (#[trigger] by_index@[k]).2 < sizes@.len() && by_index@[k].0
                    == sizes@[by_index@[k].2 as int].index,
            forall|k: int| 0 <= k < cells@.len() ==> writable(#[trigger] cells@[k].at),
            forall|k: int| 0 <= k < sizes@.len() ==> (#[trigger] sizes@[k]).index < u32::MAX,
            i <= n,
            j <= m,
            head + rows_text(all_cells, all_sizes) == xml.written() + rows_text(
                all_cells.subrange(i as int, n as int),
                all_sizes.subrange(j as int, m as int),
            ),
            xml.open_elements() == old(xml).open_elements().push("sheetData"@),
        decreases (n - i) + (m - j),
    {
        let size_first = j < m && (i == n || sizes[by_index[j].2].index < order[i].0);
        let (next_i, next_j) = if size_first {
            write_size_row(xml, cells, sizes, &order, &by_index, i, j)
        } else {
            write_cell_row(xml, cells, sizes, &order, &by_index, i, j)
        };
        i = next_i;
        j = next_j;
    }
    proof {
        assert(all_cells.subrange(n as int, n as int) =~= Seq::<StoredCell>::empty());
        assert(all_sizes.subrange(m as int, m as int) =~= Seq::<SizeException>::empty());
    }
    xml.end("sheetData");
    assert(xml.open_elements() =~= old(xml).open_elements());
}

// ---------------------------------------------------------------------------
// The whole part

/// A sheet as its part records it: its cells, in any order, its default row
/// height and column width as decimal text, and the columns and rows whose
/// size differs from those.
pub struct SheetContents {
    pub cells: Vec<StoredCell>,
    pub default_row_height: String,
    pub default_column_width: String,
    pub columns: Vec<SizeException>,
    pub rows: Vec<SizeException>,
}

/// The smallest range covering every cell, if there is one.
pub open spec fn bounds_of(cells: Seq<StoredCell>) -> Option<RangeRef>
    decreases cells.len(),
{
    if cells.len() == 0 {
        None
    } else {
        let at = cells.last().at;
        match bounds_of(cells.drop_last()) {
            None => Some(RangeRef { start: at, end: at }),
            Some(b) => Some(
                RangeRef {
                    start: CellRef {
                        row: if b.start.row <= at.row {
                            b.start.row
                        } else {
                            at.row
                        },
                        col: if b.start.col <= at.col {
                            b.start.col
                        } else {
                            at.col
                        },
                    },
                    end: CellRef {
                        row: if b.end.row >= at.row {
                            b.end.row
                        } else {
                            at.row
                        },
                        col: if b.end.col >= at.col {
                            b.end.col
                        } else {
                            at.col
                        },
                    },
                },
            ),
        }
    }
}

/// The extent of the data, when there is any.
pub open spec fn dimension_text(cells: Seq<StoredCell>) -> Seq<char> {
    match bounds_of(cells) {
        Some(r) => element("dimension"@, attribute("ref"@, r.a1_text())),
        None => Seq::empty(),
    }
}

/// The sheet's own default row height and column width.
pub open spec fn format_text(row_height: Seq<char>, column_width: Seq<char>) -> Seq<char> {
    element(
        "sheetFormatPr"@,
        attribute("defaultRowHeight"@, row_height) + attribute("defaultColWidth"@, column_width),
    )
}

/// The part for one sheet, the first sheet being the selected tab.
pub open spec fn sheet_text(sheet: SheetContents, is_first: bool) -> Seq<char> {
    declaration() + opening("worksheet"@, attribute("xmlns"@, MAIN@)) + dimension_text(sheet.cells@)
        + sheet_views_text(is_first) + format_text(
        sheet.default_row_height@,
        sheet.default_column_width@,
    ) + columns_text(sheet.columns@) + opening("sheetData"@, Seq::empty()) + rows_text(
        reading_order(sheet.cells@),
        index_order(sheet.rows@),
    ) + closing("sheetData"@) + closing("worksheet"@)
}

/// A sheet the part can be written for: every cell and every changed row
/// and column has a number the part can write.
pub open spec fn recordable(sheet: SheetContents) -> bool {
    &&& forall|i: int| 0 <= i < sheet.cells@.len() ==> writable(#[trigger] sheet.cells@[i].at)
    &&& forall|i: int| 0 <= i < sheet.columns@.len() ==> (#[trigger] sheet.columns@[i]).index < u32::MAX
    &&& forall|i: int| 0 <= i < sheet.rows@.len() ==> (#[trigger] sheet.rows@[i]).index < u32::MAX
}

/// The bounds of writable cells have writable corners.
proof fn lemma_bounds_are_writable(cells: Seq<StoredCell>)
    requires
        forall|i: int| 0 <= i < cells.len() ==> writable(#[trigger] cells[i].at),
    ensures
        bounds_of(cells) matches Some(r) ==> writable(r.start) && writable(r.end),
    decreases cells.len(),
{
    if cells.len() > 0 {
        let rest = cells.drop_last();
        assert forall|i: int| 0 <= i < rest.len() implies writable(#[trigger] rest[i].at) by {
            assert(rest[i] == cells[i]);
        }
        lemma_bounds_are_writable(rest);
        assert(writable(cells[cells.len() - 1].at));
    }
}

/// The smallest range covering every cell.
fn bounds(cells: &[StoredCell]) -> (r: Option<RangeRef>)
    ensures
        r == bounds_of(cells@),
{
    let mut out: Option<RangeRef> = None;
    let mut i: usize = 0;
    while i < cells.len()
        invariant
            i <= cells@.len(),
            out == bounds_of(cells@.subrange(0, i as int)),
        decreases cells.len() - i,
    {
        let at = cells[i].at;
        out = match out {
            None => Some(RangeRef { start: at, end: at }),
            Some(b) => Some(
                RangeRef {
                    start: CellRef {
                        row: if b.start.row <= at.row {
                            b.start.row
                        } else {
                            at.row
                        },
                        col: if b.start.col <= at.col {
                            b.start.col
                        } else {
                            at.col
                        },
                    },
                    end: CellRef {
                        row: if b.end.row >= at.row {
                            b.end.row
                        } else {
                            at.row
                        },
                        col: if b.end.col >= at.col {
                            b.end.col
                        } else {
                            at.col
                        },
                    },
                },
            ),
        };
        proof {
            let done = cells@.subrange(0, i + 1);
            assert(done.drop_last() =~= cells@.subrange(0, i as int));
            assert(done.last() == cells@[i as int]);
        }
        i = i + 1;
    }
    assert(cells@.subrange(0, cells@.len() as int) =~= cells@);
    out
}

/// Write the extent of the data, when there is any.
fn write_dimension(xml: &mut XmlWriter, cells: &[StoredCell])
    requires
        forall|i: int| 0 <= i < cells@.len() ==> writable(#[trigger] cells@[i].at),
    ensures
        final(xml).written() == old(xml).written() + dimension_text(cells@),
        final(xml).open_elements() == old(xml).open_elements(),
{
    proof {
        lemma_bounds_are_writable(cells@);
    }
    match bounds(cells) {
        Some(used) => {
            let text = used.to_a1();
            let reference = [("ref", text.as_str())];
            proof {
                lemma_one_attribute(reference@[0]);
                assert(reference@ =~= seq![reference@[0]]);
            }
            xml.empty("dimension", &reference);
        },
        None => {
            assert(xml.written() =~= old(xml).written() + Seq::<char>::empty());
        },
    }
}

/// Write the sheet's own default sizes.
///
/// Omitting this is not harmless: without it a reader falls back to the
/// schema's default row height and rescales every custom height against it.
fn write_format(xml: &mut XmlWriter, row_height: &str, column_width: &str)
    ensures
        final(xml).written() == old(xml).written() + format_text(row_height@, column_width@),
        final(xml).open_elements() == old(xml).open_elements(),
{
    let sizes = [("defaultRowHeight", row_height), ("defaultColWidth", column_width)];
    proof {
        lemma_two_attributes(sizes@[0], sizes@[1]);
        assert(sizes@ =~= seq![sizes@[0], sizes@[1]]);
    }
    xml.empty("sheetFormatPr", &sizes);
}

/// The part for one sheet, as UTF-8: the extent of its data, how it is
/// looked at, its default sizes, the columns and rows that differ from them,
/// and its rows of cells in reading order.
pub fn sheet_part(sheet: &SheetContents, is_first: bool) -> (b: Vec<u8>)
    requires
        recordable(*sheet),
    ensures
        b@ == vstd::utf8::encode_utf8(sheet_text(*sheet, is_first)),
{
    let mut xml = XmlWriter::new();
    let top = [("xmlns", MAIN)];
    proof {
        lemma_one_attribute(top@[0]);
        assert(top@ =~= seq![top@[0]]);
    }
    xml.start("worksheet", &top);
    write_dimension(&mut xml, sheet.cells.as_slice());
    write_sheet_views(&mut xml, is_first);
    write_format(&mut xml, sheet.default_row_height.as_str(), sheet.default_column_width.as_str());
    write_columns(&mut xml, sheet.columns.as_slice());
    write_rows(&mut xml, sheet.cells.as_slice(), sheet.rows.as_slice());
    xml.end("worksheet");
    assert(xml.written() =~= sheet_text(*sheet, is_first));
    xml.into_bytes()
}

/// Write a workbook as spreadsheet-file bytes, from the names of its sheets
/// and their contents, in tab order; the first sheet is the selected tab.
///
/// `time` stamps every entry. Passing [`DosTime::epoch`] makes the output
/// reproducible.
pub fn write_workbook(names: &[String], sheets: &[SheetContents], time: DosTime) -> (r: Result<
    Vec<u8>,
    ZipError,
>)
    requires
        names@.len() == sheets@.len(),
        sheets@.len() < usize::MAX,
        forall|i: int| 0 <= i < sheets@.len() ==> recordable(#[trigger] sheets@[i]),
    ensures
        match archive(
            time,
            package_files(
                names@.map_values(|s: String| s@),
                Seq::new(
                    sheets@.len(),
                    |i: int| vstd::utf8::encode_utf8(sheet_text(sheets@[i], i == 0)),
                ),
            ),
        ) {
            Some(bytes) => r matches Ok(b) && b@ == bytes,
            None => r matches Err(ZipError::TooLarge),
        },
{
    let mut parts: Vec<Vec<u8>> = Vec::new();
    let mut i: usize = 0;
    while i < sheets.len()
        invariant
            i <= sheets@.len(),
            forall|k: int| 0 <= k < sheets@.len() ==> recordable(#[trigger] sheets@[k]),
            parts@.len() == i,
            forall|k: int|
                0 <= k < i ==> (#[trigger] parts@[k])@ == vstd::utf8::encode_utf8(
                    sheet_text(sheets@[k], k == 0),
                ),
        decreases sheets.len() - i,
    {
        parts.push(sheet_part(&sheets[i], i == 0));
        i = i + 1;
    }
    assert(parts@.map_values(|v: Vec<u8>| v@) =~= Seq::new(
        sheets@.len(),
        |i: int| vstd::utf8::encode_utf8(sheet_text(sheets@[i], i == 0)),
    ));
    write_package(names, parts.as_slice(), time)
}

// ---------------------------------------------------------------------------
// What reading order promises

/// Whether one cell comes before or with another in reading order: an
/// earlier row, or the same row and a column no later.
pub open spec fn reads_before(a: CellRef, b: CellRef) -> bool {
    a.row < b.row || (a.row == b.row && a.col <= b.col)
}

/// Whether a cell stands somewhere in a sequence.
pub open spec fn appears_in(cells: Seq<StoredCell>, cell: StoredCell) -> bool {
    exists|a: int| 0 <= a < cells.len() && cells[a] == cell
}

/// Cells in reading order are every cell given, each once, sorted by row
/// and then by column.
pub proof fn lemma_reading_order_sorts_every_cell(cells: Seq<StoredCell>)
    requires
        cells.len() <= usize::MAX,
    ensures
        reading_order(cells).len() == cells.len(),
        forall|a: int, b: int|
            0 <= a < b < cells.len() ==> reads_before(
                (#[trigger] reading_order(cells)[a]).at,
                (#[trigger] reading_order(cells)[b]).at,
            ),
        forall|k: int| 0 <= k < cells.len() ==> appears_in(reading_order(cells), #[trigger] cells[k]),
{
    let keys = cell_keys(cells);
    let sorted = keys.sort_by(key_order());
    lemma_key_order_is_total();
    keys.lemma_sort_by_ensures(key_order());
    broadcast use vstd::seq_lib::group_to_multiset_ensures;

    assert(sorted.len() == keys.len()) by {
        assert(sorted.to_multiset().len() == keys.to_multiset().len());
    }
    assert forall|a: int| 0 <= a < sorted.len() implies (#[trigger] sorted[a]).2 < cells.len()
        && sorted[a].0 == cells[sorted[a].2 as int].at.row && sorted[a].1 == cells[sorted[a].2 as int].at.col by {
        assert(sorted.contains(sorted[a]));
        assert(keys.contains(sorted[a]));
        let i = choose|i: int| 0 <= i < keys.len() && keys[i] == sorted[a];
        assert(keys[i] == sorted[a]);
    }
    assert forall|a: int, b: int|
        0 <= a < b < cells.len() implies reads_before(
        (#[trigger] reading_order(cells)[a]).at,
        (#[trigger] reading_order(cells)[b]).at,
    ) by {
        assert(key_order()(sorted[a], sorted[b]));
        assert(key_le(sorted[a], sorted[b]));
        assert(reading_order(cells)[a] == cells[sorted[a].2 as int]);
        assert(reading_order(cells)[b] == cells[sorted[b].2 as int]);
    }
    assert forall|k: int| 0 <= k < cells.len() implies appears_in(reading_order(cells), #[trigger] cells[k]) by {
        assert(keys[k] == (cells[k].at.row, cells[k].at.col, k as usize));
        assert(keys.contains(keys[k]));
        assert(keys.to_multiset().count(keys[k]) > 0);
        assert(sorted.contains(keys[k]));
        let a = choose|a: int| 0 <= a < sorted.len() && sorted[a] == keys[k];
        assert(0 <= a < cells.len());
        assert(sorted[a].2 == k);
        assert(reading_order(cells)[a] == cells[sorted[a].2 as int]);
        assert(reading_order(cells)[a] == cells[k]);
    }
}

} // verus!
