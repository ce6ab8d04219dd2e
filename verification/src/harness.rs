//! Text layout for the picture a test reads: cells of a fixed width, and
//! references written the way a person writes them.
//!
//! A field holds its text against one edge and pads the other; text too long
//! for it is clipped, and the last character it has room for becomes `~` so
//! the clipping shows.

use vstd::prelude::*;
use vstd::math::{max, min};

use crate::coord::{parse_a1, parse_a1_chars, A1Ref, CellRef, RangeRef};
use crate::text::{chars_of, push_char};

verus! {

/// `n` spaces.
pub open spec fn spaces(n: nat) -> Seq<char> {
    Seq::new(n, |i: int| ' ')
}

/// Text in a field `width` characters wide: against the right edge or the
/// left, padded with spaces on the other side, or clipped with a `~` where it
/// does not fit.
pub open spec fn field_text(text: Seq<char>, align_right: bool, width: nat) -> Seq<char> {
    if text.len() > width {
        text.take(width - 1).push('~')
    } else if align_right {
        spaces((width - text.len()) as nat) + text
    } else {
        text + spaces((width - text.len()) as nat)
    }
}

/// Text in the middle of a field, the odd space going to the right; text
/// that does not fit is cut to the width.
pub open spec fn centred_text(text: Seq<char>, width: nat) -> Seq<char> {
    if text.len() >= width {
        text.take(width as int)
    } else {
        let left = ((width - text.len()) / 2) as nat;
        spaces(left) + text + spaces((width - text.len() - left) as nat)
    }
}

/// Where the first `:` of a text stands, or its length if it has none.
pub open spec fn first_colon(s: Seq<char>) -> nat
    decreases s.len(),
{
    if s.len() == 0 {
        0
    } else if s[0] == ':' {
        0
    } else {
        1 + first_colon(s.drop_first())
    }
}

/// Whether a text names a cell.
pub open spec fn names_cell(s: Seq<char>) -> bool {
    parse_a1(s) is Ok
}

/// The cell a text names.
pub open spec fn cell_named(s: Seq<char>) -> CellRef {
    parse_a1(s)->Ok_0.cell
}

/// The range with these two opposite corners.
pub open spec fn spanning(a: CellRef, b: CellRef) -> RangeRef {
    RangeRef {
        start: CellRef { row: min(a.row as int, b.row as int) as u32, col: min(a.col as int, b.col as int) as u32 },
        end: CellRef { row: max(a.row as int, b.row as int) as u32, col: max(a.col as int, b.col as int) as u32 },
    }
}

/// Whether a text names a range: a cell, or two cells either side of the
/// first `:`.
pub open spec fn names_range(s: Seq<char>) -> bool {
    let k = first_colon(s);
    if k == s.len() {
        names_cell(s)
    } else {
        names_cell(s.take(k as int)) && names_cell(s.skip(k + 1int))
    }
}

/// The range a text names.
pub open spec fn range_named(s: Seq<char>) -> RangeRef {
    let k = first_colon(s);
    if k == s.len() {
        RangeRef { start: cell_named(s), end: cell_named(s) }
    } else {
        spanning(cell_named(s.take(k as int)), cell_named(s.skip(k + 1int)))
    }
}

/// Append `n` spaces.
fn push_spaces(out: &mut String, n: usize)
    ensures
        final(out)@ == old(out)@ + spaces(n as nat),
{
    let mut i: usize = 0;
    while i < n
        invariant
            i <= n,
            out@ == old(out)@ + spaces(i as nat),
        decreases n - i,
    {
        push_char(out, ' ');
        i = i + 1;
        assert(spaces(i as nat) == spaces((i - 1) as nat).push(' '));
    }
}

/// Append the first `n` characters of `chars`.
fn push_prefix(out: &mut String, chars: &Vec<char>, n: usize)
    requires
        n <= chars.len(),
    ensures
        final(out)@ == old(out)@ + chars@.take(n as int),
{
    let mut i: usize = 0;
    while i < n
        invariant
            i <= n <= chars.len(),
            out@ == old(out)@ + chars@.take(i as int),
        decreases n - i,
    {
        push_char(out, chars[i]);
        i = i + 1;
        assert(chars@.take(i as int) == chars@.take(i - 1).push(chars@[i - 1]));
    }
}

/// Put text in a field of a fixed width, the way a cell does: against one
/// edge, and clipped if it does not fit.
pub fn field(text: &str, align_right: bool, width: usize) -> (r: String)
    requires
        width >= 1 || text@.len() == 0,
    ensures
        r@ == field_text(text@, align_right, width as nat),
{
    let chars = chars_of(text);
    let count = chars.len();
    let mut out = String::new();
    if count > width {
        push_prefix(&mut out, &chars, width - 1);
        push_char(&mut out, '~');
        return out;
    }
    if align_right {
        push_spaces(&mut out, width - count);
        push_prefix(&mut out, &chars, count);
    } else {
        push_prefix(&mut out, &chars, count);
        push_spaces(&mut out, width - count);
    }
    assert(chars@.take(count as int) == text@);
    out
}

/// Put text in the middle of a field of a fixed width.
pub fn centred(text: &str, width: usize) -> (r: String)
    ensures
        r@ == centred_text(text@, width as nat),
{
    let chars = chars_of(text);
    let count = chars.len();
    let mut out = String::new();
    if count >= width {
        push_prefix(&mut out, &chars, width);
        return out;
    }
    let left = (width - count) / 2;
    push_spaces(&mut out, left);
    push_prefix(&mut out, &chars, count);
    push_spaces(&mut out, width - count - left);
    assert(chars@.take(count as int) == text@);
    out
}

/// The cell a reference such as `B3` or `$B$3` names.
pub fn cell_of(text: &str) -> (r: CellRef)
    requires
        names_cell(text@),
    ensures
        r == cell_named(text@),
{
    match A1Ref::parse(text) {
        Ok(a) => a.cell,
        Err(_) => CellRef::new(0, 0),
    }
}

proof fn lemma_first_colon(s: Seq<char>, k: int)
    requires
        0 <= k <= s.len(),
        forall|i: int| 0 <= i < k ==> s[i] != ':',
        k == s.len() || s[k] == ':',
    ensures
        first_colon(s) == k,
    decreases s.len(),
{
    if s.len() > 0 && k > 0 {
        assert forall|i: int| 0 <= i < k - 1 implies s.drop_first()[i] != ':' by {
            assert(s[i + 1] != ':');
        }
        lemma_first_colon(s.drop_first(), k - 1);
    }
}

/// Copy `chars[from..to]`.
fn slice_of(chars: &Vec<char>, from: usize, to: usize) -> (r: Vec<char>)
    requires
        from <= to <= chars.len(),
    ensures
        r@ == chars@.subrange(from as int, to as int),
{
    let mut out: Vec<char> = Vec::new();
    let mut i: usize = from;
    while i < to
        invariant
            from <= i <= to <= chars.len(),
            out@ == chars@.subrange(from as int, i as int),
        decreases to - i,
    {
        out.push(chars[i]);
        i = i + 1;
        assert(out@ == chars@.subrange(from as int, i as int));
    }
    out
}

/// The range a reference such as `B2:C4`, or a single cell, names.
pub fn range_of(text: &str) -> (r: RangeRef)
    requires
        names_range(text@),
    ensures
        r == range_named(text@),
{
    let chars = chars_of(text);
    let mut k: usize = 0;
    while k < chars.len() && chars[k] != ':'
        invariant
            k <= chars.len(),
            chars@ == text@,
            forall|i: int| 0 <= i < k ==> chars@[i] != ':',
        decreases chars.len() - k,
    {
        k = k + 1;
    }
    proof {
        lemma_first_colon(text@, k as int);
    }
    if k == chars.len() {
        let cell = match parse_a1_chars(&chars) {
            Ok(a) => a.cell,
            Err(_) => CellRef::new(0, 0),
        };
        RangeRef::single(cell)
    } else {
        let first = slice_of(&chars, 0, k);
        let last = slice_of(&chars, k + 1, chars.len());
        assert(first@ == text@.take(k as int));
        assert(last@ == text@.skip(k + 1));
        let a = match parse_a1_chars(&first) {
            Ok(a) => a.cell,
            Err(_) => CellRef::new(0, 0),
        };
        let b = match parse_a1_chars(&last) {
            Ok(b) => b.cell,
            Err(_) => CellRef::new(0, 0),
        };
        RangeRef::new(a, b)
    }
}

} // verus!
