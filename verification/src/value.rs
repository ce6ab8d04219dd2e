//! The error values a calculation produces, and how text compares.
//!
//! A spreadsheet is weakly typed and case-insensitive about text. The rules
//! for spelling an error and for ordering two strings live here so that the
//! formula language, the document model and the interface agree on them.

use vstd::prelude::*;

use std::cmp::Ordering;

use crate::text::{chars_of, is_ascii_upper};

verus! {

/// The error values a calculation can produce.
///
/// These are values, not Rust errors: a cell holding one is a perfectly valid
/// cell, and most operators propagate it to their result.
#[derive(Clone, Copy, PartialEq, Eq, Structural, Hash, Debug)]
pub enum CalcError {
    /// Two ranges were intersected and share no cells.
    Null,
    /// Division by zero.
    Div0,
    /// An operand had the wrong kind and could not be coerced.
    Value,
    /// A reference no longer points at anything.
    Ref,
    /// A function or defined name was not recognised.
    Name,
    /// The arithmetic is defined but the result is not representable.
    Num,
    /// A lookup found nothing, or a value is deliberately absent.
    NotAvailable,
    /// A dynamic array had no room to write its result.
    Spill,
    /// A calculation could not be carried out at all.
    Calc,
}

/// The text a cell displays for an error.
pub open spec fn display_text(e: CalcError) -> Seq<char> {
    match e {
        CalcError::Null => "#NULL!"@,
        CalcError::Div0 => "#DIV/0!"@,
        CalcError::Value => "#VALUE!"@,
        CalcError::Ref => "#REF!"@,
        CalcError::Name => "#NAME?"@,
        CalcError::Num => "#NUM!"@,
        CalcError::NotAvailable => "#N/A"@,
        CalcError::Spill => "#SPILL!"@,
        CalcError::Calc => "#CALC!"@,
    }
}

/// A character with ASCII capitals folded to small letters.
pub open spec fn fold_ascii(c: char) -> int {
    if is_ascii_upper(c) {
        (c as u32) + 32
    } else {
        (c as u32) as int
    }
}

/// Two texts are equal once ASCII letters are folded to one case.
pub open spec fn same_ignoring_ascii_case(a: Seq<char>, b: Seq<char>) -> bool {
    a.len() == b.len() && forall|i: int| 0 <= i < a.len() ==> fold_ascii(#[trigger] a[i]) == fold_ascii(b[i])
}

/// The error a written spelling names, trying each error in declaration
/// order and ignoring ASCII case.
pub open spec fn error_named(t: Seq<char>) -> Option<CalcError> {
    if same_ignoring_ascii_case(display_text(CalcError::Null), t) {
        Some(CalcError::Null)
    } else if same_ignoring_ascii_case(display_text(CalcError::Div0), t) {
        Some(CalcError::Div0)
    } else if same_ignoring_ascii_case(display_text(CalcError::Value), t) {
        Some(CalcError::Value)
    } else if same_ignoring_ascii_case(display_text(CalcError::Ref), t) {
        Some(CalcError::Ref)
    } else if same_ignoring_ascii_case(display_text(CalcError::Name), t) {
        Some(CalcError::Name)
    } else if same_ignoring_ascii_case(display_text(CalcError::Num), t) {
        Some(CalcError::Num)
    } else if same_ignoring_ascii_case(display_text(CalcError::NotAvailable), t) {
        Some(CalcError::NotAvailable)
    } else if same_ignoring_ascii_case(display_text(CalcError::Spill), t) {
        Some(CalcError::Spill)
    } else if same_ignoring_ascii_case(display_text(CalcError::Calc), t) {
        Some(CalcError::Calc)
    } else {
        None
    }
}

/// The ordinal `ERROR.TYPE` reports for an error.
pub open spec fn error_ordinal(e: CalcError) -> u8 {
    match e {
        CalcError::Null => 1,
        CalcError::Div0 => 2,
        CalcError::Value => 3,
        CalcError::Ref => 4,
        CalcError::Name => 5,
        CalcError::Num => 6,
        CalcError::NotAvailable => 7,
        CalcError::Spill => 9,
        CalcError::Calc => 14,
    }
}

/// Compare two characters with ASCII letters folded to one case.
pub fn chars_equal_ignoring_ascii_case(a: &Vec<char>, b: &Vec<char>) -> (r: bool)
    ensures
        r == same_ignoring_ascii_case(a@, b@),
{
    if a.len() != b.len() {
        return false;
    }
    let mut i: usize = 0;
    while i < a.len()
        invariant
            a@.len() == b@.len(),
            i <= a@.len(),
            forall|j: int| 0 <= j < i ==> fold_ascii(#[trigger] a@[j]) == fold_ascii(b@[j]),
        decreases a.len() - i,
    {
        if fold(a[i]) != fold(b[i]) {
            return false;
        }
        i = i + 1;
    }
    true
}

fn fold(c: char) -> (r: u32)
    ensures
        r == fold_ascii(c),
{
    if 'A' <= c && c <= 'Z' {
        (c as u32) + 32
    } else {
        c as u32
    }
}

impl CalcError {
    /// The text a cell displays for this error.
    pub fn as_str(self) -> (s: &'static str)
        ensures
            s@ == display_text(self),
    {
        match self {
            CalcError::Null => "#NULL!",
            CalcError::Div0 => "#DIV/0!",
            CalcError::Value => "#VALUE!",
            CalcError::Ref => "#REF!",
            CalcError::Name => "#NAME?",
            CalcError::Num => "#NUM!",
            CalcError::NotAvailable => "#N/A",
            CalcError::Spill => "#SPILL!",
            CalcError::Calc => "#CALC!",
        }
    }

    /// Recognise an error written out in a formula, such as `#DIV/0!`.
    pub fn from_display(text: &str) -> (r: Option<Self>)
        ensures
            r == error_named(text@),
    {
        let t = chars_of(text);
        let all: [CalcError; 9] = [
            CalcError::Null,
            CalcError::Div0,
            CalcError::Value,
            CalcError::Ref,
            CalcError::Name,
            CalcError::Num,
            CalcError::NotAvailable,
            CalcError::Spill,
            CalcError::Calc,
        ];
        let mut i: usize = 0;
        while i < 9
            invariant
                i <= 9,
                t@ == text@,
                all@ == seq![
                    CalcError::Null,
                    CalcError::Div0,
                    CalcError::Value,
                    CalcError::Ref,
                    CalcError::Name,
                    CalcError::Num,
                    CalcError::NotAvailable,
                    CalcError::Spill,
                    CalcError::Calc,
                ],
                forall|j: int|
                    0 <= j < i ==> !same_ignoring_ascii_case(display_text(#[trigger] all@[j]), t@),
            decreases 9 - i,
        {
            let e = all[i];
            let spelled = chars_of(e.as_str());
            if chars_equal_ignoring_ascii_case(&spelled, &t) {
                return Some(e);
            }
            i = i + 1;
        }
        None
    }

    /// The ordinal `ERROR.TYPE` reports, or `None` for errors it does not cover.
    pub fn error_type(self) -> (r: Option<u8>)
        ensures
            r == Some(error_ordinal(self)),
    {
        match self {
            CalcError::Null => Some(1),
            CalcError::Div0 => Some(2),
            CalcError::Value => Some(3),
            CalcError::Ref => Some(4),
            CalcError::Name => Some(5),
            CalcError::Num => Some(6),
            CalcError::NotAvailable => Some(7),
            CalcError::Spill => Some(9),
            CalcError::Calc => Some(14),
        }
    }
}

/// Every error reads back from the text it displays.
pub proof fn lemma_error_display_round_trip(e: CalcError)
    ensures
        error_named(display_text(e)) == Some(e),
{
    reveal_strlit("#NULL!");
    reveal_strlit("#DIV/0!");
    reveal_strlit("#VALUE!");
    reveal_strlit("#REF!");
    reveal_strlit("#NAME?");
    reveal_strlit("#NUM!");
    reveal_strlit("#N/A");
    reveal_strlit("#SPILL!");
    reveal_strlit("#CALC!");
    let t = display_text(e);
    assert(same_ignoring_ascii_case(t, t));
    match e {
        CalcError::Null => {},
        CalcError::Div0 => {
            assert(fold_ascii(display_text(CalcError::Null)[1]) != fold_ascii(t[1]));
        },
        CalcError::Value => {
            assert(fold_ascii(display_text(CalcError::Div0)[1]) != fold_ascii(t[1]));
        },
        CalcError::Ref => {
            assert(fold_ascii(display_text(CalcError::Null)[1]) != fold_ascii(t[1]));
        },
        CalcError::Name => {
            assert(fold_ascii(display_text(CalcError::Null)[2]) != fold_ascii(t[2]));
            assert(fold_ascii(display_text(CalcError::Ref)[1]) != fold_ascii(t[1]));
        },
        CalcError::Num => {
            assert(fold_ascii(display_text(CalcError::Ref)[1]) != fold_ascii(t[1]));
        },
        CalcError::NotAvailable => {},
        CalcError::Spill => {
            assert(fold_ascii(display_text(CalcError::Div0)[1]) != fold_ascii(t[1]));
            assert(fold_ascii(display_text(CalcError::Value)[1]) != fold_ascii(t[1]));
        },
        CalcError::Calc => {
            assert(fold_ascii(display_text(CalcError::Null)[1]) != fold_ascii(t[1]));
            assert(fold_ascii(display_text(CalcError::Name)[1]) != fold_ascii(t[1]));
        },
    }
}

// ---------------------------------------------------------------------------
// Comparing text.

/// What Unicode's upper-casing makes of one character: one or more
/// characters, depending only on the character.
pub uninterp spec fn uppercase_of(c: char) -> Seq<char>;

/// The capital for an ASCII small letter, and the character itself for any
/// other ASCII character.
pub open spec fn ascii_upper(c: char) -> char {
    if 97 <= (c as u32) <= 122 {
        (((c as u32) - 32) as u32) as char
    } else {
        c
    }
}

/// `char::to_uppercase`, collected: the characters Unicode's upper-case
/// mapping gives for `c`. The contract names that result, and states what the
/// documentation gives for ASCII: a small letter becomes its capital and any
/// other ASCII character stays as it is.
#[verifier::external_body]
pub(crate) fn uppercase(c: char) -> (r: Vec<char>)
    ensures
        r@ == uppercase_of(c),
        (c as u32) < 128 ==> r@ == seq![ascii_upper(c)],
{
    c.to_uppercase().collect()
}

/// A text upper-cased one character at a time.
pub open spec fn upper_text(s: Seq<char>) -> Seq<char>
    decreases s.len(),
{
    if s.len() == 0 {
        Seq::empty()
    } else {
        upper_text(s.drop_last()) + uppercase_of(s.last())
    }
}

/// Lexicographic comparison over characters, a shorter prefix first: -1 when
/// `a` sorts first, 1 when `b` does, 0 when they are equal.
pub open spec fn text_sign(a: Seq<char>, b: Seq<char>) -> int
    decreases a.len(),
{
    if a.len() == 0 && b.len() == 0 {
        0
    } else if a.len() == 0 {
        -1
    } else if b.len() == 0 {
        1
    } else if a[0] < b[0] {
        -1
    } else if a[0] > b[0] {
        1
    } else {
        text_sign(a.drop_first(), b.drop_first())
    }
}

/// Lexicographic order over characters, a shorter prefix first.
pub open spec fn lexicographic(a: Seq<char>, b: Seq<char>) -> Ordering {
    let s = text_sign(a, b);
    if s < 0 {
        Ordering::Less
    } else if s == 0 {
        Ordering::Equal
    } else {
        Ordering::Greater
    }
}

fn upper_all(s: &Vec<char>) -> (r: Vec<char>)
    ensures
        r@ == upper_text(s@),
{
    let mut out: Vec<char> = Vec::new();
    let mut i: usize = 0;
    while i < s.len()
        invariant
            i <= s@.len(),
            out@ == upper_text(s@.subrange(0, i as int)),
        decreases s.len() - i,
    {
        let mut up = uppercase(s[i]);
        out.append(&mut up);
        assert(s@.subrange(0, i + 1).drop_last() =~= s@.subrange(0, i as int));
        i = i + 1;
    }
    assert(s@.subrange(0, s@.len() as int) =~= s@);
    out
}

fn sign_of_difference(left: &Vec<char>, right: &Vec<char>) -> (r: i8)
    ensures
        r == text_sign(left@, right@),
{
    let mut i: usize = 0;
    assert(left@.skip(0) =~= left@ && right@.skip(0) =~= right@);
    loop
        invariant
            i <= left@.len(),
            i <= right@.len(),
            text_sign(left@, right@) == text_sign(left@.skip(i as int), right@.skip(i as int)),
        decreases left@.len() - i,
    {
        let ghost l = left@.skip(i as int);
        let ghost r = right@.skip(i as int);
        if i == left.len() && i == right.len() {
            return 0;
        }
        if i == left.len() {
            return -1;
        }
        if i == right.len() {
            return 1;
        }
        assert(l[0] == left@[i as int] && r[0] == right@[i as int]);
        if left[i] < right[i] {
            return -1;
        }
        if left[i] > right[i] {
            return 1;
        }
        assert(l.drop_first() =~= left@.skip(i + 1));
        assert(r.drop_first() =~= right@.skip(i + 1));
        i = i + 1;
    }
}

/// Compare two strings the way a spreadsheet does: case-insensitively.
///
/// Both sides are upper-cased character by character and the results compared
/// in lexicographic order.
pub fn compare_text(a: &str, b: &str) -> (r: Ordering)
    ensures
        r == lexicographic(upper_text(a@), upper_text(b@)),
{
    let left = upper_all(&chars_of(a));
    let right = upper_all(&chars_of(b));
    let sign = sign_of_difference(&left, &right);
    if sign < 0 {
        Ordering::Less
    } else if sign == 0 {
        Ordering::Equal
    } else {
        Ordering::Greater
    }
}

/// A text with every trailing `c` taken off.
pub open spec fn trim_end(s: Seq<char>, c: char) -> Seq<char>
    decreases s.len(),
{
    if s.len() > 0 && s.last() == c {
        trim_end(s.drop_last(), c)
    } else {
        s
    }
}

/// A fixed-point rendering without its trailing zeros, and without the
/// point once nothing follows it. A rendering with no point is left alone.
pub open spec fn without_trailing_zeros(s: Seq<char>) -> Seq<char> {
    if s.contains('.') {
        trim_end(trim_end(s, '0'), '.')
    } else {
        s
    }
}

/// How many characters are left once every trailing `c` is taken off the
/// first `n`.
fn trimmed_len(chars: &Vec<char>, n: usize, c: char) -> (k: usize)
    requires
        n <= chars.len(),
    ensures
        k <= n,
        chars@.take(k as int) == trim_end(chars@.take(n as int), c),
{
    let mut k = n;
    while k > 0 && chars[k - 1] == c
        invariant
            k <= n <= chars.len(),
            trim_end(chars@.take(k as int), c) == trim_end(chars@.take(n as int), c),
        decreases k,
    {
        assert(chars@.take(k as int).drop_last() =~= chars@.take(k - 1));
        k = k - 1;
    }
    assert(trim_end(chars@.take(k as int), c) == chars@.take(k as int)) by {
        if k > 0 {
            assert(chars@.take(k as int).last() == chars@[k - 1]);
        }
    }
    k
}

/// Drop trailing zeros from a fixed-point rendering, and the point with them.
pub fn trim_trailing_zeros(s: &str) -> (r: String)
    ensures
        r@ == without_trailing_zeros(s@),
{
    let chars = chars_of(s);
    let mut has_point = false;
    let mut i: usize = 0;
    while i < chars.len()
        invariant
            i <= chars.len(),
            chars@ == s@,
            has_point <==> exists|j: int| 0 <= j < i && chars@[j] == '.',
        decreases chars.len() - i,
    {
        if chars[i] == '.' {
            has_point = true;
        }
        i = i + 1;
    }
    proof {
        assert(chars@.take(chars@.len() as int) =~= chars@);
        if has_point {
            let j = choose|j: int| 0 <= j < chars@.len() && chars@[j] == '.';
            assert(s@.contains('.')) by {
                assert(s@[j] == '.');
            }
        } else {
            assert(!s@.contains('.'));
        }
    }
    if !has_point {
        return crate::text::string_from(&chars);
    }
    let without_zeros = trimmed_len(&chars, chars.len(), '0');
    let without_point = trimmed_len(&chars, without_zeros, '.');
    let mut out = String::new();
    let mut k: usize = 0;
    while k < without_point
        invariant
            k <= without_point <= chars.len(),
            out@ == chars@.take(k as int),
        decreases without_point - k,
    {
        crate::text::push_char(&mut out, chars[k]);
        k = k + 1;
        assert(out@ =~= chars@.take(k as int));
    }
    out
}

} // verus!
