//! The text functions of a formula, on the values they work with.
//!
//! Positions and lengths count **characters**, one-based. Counting by
//! character rather than by encoding unit means an emoji or an accented
//! letter is one position, which is what a person reading the cell expects.
//!
//! Each function here takes its arguments already converted (text as text,
//! counts as whole numbers) and answers with the text or position it makes,
//! or the error a formula shows.

use vstd::prelude::*;
use vstd::utf8::encode_utf8;

use crate::lexer::{alphabetic, is_alphabetic};
use crate::text::{chars_of, push_char, push_chars, push_str, string_from};
use crate::functions::{wildcard_match, wildcard_matches};
use crate::value::{compare_text, text_sign, upper_text, uppercase, uppercase_of, CalcError};

verus! {

broadcast use vstd::string::group_string_axioms;

/// Longest string a cell will hold, in bytes, which caps what `REPT`,
/// `CONCAT` and `TEXTJOIN` may build.
pub const MAX_TEXT_LENGTH: usize = 32_767;

/// The smaller of two integers.
pub open spec fn least(a: int, b: int) -> int {
    if a <= b {
        a
    } else {
        b
    }
}

/// The characters of `s` from `from` up to `to`, both clamped to its length.
fn slice_chars(s: &Vec<char>, from: usize, to: usize) -> (r: Vec<char>)
    requires
        from <= to <= s@.len(),
    ensures
        r@ == s@.subrange(from as int, to as int),
{
    let mut out: Vec<char> = Vec::new();
    let mut k = from;
    while k < to
        invariant
            from <= k <= to <= s@.len(),
            out@ == s@.subrange(from as int, k as int),
        decreases to - k,
    {
        out.push(s[k]);
        k = k + 1;
        assert(out@ =~= s@.subrange(from as int, k as int));
    }
    out
}

/// A count, at most `limit`, as an index.
fn clamped(count: i64, limit: usize) -> (r: usize)
    requires
        count >= 0,
    ensures
        r == least(count as int, limit as int),
{
    if (count as u64 as u128) < (limit as u128) {
        count as usize
    } else {
        limit
    }
}

/// `LEFT`: the first `count` characters, or all of them when there are
/// fewer.
pub open spec fn left_text(s: Seq<char>, count: int) -> Seq<char> {
    s.take(least(count, s.len() as int))
}

/// `LEFT(text, count)`. A negative count is a `#VALUE!`.
pub fn left(text: &str, count: i64) -> (r: Result<String, CalcError>)
    ensures
        count < 0 ==> r == Err::<String, CalcError>(CalcError::Value),
        count >= 0 ==> (r matches Ok(t) && t@ == left_text(text@, count as int)),
{
    if count < 0 {
        return Err(CalcError::Value);
    }
    let chars = chars_of(text);
    let n = clamped(count, chars.len());
    let taken = slice_chars(&chars, 0, n);
    assert(taken@ =~= left_text(text@, count as int));
    Ok(string_from(&taken))
}

/// `RIGHT`: the last `count` characters, or all of them when there are
/// fewer.
pub open spec fn right_text(s: Seq<char>, count: int) -> Seq<char> {
    s.skip(s.len() - least(count, s.len() as int))
}

/// `RIGHT(text, count)`. A negative count is a `#VALUE!`.
pub fn right(text: &str, count: i64) -> (r: Result<String, CalcError>)
    ensures
        count < 0 ==> r == Err::<String, CalcError>(CalcError::Value),
        count >= 0 ==> (r matches Ok(t) && t@ == right_text(text@, count as int)),
{
    if count < 0 {
        return Err(CalcError::Value);
    }
    let chars = chars_of(text);
    let n = clamped(count, chars.len());
    let taken = slice_chars(&chars, chars.len() - n, chars.len());
    assert(taken@ =~= right_text(text@, count as int));
    Ok(string_from(&taken))
}

/// `MID`: up to `count` characters starting at the one-based `start`.
pub open spec fn mid_text(s: Seq<char>, start: int, count: int) -> Seq<char> {
    let from = least(start - 1, s.len() as int);
    s.subrange(from, least(from + count, s.len() as int))
}

/// `MID(text, start, count)`, with `start` counting from one. A start
/// before the first character or a negative count is a `#VALUE!`.
pub fn mid(text: &str, start: i64, count: i64) -> (r: Result<String, CalcError>)
    ensures
        (start < 1 || count < 0) ==> r == Err::<String, CalcError>(CalcError::Value),
        (start >= 1 && count >= 0) ==> (r matches Ok(t) && t@ == mid_text(text@, start as int, count as int)),
{
    if start < 1 || count < 0 {
        return Err(CalcError::Value);
    }
    let chars = chars_of(text);
    let from = clamped(start - 1, chars.len());
    let to = from + clamped(count, chars.len() - from);
    let taken = slice_chars(&chars, from, to);
    Ok(string_from(&taken))
}

/// `REPLACE`: the characters from the one-based `start`, `count` of them,
/// give way to `new`.
pub open spec fn replace_text(s: Seq<char>, start: int, count: int, new: Seq<char>) -> Seq<char> {
    let from = least(start - 1, s.len() as int);
    let to = least(from + count, s.len() as int);
    s.take(from) + new + s.skip(to)
}

/// `REPLACE(text, start, count, new)`, by character position. A start
/// before the first character or a negative count is a `#VALUE!`.
pub fn replace(text: &str, start: i64, count: i64, new: &str) -> (r: Result<String, CalcError>)
    ensures
        (start < 1 || count < 0) ==> r == Err::<String, CalcError>(CalcError::Value),
        (start >= 1 && count >= 0) ==> (r matches Ok(t) && t@ == replace_text(
            text@,
            start as int,
            count as int,
            new@,
        )),
{
    if start < 1 || count < 0 {
        return Err(CalcError::Value);
    }
    let chars = chars_of(text);
    let from = clamped(start - 1, chars.len());
    let to = from + clamped(count, chars.len() - from);
    let head = slice_chars(&chars, 0, from);
    let tail = slice_chars(&chars, to, chars.len());
    let mut out = string_from(&head);
    let added = chars_of(new);
    push_chars(&mut out, &added);
    push_chars(&mut out, &tail);
    assert(out@ =~= replace_text(text@, start as int, count as int, new@));
    Ok(out)
}

/// A text written out `n` times.
pub open spec fn repeated(s: Seq<char>, n: nat) -> Seq<char>
    decreases n,
{
    if n == 0 {
        Seq::empty()
    } else {
        repeated(s, (n - 1) as nat) + s
    }
}

/// `REPT(text, count)`: the text `count` times over. A negative count is a
/// `#VALUE!`, and so is a result of more than [`MAX_TEXT_LENGTH`]
/// characters, which is refused before anything is built.
pub fn rept(text: &str, count: i64) -> (r: Result<String, CalcError>)
    ensures
        count < 0 ==> r == Err::<String, CalcError>(CalcError::Value),
        count >= 0 && text@.len() * count > MAX_TEXT_LENGTH ==> r == Err::<String, CalcError>(
            CalcError::Value,
        ),
        count >= 0 && text@.len() * count <= MAX_TEXT_LENGTH ==> (r matches Ok(t) && t@ == repeated(
            text@,
            count as nat,
        )),
{
    if count < 0 {
        return Err(CalcError::Value);
    }
    let chars = chars_of(text);
    let n = chars.len();
    if n == 0 {
        proof {
            lemma_repeat_nothing(text@, count as nat);
        }
        return Ok(String::new());
    }
    if count > (MAX_TEXT_LENGTH as i64) {
        assert(n * count >= count) by (nonlinear_arith)
            requires
                n >= 1,
                count >= 0,
        ;
        return Err(CalcError::Value);
    }
    assert((n as int) * (count as int) <= 0xFFFF_FFFF_FFFF_FFFFint * 32767) by (nonlinear_arith)
        requires
            n <= 0xFFFF_FFFF_FFFF_FFFFint,
            0 <= count <= 32767,
    ;
    if (n as u128) * (count as u128) > (MAX_TEXT_LENGTH as u128) {
        return Err(CalcError::Value);
    }
    let mut out = String::new();
    let mut k: i64 = 0;
    while k < count
        invariant
            0 <= k <= count,
            chars@ == text@,
            out@ == repeated(text@, k as nat),
        decreases count - k,
    {
        push_chars(&mut out, &chars);
        k = k + 1;
    }
    Ok(out)
}

proof fn lemma_repeat_nothing(s: Seq<char>, n: nat)
    requires
        s.len() == 0,
    ensures
        repeated(s, n) == Seq::<char>::empty(),
    decreases n,
{
    if n > 0 {
        lemma_repeat_nothing(s, (n - 1) as nat);
        assert(repeated(s, n) =~= Seq::<char>::empty());
    }
}

/// `CODE(text)`: the code point of the first character. Empty text is a
/// `#VALUE!`.
pub fn code(text: &str) -> (r: Result<u32, CalcError>)
    ensures
        text@.len() == 0 ==> r == Err::<u32, CalcError>(CalcError::Value),
        text@.len() > 0 ==> r == Ok::<u32, CalcError>(text@[0] as u32),
{
    let chars = chars_of(text);
    if chars.len() == 0 {
        return Err(CalcError::Value);
    }
    Ok(chars[0] as u32)
}

/// Whether a number is the code of a character: at most `0x10FFFF`, and not
/// one of the surrogates.
pub open spec fn is_char_code(v: int) -> bool {
    0 <= v <= 0x10FFFF && !(0xD800 <= v <= 0xDFFF)
}

/// `char::from_u32`: the character with this code, when there is one. Its
/// documentation says there is exactly for the codes up to `0x10FFFF` that
/// are not surrogates, and the character returned has that code.
#[verifier::external_body]
fn char_from_code(v: u32) -> (r: Option<char>)
    ensures
        r is Some <==> is_char_code(v as int),
        r matches Some(c) ==> c as u32 == v,
{
    char::from_u32(v)
}

/// `CHAR(code)`: the character with that code. A code that names no
/// character is a `#VALUE!`.
pub fn char_of(code: i64) -> (r: Result<String, CalcError>)
    ensures
        !is_char_code(code as int) ==> r == Err::<String, CalcError>(CalcError::Value),
        is_char_code(code as int) ==> (r matches Ok(t) && t@.len() == 1 && t@[0] as u32 == code),
{
    if code < 0 || code > 0xFFFF_FFFF {
        return Err(CalcError::Value);
    }
    match char_from_code(code as u32) {
        Some(c) => {
            let mut out = String::new();
            push_char(&mut out, c);
            Ok(out)
        },
        None => Err(CalcError::Value),
    }
}

/// What Unicode's lower-casing makes of one character: one or more
/// characters, depending only on the character.
pub uninterp spec fn lowercase_of(c: char) -> Seq<char>;

/// The small letter for an ASCII capital, and the character itself for any
/// other ASCII character.
pub open spec fn ascii_lower(c: char) -> char {
    if 65 <= (c as u32) <= 90 {
        (((c as u32) + 32) as u32) as char
    } else {
        c
    }
}

/// `char::to_lowercase`, collected: the characters Unicode's lower-case
/// mapping gives for `c`. The contract names that result, and states what the
/// documentation gives for ASCII: a capital becomes its small letter and any
/// other ASCII character stays as it is.
#[verifier::external_body]
fn lowercase(c: char) -> (r: Vec<char>)
    ensures
        r@ == lowercase_of(c),
        (c as u32) < 128 ==> r@ == seq![ascii_lower(c)],
{
    c.to_lowercase().collect()
}

/// `PROPER` from some point on: the first letter of every word capitalised
/// and the rest lowered, where a word starts after anything that is not a
/// letter. `starting` says whether the text begins a word.
pub open spec fn proper_from(s: Seq<char>, starting: bool) -> Seq<char>
    decreases s.len(),
{
    if s.len() == 0 {
        Seq::empty()
    } else {
        (if starting {
            uppercase_of(s[0])
        } else {
            lowercase_of(s[0])
        }) + proper_from(s.drop_first(), !alphabetic(s[0]))
    }
}

/// `PROPER(text)`: capitalise the first letter of every word, lowering the
/// rest.
///
/// A word starts after anything that is not a letter, so `o'neill` becomes
/// `O'Neill` and `3rd` stays `3Rd`, which is what a spreadsheet does.
pub fn proper(text: &str) -> (r: String)
    ensures
        r@ == proper_from(text@, true),
{
    let chars = chars_of(text);
    let mut out = String::new();
    let mut starting = true;
    let mut i: usize = 0;
    assert(text@.skip(0) =~= text@);
    assert(out@ + proper_from(text@, true) =~= proper_from(text@, true));
    while i < chars.len()
        invariant
            i <= chars@.len(),
            chars@ == text@,
            proper_from(text@, true) == out@ + proper_from(text@.skip(i as int), starting),
        decreases chars.len() - i,
    {
        let c = chars[i];
        let mapped = if starting {
            uppercase(c)
        } else {
            lowercase(c)
        };
        proof {
            let rest = text@.skip(i as int);
            assert(rest[0] == c);
            assert(rest.drop_first() =~= text@.skip(i + 1));
            assert(out@ + (mapped@ + proper_from(text@.skip(i + 1), !alphabetic(c))) =~= (out@
                + mapped@) + proper_from(text@.skip(i + 1), !alphabetic(c)));
        }
        push_chars(&mut out, &mapped);
        starting = !is_alphabetic(c);
        i = i + 1;
    }
    assert(text@.skip(chars@.len() as int) =~= Seq::<char>::empty());
    assert(out@ + Seq::<char>::empty() =~= out@);
    out
}

/// `TRIM` from some point on: words are runs of anything but a space, and
/// each is written with one space before it unless it is the first.
/// `gap` says whether a space has been passed since the last word, and
/// `any` whether a word has been written yet.
pub open spec fn squeezed(s: Seq<char>, gap: bool, any: bool) -> Seq<char>
    decreases s.len(),
{
    if s.len() == 0 {
        Seq::empty()
    } else if s[0] == ' ' {
        squeezed(s.drop_first(), true, any)
    } else {
        (if gap && any {
            seq![' ']
        } else {
            Seq::empty()
        }) + seq![s[0]] + squeezed(s.drop_first(), false, true)
    }
}

/// `TRIM(text)`: strip the spaces at the ends and collapse every run of
/// them inside to one. Only the space itself counts, not other blanks.
pub fn trim(text: &str) -> (r: String)
    ensures
        r@ == squeezed(text@, false, false),
{
    let chars = chars_of(text);
    let mut out = String::new();
    let mut gap = false;
    let mut any = false;
    let mut i: usize = 0;
    assert(text@.skip(0) =~= text@);
    assert(out@ + squeezed(text@, false, false) =~= squeezed(text@, false, false));
    while i < chars.len()
        invariant
            i <= chars@.len(),
            chars@ == text@,
            squeezed(text@, false, false) == out@ + squeezed(text@.skip(i as int), gap, any),
        decreases chars.len() - i,
    {
        let c = chars[i];
        let ghost rest = text@.skip(i as int);
        proof {
            assert(rest[0] == c);
            assert(rest.drop_first() =~= text@.skip(i + 1));
        }
        if c == ' ' {
            gap = true;
        } else {
            let ghost before = out@;
            let ghost piece = (if gap && any {
                seq![' ']
            } else {
                Seq::empty()
            }) + seq![c];
            if gap && any {
                push_char(&mut out, ' ');
            }
            push_char(&mut out, c);
            assert(out@ =~= before + piece);
            assert(before + (piece + squeezed(text@.skip(i + 1), false, true)) =~= out@ + squeezed(
                text@.skip(i + 1),
                false,
                true,
            ));
            gap = false;
            any = true;
        }
        i = i + 1;
    }
    assert(text@.skip(chars@.len() as int) =~= Seq::<char>::empty());
    assert(out@ + Seq::<char>::empty() =~= out@);
    out
}

/// Whether `old` occurs in `s` starting at `i`.
pub open spec fn occurs_at(s: Seq<char>, old: Seq<char>, i: int) -> bool {
    0 <= i && i + old.len() <= s.len() && s.subrange(i, i + old.len()) == old
}

/// `SUBSTITUTE` from some point on: each occurrence of `old`, found left to
/// right without overlapping, becomes `new` when it is the `wanted`-th (or
/// always, when `wanted` is zero) and stays as it is otherwise. `seen` counts
/// the occurrences already passed.
pub open spec fn substituted(s: Seq<char>, old: Seq<char>, new: Seq<char>, wanted: int, seen: int) -> Seq<char>
    decreases s.len(),
{
    if old.len() == 0 || s.len() == 0 {
        s
    } else if occurs_at(s, old, 0) {
        (if wanted == 0 || seen + 1 == wanted {
            new
        } else {
            old
        }) + substituted(s.skip(old.len() as int), old, new, wanted, seen + 1)
    } else {
        seq![s[0]] + substituted(s.drop_first(), old, new, wanted, seen)
    }
}

fn occurs(s: &Vec<char>, old: &Vec<char>, i: usize) -> (b: bool)
    requires
        i <= s@.len(),
    ensures
        b == occurs_at(s@, old@, i as int),
{
    let n = s.len();
    if old.len() > n - i {
        return false;
    }
    let mut k: usize = 0;
    while k < old.len()
        invariant
            n == s@.len(),
            i + old@.len() <= n,
            k <= old@.len(),
            forall|m: int| 0 <= m < k ==> s@[i + m] == old@[m],
        decreases old.len() - k,
    {
        if s[i + k] != old[k] {
            assert(s@.subrange(i as int, i + old@.len())[k as int] != old@[k as int]);
            return false;
        }
        k = k + 1;
    }
    assert(s@.subrange(i as int, i + old@.len()) =~= old@);
    true
}

/// `SUBSTITUTE(text, old, new, [instance])`, case-sensitive.
///
/// Without `instance` every occurrence is replaced; with it, only the nth,
/// and an `instance` below one is a `#VALUE!`. An empty `old` leaves the
/// text as it is.
pub fn substitute(text: &str, old: &str, new: &str, instance: Option<i64>) -> (r: Result<String, CalcError>)
    ensures
        old@.len() == 0 ==> (r matches Ok(t) && t@ == text@),
        old@.len() > 0 ==> (match instance {
            None => r matches Ok(t) && t@ == substituted(text@, old@, new@, 0, 0),
            Some(w) => if w < 1 {
                r == Err::<String, CalcError>(CalcError::Value)
            } else {
                r matches Ok(t) && t@ == substituted(text@, old@, new@, w as int, 0)
            },
        }),
{
    let old_chars = chars_of(old);
    if old_chars.len() == 0 {
        return Ok(string_from(&chars_of(text)));
    }
    let wanted: i64 = match instance {
        None => 0,
        Some(w) => {
            if w < 1 {
                return Err(CalcError::Value);
            }
            w
        },
    };
    let chars = chars_of(text);
    let new_chars = chars_of(new);
    let mut out = String::new();
    let mut seen: usize = 0;
    let mut i: usize = 0;
    assert(text@.skip(0) =~= text@);
    assert(out@ + substituted(text@, old@, new@, wanted as int, 0) =~= substituted(
        text@,
        old@,
        new@,
        wanted as int,
        0,
    ));
    while i < chars.len()
        invariant
            i <= chars@.len(),
            seen <= i,
            chars@ == text@,
            old_chars@ == old@,
            new_chars@ == new@,
            old@.len() > 0,
            substituted(text@, old@, new@, wanted as int, 0) == out@ + substituted(
                text@.skip(i as int),
                old@,
                new@,
                wanted as int,
                seen as int,
            ),
        decreases chars.len() - i,
    {
        let ghost rest = text@.skip(i as int);
        let ghost before = out@;
        let here = occurs(&chars, &old_chars, i);
        proof {
            if i + old@.len() <= text@.len() {
                assert(rest.subrange(0, old@.len() as int) =~= text@.subrange(i as int, i + old@.len()));
            }
            assert(here == occurs_at(rest, old@, 0));
        }
        if here {
            let chosen = wanted == 0 || (seen as i128) + 1 == (wanted as i128);
            if chosen {
                push_chars(&mut out, &new_chars);
            } else {
                push_chars(&mut out, &old_chars);
            }
            proof {
                assert(rest.skip(old@.len() as int) =~= text@.skip(i + old@.len()));
                let piece = if wanted == 0 || seen + 1 == wanted {
                    new@
                } else {
                    old@
                };
                assert(before + (piece + substituted(
                    text@.skip(i + old@.len()),
                    old@,
                    new@,
                    wanted as int,
                    seen + 1,
                )) =~= out@ + substituted(
                    text@.skip(i + old@.len()),
                    old@,
                    new@,
                    wanted as int,
                    seen + 1,
                ));
            }
            i = i + old_chars.len();
            seen = seen + 1;
        } else {
            push_char(&mut out, chars[i]);
            proof {
                assert(rest[0] == chars@[i as int]);
                assert(rest.drop_first() =~= text@.skip(i + 1));
                assert(before + (seq![rest[0]] + substituted(
                    text@.skip(i + 1),
                    old@,
                    new@,
                    wanted as int,
                    seen as int,
                )) =~= out@ + substituted(
                    text@.skip(i + 1),
                    old@,
                    new@,
                    wanted as int,
                    seen as int,
                ));
            }
            i = i + 1;
        }
    }
    assert(text@.skip(chars@.len() as int) =~= Seq::<char>::empty());
    assert(out@ + Seq::<char>::empty() =~= out@);
    Ok(out)
}

/// Whether the needle is found at `at` in the haystack: exactly, or, when
/// `loose`, ignoring case as a spreadsheet compares text.
pub open spec fn hit(haystack: Seq<char>, needle: Seq<char>, at: int, loose: bool) -> bool {
    let window = haystack.subrange(at, at + needle.len());
    if loose {
        upper_text(window) == upper_text(needle)
    } else {
        window == needle
    }
}

/// The first position from `at` to `last`, inclusive, where the needle is
/// found.
pub open spec fn first_hit(haystack: Seq<char>, needle: Seq<char>, at: int, last: int, loose: bool) -> Option<int>
    decreases last - at + 1,
{
    if at > last {
        None
    } else if hit(haystack, needle, at, loose) {
        Some(at)
    } else {
        first_hit(haystack, needle, at + 1, last, loose)
    }
}

/// Whether some stretch of the haystack starting at `at` matches the needle
/// read as a wildcard pattern.
pub open spec fn wild_at(haystack: Seq<char>, needle: Seq<char>, at: int) -> bool {
    exists|end: int| at <= end <= haystack.len() && #[trigger] wildcard_match(needle, haystack.subrange(at, end))
}

/// The first position from `at` on where a stretch matches the pattern.
pub open spec fn first_wild(haystack: Seq<char>, needle: Seq<char>, at: int) -> Option<int>
    decreases haystack.len() - at,
{
    if at >= haystack.len() {
        None
    } else if wild_at(haystack, needle, at) {
        Some(at)
    } else {
        first_wild(haystack, needle, at + 1)
    }
}

/// Where `FIND` (`loose` false) or `SEARCH` (`loose` true) finds the needle,
/// counting from one, or the `#VALUE!` they show.
pub open spec fn located(needle: Seq<char>, haystack: Seq<char>, start: int, loose: bool) -> Result<int, CalcError> {
    if start < 1 || start > haystack.len() + 1 {
        Err(CalcError::Value)
    } else if needle.len() == 0 {
        Ok(start)
    } else {
        let last = if haystack.len() >= needle.len() {
            haystack.len() - needle.len()
        } else {
            0
        };
        match first_hit(haystack, needle, start - 1, last, loose) {
            Some(at) => Ok(at + 1),
            None => if loose && (needle.contains('*') || needle.contains('?')) {
                match first_wild(haystack, needle, start - 1) {
                    Some(at) => Ok(at + 1),
                    None => Err(CalcError::Value),
                }
            } else {
                Err(CalcError::Value)
            },
        }
    }
}

proof fn lemma_same_sign_zero(a: Seq<char>, b: Seq<char>)
    ensures
        text_sign(a, b) == 0 <==> a == b,
    decreases a.len(),
{
    if a.len() > 0 && b.len() > 0 {
        if a[0] == b[0] {
            lemma_same_sign_zero(a.drop_first(), b.drop_first());
            if a.drop_first() == b.drop_first() {
                assert(a =~= seq![a[0]] + a.drop_first());
                assert(b =~= seq![b[0]] + b.drop_first());
            }
            if a == b {
                assert(a.drop_first() =~= b.drop_first());
            }
        } else {
            vstd::utf8::char_u32_cast(a[0], a[0] as u32);
            vstd::utf8::char_u32_cast(b[0], b[0] as u32);
            assert(a[0] < b[0] || a[0] > b[0]);
        }
    } else if a.len() == 0 && b.len() == 0 {
        assert(a =~= b);
    }
}

/// Whether two texts compare equal the way a spreadsheet compares text.
fn equal_ignoring_case(a: &str, b: &str) -> (r: bool)
    ensures
        r == (upper_text(a@) == upper_text(b@)),
{
    proof {
        lemma_same_sign_zero(upper_text(a@), upper_text(b@));
    }
    match compare_text(a, b) {
        core::cmp::Ordering::Equal => true,
        core::cmp::Ordering::Less => false,
        core::cmp::Ordering::Greater => false,
    }
}

fn window_of(s: &Vec<char>, from: usize, to: usize) -> (r: String)
    requires
        from <= to <= s@.len(),
    ensures
        r@ == s@.subrange(from as int, to as int),
{
    let taken = slice_chars(s, from, to);
    string_from(&taken)
}

fn has_wildcard(s: &Vec<char>) -> (b: bool)
    ensures
        b == (s@.contains('*') || s@.contains('?')),
{
    let mut k: usize = 0;
    while k < s.len()
        invariant
            k <= s@.len(),
            forall|m: int| 0 <= m < k ==> s@[m] != '*' && s@[m] != '?',
        decreases s.len() - k,
    {
        if s[k] == '*' || s[k] == '?' {
            assert(s@.contains(s@[k as int]));
            return true;
        }
        k = k + 1;
    }
    false
}

/// `FIND(needle, haystack, start)` when `loose` is false: case-sensitive,
/// no wildcards; `SEARCH` when it is true: case-insensitive, and wildcards
/// allowed. `start` counts from one; the answer is the position of the first
/// find at or after it, counting from one.
///
/// An empty needle is found where the search began. A start outside the
/// text, or a needle not found, is a `#VALUE!`.
pub fn locate(needle: &str, haystack: &str, start: i64, loose: bool) -> (r: Result<usize, CalcError>)
    requires
        !(start == 1 && needle@.len() > haystack@.len()),
    ensures
        match located(needle@, haystack@, start as int, loose) {
            Ok(at) => r == Ok::<usize, CalcError>(at as usize),
            Err(e) => r == Err::<usize, CalcError>(e),
        },
{
    let characters = chars_of(haystack);
    let needle_chars = chars_of(needle);
    let len = characters.len();
    if start < 1 || (start as u64 as u128) > (len as u128) + 1 {
        return Err(CalcError::Value);
    }
    let from = (start - 1) as usize;
    if needle_chars.len() == 0 {
        return Ok(start as usize);
    }
    let n = needle_chars.len();
    let last = if len >= n {
        len - n
    } else {
        0
    };
    let mut at = from;
    while at <= last
        invariant
            from <= at,
            characters@ == haystack@,
            needle_chars@ == needle@,
            n == needle@.len() > 0,
            len == haystack@.len(),
            last == (if len >= n { len - n } else { 0 }),
            from == start - 1,
            !(start == 1 && n > len),
            first_hit(haystack@, needle@, from as int, last as int, loose) == first_hit(
                haystack@,
                needle@,
                at as int,
                last as int,
                loose,
            ),
        decreases last + 1 - at,
    {
        let window = window_of(&characters, at, at + n);
        let found = if loose {
            equal_ignoring_case(window.as_str(), needle)
        } else {
            let w = chars_of(window.as_str());
            same(&w, &needle_chars)
        };
        if found {
            assert(hit(haystack@, needle@, at as int, loose));
            return Ok(at + 1);
        }
        assert(!hit(haystack@, needle@, at as int, loose));
        at = at + 1;
    }
    assert(first_hit(haystack@, needle@, from as int, last as int, loose) is None);
    if loose && has_wildcard(&needle_chars) {
        let mut at = from;
        while at < len
            invariant
                from <= at,
                from == start - 1,
                1 <= start <= len + 1,
                characters@ == haystack@,
                len == haystack@.len(),
                needle@.len() > 0,
                loose && (needle@.contains('*') || needle@.contains('?')),
                first_hit(haystack@, needle@, from as int, last as int, loose) is None,
                last == (if len >= needle@.len() { len - needle@.len() } else { 0 }),
                first_wild(haystack@, needle@, from as int) == first_wild(haystack@, needle@, at as int),
            decreases len - at,
        {
            let mut end = at;
            let mut done = false;
            while !done
                invariant
                    at <= end <= len,
                    at < len,
                    characters@ == haystack@,
                    len == haystack@.len(),
                    from <= at,
                    from == start - 1,
                    1 <= start <= len + 1,
                    needle@.len() > 0,
                    loose && (needle@.contains('*') || needle@.contains('?')),
                    first_hit(haystack@, needle@, from as int, last as int, loose) is None,
                    last == (if len >= needle@.len() { len - needle@.len() } else { 0 }),
                    first_wild(haystack@, needle@, from as int) == first_wild(haystack@, needle@, at as int),
                    forall|e: int| at <= e < end ==> !#[trigger] wildcard_match(needle@, haystack@.subrange(at as int, e)),
                    done ==> end == len && !wildcard_match(needle@, haystack@.subrange(at as int, len as int)),
                decreases len - end + (if done { 0int } else { 1int }),
            {
                let window = window_of(&characters, at, end);
                if wildcard_matches(needle, window.as_str()) {
                    assert(wild_at(haystack@, needle@, at as int));
                    return Ok(at + 1);
                }
                if end == len {
                    done = true;
                } else {
                    end = end + 1;
                }
            }
            assert(!wild_at(haystack@, needle@, at as int)) by {
                assert forall|e: int| at <= e <= haystack@.len() implies !#[trigger] wildcard_match(
                    needle@,
                    haystack@.subrange(at as int, e),
                ) by {
                    if e == len {
                    }
                }
            }
            at = at + 1;
        }
        return Err(CalcError::Value);
    }
    Err(CalcError::Value)
}

fn same(a: &Vec<char>, b: &Vec<char>) -> (r: bool)
    ensures
        r == (a@ == b@),
{
    if a.len() != b.len() {
        return false;
    }
    let mut k: usize = 0;
    while k < a.len()
        invariant
            a@.len() == b@.len(),
            k <= a@.len(),
            forall|m: int| 0 <= m < k ==> a@[m] == b@[m],
        decreases a.len() - k,
    {
        if a[k] != b[k] {
            return false;
        }
        k = k + 1;
    }
    assert(a@ =~= b@);
    true
}

/// How many bytes a text takes.
pub open spec fn byte_count(s: Seq<char>) -> nat {
    encode_utf8(s).len()
}

/// The bytes of two texts side by side are the bytes of each.
pub proof fn lemma_bytes_of_join(a: Seq<char>, b: Seq<char>)
    ensures
        encode_utf8(a + b) == encode_utf8(a) + encode_utf8(b),
    decreases a.len(),
{
    if a.len() == 0 {
        assert(a + b =~= b);
        assert(encode_utf8(a) =~= Seq::<u8>::empty());
        assert(Seq::<u8>::empty() + encode_utf8(b) =~= encode_utf8(b));
    } else {
        lemma_bytes_of_join(a.drop_first(), b);
        assert((a + b).drop_first() =~= a.drop_first() + b);
        assert((a + b)[0] == a[0]);
        assert(encode_utf8(a + b) =~= encode_utf8(a) + encode_utf8(b));
    }
}

/// The bytes a string slice takes.
fn bytes_in(s: &str) -> (n: usize)
    ensures
        n == byte_count(s@),
{
    let b = s.as_bytes();
    b.len()
}

/// `CONCAT` from some point on, with `so_far` already joined: each part
/// is appended in turn; the first that is an error is the answer, and so is a
/// `#VALUE!` as soon as the text passes [`MAX_TEXT_LENGTH`] bytes.
pub open spec fn concatenated(parts: Seq<Result<String, CalcError>>, so_far: Seq<char>) -> Result<Seq<char>, CalcError>
    decreases parts.len(),
{
    if parts.len() == 0 {
        Ok(so_far)
    } else {
        match parts[0] {
            Err(e) => Err(e),
            Ok(t) => {
                let next = so_far + t@;
                if byte_count(next) > MAX_TEXT_LENGTH {
                    Err(CalcError::Value)
                } else {
                    concatenated(parts.drop_first(), next)
                }
            },
        }
    }
}

/// `CONCAT(...)`: join every value's text, ranges included, in order. The
/// parts are the values already read as text, or the error reading one gave.
pub fn concat(parts: &[Result<String, CalcError>]) -> (r: Result<String, CalcError>)
    ensures
        match concatenated(parts@, Seq::empty()) {
            Ok(t) => r matches Ok(s) && s@ == t,
            Err(e) => r == Err::<String, CalcError>(e),
        },
{
    let mut out = String::new();
    let mut bytes: usize = 0;
    let mut i: usize = 0;
    assert(parts@.skip(0) =~= parts@);
    while i < parts.len()
        invariant
            i <= parts@.len(),
            bytes == byte_count(out@),
            bytes <= MAX_TEXT_LENGTH,
            concatenated(parts@, Seq::empty()) == concatenated(parts@.skip(i as int), out@),
        decreases parts.len() - i,
    {
        let ghost rest = parts@.skip(i as int);
        assert(rest[0] == parts@[i as int]);
        assert(rest.drop_first() =~= parts@.skip(i + 1));
        match &parts[i] {
            Err(e) => {
                return Err(*e);
            },
            Ok(t) => {
                let more = bytes_in(t.as_str());
                proof {
                    lemma_bytes_of_join(out@, t@);
                }
                if more > MAX_TEXT_LENGTH - bytes {
                    return Err(CalcError::Value);
                }
                push_str(&mut out, t.as_str());
                bytes = bytes + more;
            },
        }
        i = i + 1;
    }
    Ok(out)
}

/// Texts joined with a delimiter between each two.
pub open spec fn joined(texts: Seq<Seq<char>>, delimiter: Seq<char>) -> Seq<char>
    decreases texts.len(),
{
    if texts.len() == 0 {
        Seq::empty()
    } else if texts.len() == 1 {
        texts[0]
    } else {
        joined(texts.drop_last(), delimiter) + delimiter + texts.last()
    }
}

/// The texts `TEXTJOIN` keeps, in order: every part's text, leaving out the
/// empty ones when asked to, or the first error among the parts.
pub open spec fn kept_texts(parts: Seq<Result<String, CalcError>>, skip_empty: bool) -> Result<Seq<Seq<char>>, CalcError>
    decreases parts.len(),
{
    if parts.len() == 0 {
        Ok(Seq::empty())
    } else {
        match parts[0] {
            Err(e) => Err(e),
            Ok(t) => match kept_texts(parts.drop_first(), skip_empty) {
                Err(e) => Err(e),
                Ok(rest) => if skip_empty && t@.len() == 0 {
                    Ok(rest)
                } else {
                    Ok(seq![t@] + rest)
                },
            },
        }
    }
}

/// What `TEXTJOIN` makes: the kept texts joined, or a `#VALUE!` when that
/// passes [`MAX_TEXT_LENGTH`] bytes.
pub open spec fn text_joined(delimiter: Seq<char>, skip_empty: bool, parts: Seq<Result<String, CalcError>>) -> Result<Seq<char>, CalcError> {
    match kept_texts(parts, skip_empty) {
        Err(e) => Err(e),
        Ok(texts) => {
            let j = joined(texts, delimiter);
            if byte_count(j) > MAX_TEXT_LENGTH {
                Err(CalcError::Value)
            } else {
                Ok(j)
            }
        },
    }
}

proof fn lemma_first_error(parts: Seq<Result<String, CalcError>>, skip_empty: bool, i: int)
    requires
        0 <= i < parts.len(),
        forall|j: int| 0 <= j < i ==> parts[j] is Ok,
        parts[i] is Err,
    ensures
        kept_texts(parts, skip_empty) == Err::<Seq<Seq<char>>, CalcError>(parts[i]->Err_0),
    decreases i,
{
    if i > 0 {
        assert forall|j: int| 0 <= j < i - 1 implies parts.drop_first()[j] is Ok by {
            assert(parts.drop_first()[j] == parts[j + 1]);
        }
        assert(parts.drop_first()[i - 1] == parts[i]);
        lemma_first_error(parts.drop_first(), skip_empty, i - 1);
        assert(parts[0] is Ok);
    }
}

/// `TEXTJOIN(delimiter, ignore_empty, ...)`: every value's text, in order,
/// with the delimiter between each two, the empty ones left out when asked.
/// The parts are the values already read as text, or the error reading one
/// gave; the first such error is the answer.
pub fn textjoin(delimiter: &str, skip_empty: bool, parts: &[Result<String, CalcError>]) -> (r: Result<String, CalcError>)
    ensures
        match text_joined(delimiter@, skip_empty, parts@) {
            Ok(t) => r matches Ok(s) && s@ == t,
            Err(e) => r == Err::<String, CalcError>(e),
        },
{
    let n = parts.len();
    let mut i: usize = 0;
    while i < n
        invariant
            i <= n == parts@.len(),
            forall|m: int| 0 <= m < i ==> parts@[m] is Ok,
        decreases n - i,
    {
        match &parts[i] {
            Err(e) => {
                proof {
                    lemma_first_error(parts@, skip_empty, i as int);
                }
                return Err(*e);
            },
            Ok(_) => {},
        }
        i = i + 1;
    }
    let mut k: usize = n;
    let mut texts: Vec<String> = Vec::new();
    let ghost mut kept: Seq<Seq<char>> = Seq::empty();
    assert(parts@.skip(n as int) =~= Seq::<Result<String, CalcError>>::empty());
    assert(texts@.map_values(|t: String| t@) =~= kept.reverse());
    while k > 0
        invariant
            k <= n == parts@.len(),
            forall|m: int| 0 <= m < n ==> parts@[m] is Ok,
            kept_texts(parts@.skip(k as int), skip_empty) == Ok::<Seq<Seq<char>>, CalcError>(kept),
            texts@.map_values(|t: String| t@) == kept.reverse(),
        decreases k,
    {
        let ghost rest = parts@.skip(k - 1);
        assert(rest.drop_first() =~= parts@.skip(k as int));
        assert(rest[0] == parts@[k - 1]);
        k = k - 1;
        match &parts[k] {
            Err(_) => {
                assert(false);
                return Err(CalcError::Value);
            },
            Ok(t) => {
                if !(skip_empty && t.as_str().is_empty()) {
                    let owned = string_from(&chars_of(t.as_str()));
                    let ghost before = texts@;
                    texts.push(owned);
                    proof {
                        let old_kept = kept;
                        kept = seq![t@] + kept;
                        assert(kept.reverse() =~= old_kept.reverse().push(t@));
                        assert(texts@.map_values(|t: String| t@) =~= kept.reverse());
                    }
                }
            },
        }
    }
    assert(parts@.skip(0) =~= parts@);
    let mut out = String::new();
    let mut j: usize = texts.len();
    let ghost order = texts@.map_values(|t: String| t@);
    assert(kept.len() == texts@.len()) by {
        assert(kept.reverse().len() == kept.len());
    }
    assert(kept.subrange(0, 0) =~= Seq::<Seq<char>>::empty());
    while j > 0
        invariant
            j <= texts@.len(),
            order == texts@.map_values(|t: String| t@),
            order == kept.reverse(),
            kept.len() == texts@.len(),
            out@ == joined(kept.subrange(0, (texts@.len() - j) as int), delimiter@),
        decreases j,
    {
        let ghost count = texts@.len() - j;
        if j < texts.len() {
            push_str(&mut out, delimiter);
        }
        j = j - 1;
        push_str(&mut out, texts[j].as_str());
        proof {
            let done = kept.subrange(0, count + 1);
            assert(done.drop_last() =~= kept.subrange(0, count as int));
            assert(done.last() == kept[count as int]);
            assert(kept[count as int] == order[j as int]);
            if count == 0 {
                assert(joined(kept.subrange(0, 0), delimiter@) =~= Seq::<char>::empty());
                assert(out@ =~= done[0]);
            }
        }
    }
    assert(kept.subrange(0, kept.len() as int) =~= kept);
    if bytes_in(out.as_str()) > MAX_TEXT_LENGTH {
        return Err(CalcError::Value);
    }
    Ok(out)
}

/// `LEFT` and `RIGHT` split a text: the first `n` characters and the last
/// `len - n` put together give the text back.
pub proof fn lemma_left_and_right_split_a_text(s: Seq<char>, n: int)
    requires
        0 <= n <= s.len(),
    ensures
        left_text(s, n) + right_text(s, s.len() - n) == s,
        left_text(s, n).len() == n,
{
    assert(left_text(s, n) + right_text(s, s.len() - n) =~= s);
}

/// `MID` carries on where `LEFT` stops: the first `start - 1` characters and
/// then `count` from `start` are the first `start - 1 + count`; and `MID`
/// from the first character is `LEFT`.
pub proof fn lemma_mid_continues_left(s: Seq<char>, start: int, count: int)
    requires
        start >= 1,
        count >= 0,
    ensures
        left_text(s, start - 1) + mid_text(s, start, count) == left_text(s, start - 1 + count),
        mid_text(s, 1, count) == left_text(s, count),
{
    assert(left_text(s, start - 1) + mid_text(s, start, count) =~= left_text(s, start - 1 + count));
    assert(mid_text(s, 1, count) =~= left_text(s, count));
}

/// Putting back what `MID` takes out, with `REPLACE` at the same place,
/// gives the text unchanged.
pub proof fn lemma_replace_with_mid_is_identity(s: Seq<char>, start: int, count: int)
    requires
        start >= 1,
        count >= 0,
    ensures
        replace_text(s, start, count, mid_text(s, start, count)) == s,
{
    assert(replace_text(s, start, count, mid_text(s, start, count)) =~= s);
}

/// `REPT` of a text `n` times is `n` times as long, and each copy stands
/// where it should: one more copy is the text so far followed by the text.
pub proof fn lemma_rept_length(s: Seq<char>, n: nat)
    ensures
        repeated(s, n).len() == n * s.len(),
        repeated(s, n + 1) == repeated(s, n) + s,
    decreases n,
{
    if n > 0 {
        lemma_rept_length(s, (n - 1) as nat);
        assert(repeated(s, n).len() == (n - 1) * s.len() + s.len());
        assert((n - 1) * s.len() + s.len() == n * s.len()) by (nonlinear_arith);
    } else {
        assert(repeated(s, 0) =~= Seq::<char>::empty());
        assert(0 * s.len() == 0) by (nonlinear_arith);
    }
}

} // verus!
