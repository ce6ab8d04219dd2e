//! The criteria the conditional functions (`COUNTIF`, `SUMIF` and the like)
//! take: an optional comparison written in front of what to compare with.

use std::cmp::Ordering;

use vstd::prelude::*;

use crate::functions::{wildcard_match, wildcard_matches};
use crate::text::{chars_of, string_from};

verus! {

broadcast use vstd::string::group_string_axioms;

/// How a tested value is compared with the criterion's target.
#[derive(Clone, Copy, PartialEq, Eq, Structural, Debug)]
pub enum Comparison {
    Equal,
    NotEqual,
    Less,
    LessOrEqual,
    Greater,
    GreaterOrEqual,
}

/// The comparison a criterion's text starts with and what follows it. The
/// longer operators are tried first, or `>=` would read as `>`; text with no
/// operator in front compares for equality with the whole of it.
pub open spec fn split_spec(t: Seq<char>) -> (Comparison, Seq<char>) {
    if t.len() >= 2 && t[0] == '>' && t[1] == '=' {
        (Comparison::GreaterOrEqual, t.skip(2))
    } else if t.len() >= 2 && t[0] == '<' && t[1] == '=' {
        (Comparison::LessOrEqual, t.skip(2))
    } else if t.len() >= 2 && t[0] == '<' && t[1] == '>' {
        (Comparison::NotEqual, t.skip(2))
    } else if t.len() >= 1 && t[0] == '>' {
        (Comparison::Greater, t.skip(1))
    } else if t.len() >= 1 && t[0] == '<' {
        (Comparison::Less, t.skip(1))
    } else if t.len() >= 1 && t[0] == '=' {
        (Comparison::Equal, t.skip(1))
    } else {
        (Comparison::Equal, t)
    }
}

fn rest_from(chars: &Vec<char>, from: usize) -> (r: String)
    requires
        from <= chars@.len(),
    ensures
        r@ == chars@.skip(from as int),
{
    let mut out: Vec<char> = Vec::new();
    let mut k = from;
    while k < chars.len()
        invariant
            from <= k <= chars@.len(),
            out@ == chars@.subrange(from as int, k as int),
        decreases chars.len() - k,
    {
        out.push(chars[k]);
        k = k + 1;
        assert(out@ =~= chars@.subrange(from as int, k as int));
    }
    assert(chars@.subrange(from as int, chars@.len() as int) =~= chars@.skip(from as int));
    string_from(&out)
}

/// Split a criterion written as text into its comparison and its target.
pub fn split_criterion(text: &str) -> (r: (Comparison, String))
    ensures
        r.0 == split_spec(text@).0,
        r.1@ == split_spec(text@).1,
{
    let chars = chars_of(text);
    let n = chars.len();
    if n >= 2 && chars[0] == '>' && chars[1] == '=' {
        (Comparison::GreaterOrEqual, rest_from(&chars, 2))
    } else if n >= 2 && chars[0] == '<' && chars[1] == '=' {
        (Comparison::LessOrEqual, rest_from(&chars, 2))
    } else if n >= 2 && chars[0] == '<' && chars[1] == '>' {
        (Comparison::NotEqual, rest_from(&chars, 2))
    } else if n >= 1 && chars[0] == '>' {
        (Comparison::Greater, rest_from(&chars, 1))
    } else if n >= 1 && chars[0] == '<' {
        (Comparison::Less, rest_from(&chars, 1))
    } else if n >= 1 && chars[0] == '=' {
        (Comparison::Equal, rest_from(&chars, 1))
    } else {
        assert(chars@.skip(0) =~= chars@);
        (Comparison::Equal, rest_from(&chars, 0))
    }
}

/// Whether a criterion's target is read as a wildcard pattern: only for an
/// equality or inequality test, and only when it holds a `*` or a `?`.
pub open spec fn pattern_spec(comparison: Comparison, rest: Seq<char>) -> bool {
    (comparison == Comparison::Equal || comparison == Comparison::NotEqual) && (rest.contains('*')
        || rest.contains('?'))
}

/// Whether a criterion's target is a wildcard pattern.
pub fn is_pattern(comparison: Comparison, rest: &str) -> (b: bool)
    ensures
        b == pattern_spec(comparison, rest@),
{
    if !(comparison == Comparison::Equal || comparison == Comparison::NotEqual) {
        return false;
    }
    let chars = chars_of(rest);
    let mut k: usize = 0;
    while k < chars.len()
        invariant
            k <= chars@.len(),
            chars@ == rest@,
            comparison == Comparison::Equal || comparison == Comparison::NotEqual,
            forall|m: int| 0 <= m < k ==> chars@[m] != '*' && chars@[m] != '?',
        decreases chars.len() - k,
    {
        if chars[k] == '*' || chars[k] == '?' {
            assert(rest@[k as int] == chars@[k as int]);
            if chars[k] == '*' {
                assert(rest@.contains('*'));
            } else {
                assert(rest@.contains('?'));
            }
            return true;
        }
        k = k + 1;
    }
    false
}

/// Whether an outcome of comparing a value with the target satisfies a
/// comparison.
pub open spec fn satisfies(comparison: Comparison, outcome: Ordering) -> bool {
    match comparison {
        Comparison::Equal => outcome == Ordering::Equal,
        Comparison::NotEqual => outcome != Ordering::Equal,
        Comparison::Less => outcome == Ordering::Less,
        Comparison::LessOrEqual => outcome != Ordering::Greater,
        Comparison::Greater => outcome == Ordering::Greater,
        Comparison::GreaterOrEqual => outcome != Ordering::Less,
    }
}

/// Whether a tested value meets a criterion. With a wildcard pattern, its
/// text must match (or, for `<>`, must not), and a value with no text, an
/// error, meets nothing. Otherwise a blank value is not zero: against
/// anything but a blank target it meets only `<>`. Otherwise the comparison
/// with the target decides, and values that cannot be compared meet nothing.
pub open spec fn holds_spec(
    comparison: Comparison,
    pattern: Option<Seq<char>>,
    text: Option<Seq<char>>,
    value_blank: bool,
    target_blank: bool,
    outcome: Option<Ordering>,
) -> bool {
    match pattern {
        Some(p) => match text {
            None => false,
            Some(t) => if comparison == Comparison::NotEqual {
                !wildcard_match(p, t)
            } else {
                wildcard_match(p, t)
            },
        },
        None => if value_blank && !target_blank {
            comparison == Comparison::NotEqual
        } else {
            match outcome {
                None => false,
                Some(o) => satisfies(comparison, o),
            }
        },
    }
}

/// Whether a tested value meets a criterion, given the criterion's
/// comparison and wildcard pattern, if it has one, and of the value: its
/// text (`None` for an error), whether it and the target are blank, and how
/// it compares with the target (`None` where the two cannot be compared).
pub fn criterion_holds(
    comparison: Comparison,
    pattern: Option<&str>,
    text: Option<&str>,
    value_blank: bool,
    target_blank: bool,
    outcome: Option<Ordering>,
) -> (r: bool)
    ensures
        r == holds_spec(
            comparison,
            match pattern {
                Some(p) => Some(p@),
                None => None,
            },
            match text {
                Some(t) => Some(t@),
                None => None,
            },
            value_blank,
            target_blank,
            outcome,
        ),
{
    match pattern {
        Some(p) => match text {
            None => false,
            Some(t) => {
                let hit = wildcard_matches(p, t);
                match comparison {
                    Comparison::NotEqual => !hit,
                    _ => hit,
                }
            },
        },
        None => {
            if value_blank && !target_blank {
                return match comparison {
                    Comparison::NotEqual => true,
                    _ => false,
                };
            }
            match outcome {
                None => false,
                Some(o) => match comparison {
                    Comparison::Equal => match o {
                        Ordering::Equal => true,
                        _ => false,
                    },
                    Comparison::NotEqual => match o {
                        Ordering::Equal => false,
                        _ => true,
                    },
                    Comparison::Less => match o {
                        Ordering::Less => true,
                        _ => false,
                    },
                    Comparison::LessOrEqual => match o {
                        Ordering::Greater => false,
                        _ => true,
                    },
                    Comparison::Greater => match o {
                        Ordering::Greater => true,
                        _ => false,
                    },
                    Comparison::GreaterOrEqual => match o {
                        Ordering::Less => false,
                        _ => true,
                    },
                },
            }
        },
    }
}

/// Without a wildcard pattern, a value that is not blank (or a blank tested
/// against a blank target) meets a criterion exactly when its comparison
/// with the target comes out the way the operator says: `=` equal, `<>`
/// anything but equal, `<` less, `<=` less or equal, `>` greater, `>=`
/// greater or equal. A value that cannot be compared with the target meets
/// no criterion at all.
pub proof fn lemma_operators_mean_what_they_say(
    text: Option<Seq<char>>,
    value_blank: bool,
    target_blank: bool,
    o: Ordering,
)
    requires
        !value_blank || target_blank,
    ensures
        holds_spec(Comparison::Equal, None, text, value_blank, target_blank, Some(o)) <==> o == Ordering::Equal,
        holds_spec(Comparison::NotEqual, None, text, value_blank, target_blank, Some(o)) <==> o != Ordering::Equal,
        holds_spec(Comparison::Less, None, text, value_blank, target_blank, Some(o)) <==> o == Ordering::Less,
        holds_spec(Comparison::LessOrEqual, None, text, value_blank, target_blank, Some(o)) <==> (o == Ordering::Less
            || o == Ordering::Equal),
        holds_spec(Comparison::Greater, None, text, value_blank, target_blank, Some(o)) <==> o == Ordering::Greater,
        holds_spec(Comparison::GreaterOrEqual, None, text, value_blank, target_blank, Some(o)) <==> (o
            == Ordering::Greater || o == Ordering::Equal),
        forall|c: Comparison| !holds_spec(c, None, text, value_blank, target_blank, None),
{
}

/// A blank value is not zero to a criterion: tested against a target that is
/// not blank it meets `<>` and nothing else, however it compares.
pub proof fn lemma_a_blank_meets_only_not_equal(
    c: Comparison,
    text: Option<Seq<char>>,
    outcome: Option<Ordering>,
)
    ensures
        holds_spec(c, None, text, true, false, outcome) <==> c == Comparison::NotEqual,
{
}

/// With a wildcard pattern, `<>` holds of a value exactly when `=` does not,
/// and a value without text (an error) meets neither.
pub proof fn lemma_a_pattern_splits_values_in_two(
    p: Seq<char>,
    text: Option<Seq<char>>,
    value_blank: bool,
    target_blank: bool,
    outcome: Option<Ordering>,
)
    ensures
        text is Some ==> (holds_spec(Comparison::NotEqual, Some(p), text, value_blank, target_blank, outcome)
            <==> !holds_spec(Comparison::Equal, Some(p), text, value_blank, target_blank, outcome)),
        text is None ==> !holds_spec(Comparison::Equal, Some(p), text, value_blank, target_blank, outcome)
            && !holds_spec(Comparison::NotEqual, Some(p), text, value_blank, target_blank, outcome),
{
}

/// How each comparison is written at the front of a criterion.
pub open spec fn operator_text(c: Comparison) -> Seq<char> {
    match c {
        Comparison::Equal => seq!['='],
        Comparison::NotEqual => seq!['<', '>'],
        Comparison::Less => seq!['<'],
        Comparison::LessOrEqual => seq!['<', '='],
        Comparison::Greater => seq!['>'],
        Comparison::GreaterOrEqual => seq!['>', '='],
    }
}

/// Reading a criterion's operator takes the longest operator written at its
/// front and leaves the rest as the target: the operator's text followed by
/// the target is the criterion again, and no operator that begins the text
/// is longer than what was taken. With no operator at the front, the whole
/// text is the target of an equality test.
pub proof fn lemma_criterion_operator_is_the_longest_prefix(t: Seq<char>)
    ensures
        ({
            let (c, rest) = split_spec(t);
            &&& (t == operator_text(c) + rest || (c == Comparison::Equal && rest == t))
            &&& forall|d: Comparison|
                operator_text(d).len() <= t.len() && #[trigger] t.take(operator_text(d).len() as int)
                    == operator_text(d) ==> operator_text(d).len() <= t.len() - rest.len()
        }),
{
    let (c, rest) = split_spec(t);
    if t.len() >= 2 {
        assert(t =~= seq![t[0], t[1]] + t.skip(2));
    }
    if t.len() >= 1 {
        assert(t =~= seq![t[0]] + t.skip(1));
    }
    assert forall|d: Comparison|
        operator_text(d).len() <= t.len() && #[trigger] t.take(operator_text(d).len() as int) == operator_text(d)
            implies operator_text(d).len() <= t.len() - rest.len() by {
        let o = operator_text(d);
        assert(t.take(o.len() as int)[0] == t[0]);
        if o.len() == 2 {
            assert(t.take(2)[1] == t[1]);
        }
    }
}

} // verus!
