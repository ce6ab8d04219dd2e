//! What an author typed into a cell, read as a formula or a value.
//!
//! A leading `=` means a formula; an `=` with nothing after it but white
//! space is the text itself. Everything else is read as the most specific
//! value it can be: nothing, a logical, a written-out error, and otherwise a
//! number when it reads as one and text when it does not. Reading a number
//! is a floating-point matter and is left to the caller.

use vstd::prelude::*;

use crate::ast::Expr;
use crate::lexer::{is_whitespace, whitespace};
use crate::parser::{expr_view, parsable, parse, parse_formula, try_parse, ParseError};
use crate::text::chars_of;
use crate::value::{chars_equal_ignoring_ascii_case, error_named, same_ignoring_ascii_case, CalcError};

verus! {

broadcast use vstd::string::group_string_axioms;

/// A typed value that is not a formula, as far as it can be read without
/// reading a number.
#[derive(Clone, Copy, PartialEq, Eq, Structural, Debug)]
pub enum Typed {
    /// Nothing was typed.
    Blank,
    Logical(bool),
    Error(CalcError),
    /// Text, whatever it looks like.
    Text,
    /// A number if it reads as one, and text if it does not.
    NumberOrText,
}

/// What the author put in a cell.
pub enum Input {
    /// A value typed directly.
    Literal(Typed),
    /// A formula, kept as typed and as the tree it parsed to.
    Formula { text: String, expr: Expr },
    /// A formula that does not parse, kept as typed so the author can fix it.
    Malformed { text: String, error: ParseError },
}

/// Every character is white space.
pub open spec fn all_white(s: Seq<char>) -> bool {
    forall|i: int| 0 <= i < s.len() ==> whitespace(#[trigger] s[i])
}

/// What a typed value that is not a formula reads as.
pub open spec fn literal_spec(typed: Seq<char>) -> Typed {
    if typed.len() == 0 {
        Typed::Blank
    } else if same_ignoring_ascii_case(typed, "TRUE"@) {
        Typed::Logical(true)
    } else if same_ignoring_ascii_case(typed, "FALSE"@) {
        Typed::Logical(false)
    } else {
        match error_named(typed) {
            Some(e) => Typed::Error(e),
            None => Typed::NumberOrText,
        }
    }
}

/// Typed text that is a formula: an `=` with something after it besides
/// white space.
pub open spec fn formula_typed(typed: Seq<char>) -> bool {
    typed.len() > 0 && typed[0] == '=' && !all_white(typed.drop_first())
}

/// Read a typed value that is not a formula.
pub fn literal_from(typed: &str) -> (r: Typed)
    ensures
        r == literal_spec(typed@),
{
    proof {
        reveal_strlit("TRUE");
        reveal_strlit("FALSE");
    }
    let chars = chars_of(typed);
    if chars.len() == 0 {
        return Typed::Blank;
    }
    if chars_equal_ignoring_ascii_case(&chars, &chars_of("TRUE")) {
        return Typed::Logical(true);
    }
    if chars_equal_ignoring_ascii_case(&chars, &chars_of("FALSE")) {
        return Typed::Logical(false);
    }
    match CalcError::from_display(typed) {
        Some(e) => Typed::Error(e),
        None => Typed::NumberOrText,
    }
}

/// Whether every character from `from` on is white space.
fn white_from(chars: &Vec<char>, from: usize) -> (b: bool)
    requires
        from <= chars@.len(),
    ensures
        b == all_white(chars@.subrange(from as int, chars@.len() as int)),
{
    let mut i: usize = from;
    while i < chars.len()
        invariant
            from <= i <= chars@.len(),
            forall|k: int| from <= k < i ==> whitespace(#[trigger] chars@[k]),
        decreases chars.len() - i,
    {
        if !is_whitespace(chars[i]) {
            assert(chars@.subrange(from as int, chars@.len() as int)[i - from] == chars@[i as int]);
            return false;
        }
        i = i + 1;
    }
    proof {
        let rest = chars@.subrange(from as int, chars@.len() as int);
        assert forall|k: int| 0 <= k < rest.len() implies whitespace(#[trigger] rest[k]) by {
            assert(rest[k] == chars@[from + k]);
        }
    }
    true
}

/// Read what the author typed into an input.
pub fn parse_input(typed: &str) -> (r: Input)
    requires
        formula_typed(typed@) ==> parsable(typed@),
    ensures
        formula_typed(typed@) ==> match parse_formula(typed@) {
            Ok(tree) => (r matches Input::Formula { text, expr } && text@ == typed@ && expr_view(expr)
                == tree),
            Err(e) => (r matches Input::Malformed { text, error } && text@ == typed@ && error == e),
        },
        typed@.len() > 0 && typed@[0] == '=' && !formula_typed(typed@) ==> (r matches Input::Literal(
            kind,
        ) && kind == Typed::Text),
        !(typed@.len() > 0 && typed@[0] == '=') ==> (r matches Input::Literal(kind) && kind
            == literal_spec(typed@)),
{
    let chars = chars_of(typed);
    if chars.len() > 0 && chars[0] == '=' {
        let blank = white_from(&chars, 1);
        proof {
            assert(chars@.subrange(1, chars@.len() as int) =~= typed@.drop_first());
        }
        if blank {
            return Input::Literal(Typed::Text);
        }
        return match parse(typed) {
            Ok(expr) => Input::Formula { text: String::from_str(typed), expr },
            Err(error) => Input::Malformed { text: String::from_str(typed), error },
        };
    }
    Input::Literal(literal_from(typed))
}

/// Read what the author typed, when it is a value or a formula `parse`
/// takes, and say `None` when it is a formula `parse` does not take.
pub fn try_parse_input(typed: &str) -> (r: Option<Input>)
    ensures
        r is None <==> (formula_typed(typed@) && !parsable(typed@)),
        r matches Some(input) ==> {
            &&& formula_typed(typed@) ==> match parse_formula(typed@) {
                Ok(tree) => (input matches Input::Formula { text, expr } && text@ == typed@ && expr_view(
                    expr,
                ) == tree),
                Err(e) => (input matches Input::Malformed { text, error } && text@ == typed@ && error == e),
            }
            &&& typed@.len() > 0 && typed@[0] == '=' && !formula_typed(typed@) ==> (input matches Input::Literal(
                kind,
            ) && kind == Typed::Text)
            &&& !(typed@.len() > 0 && typed@[0] == '=') ==> (input matches Input::Literal(kind) && kind
                == literal_spec(typed@))
        },
{
    let chars = chars_of(typed);
    if chars.len() > 0 && chars[0] == '=' {
        let blank = white_from(&chars, 1);
        proof {
            assert(chars@.subrange(1, chars@.len() as int) =~= typed@.drop_first());
        }
        if !blank && try_parse(typed).is_none() {
            return None;
        }
    }
    Some(parse_input(typed))
}

} // verus!
