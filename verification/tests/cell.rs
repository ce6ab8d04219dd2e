use ferrum::cell::{literal_from, parse_input, Input, Typed};
use ferrum::value::CalcError;

#[test]
fn a_leading_equals_makes_a_formula() {
    assert!(matches!(parse_input("=1+1"), Input::Formula { .. }));
    assert!(matches!(parse_input("1+1"), Input::Literal(_)));
}

#[test]
fn a_bare_equals_sign_is_text() {
    assert!(matches!(parse_input("="), Input::Literal(Typed::Text)));
    assert!(matches!(parse_input("=   "), Input::Literal(Typed::Text)));
}

#[test]
fn a_broken_formula_keeps_what_was_typed() {
    let input = parse_input("=1+");
    let Input::Malformed { text, error } = input else {
        panic!("expected the text to be kept");
    };
    assert_eq!(&*text, "=1+");
    assert!(!error.describe().is_empty());
}

#[test]
fn a_formula_keeps_its_text_as_typed() {
    let Input::Formula { text, .. } = parse_input("=SUM(A1:A3)") else {
        panic!("expected a formula");
    };
    assert_eq!(text, "=SUM(A1:A3)");
}

#[test]
fn typed_logicals_errors_and_blanks_are_recognised() {
    assert_eq!(literal_from("TRUE"), Typed::Logical(true));
    assert_eq!(literal_from("true"), Typed::Logical(true));
    assert_eq!(literal_from("False"), Typed::Logical(false));
    assert_eq!(literal_from("#N/A"), Typed::Error(CalcError::NotAvailable));
    assert_eq!(literal_from("#div/0!"), Typed::Error(CalcError::Div0));
    assert_eq!(literal_from(""), Typed::Blank);
}

#[test]
fn anything_else_is_left_to_the_number_reader() {
    assert_eq!(literal_from("42"), Typed::NumberOrText);
    assert_eq!(literal_from("hello"), Typed::NumberOrText);
    assert_eq!(literal_from("TRUEST"), Typed::NumberOrText);
    assert!(matches!(parse_input("1-2"), Input::Literal(Typed::NumberOrText)));
}

/// A typed value read the way a cell reads it: the number, when the text is
/// left to the number reader and reads as one.
fn typed_number(typed: &str) -> Option<f64> {
    match literal_from(typed) {
        Typed::NumberOrText => typed.parse::<f64>().ok(),
        _ => None,
    }
}

#[test]
fn typed_values_take_their_most_specific_kind() {
    assert_eq!(typed_number("42"), Some(42.0));
    assert_eq!(typed_number("-1.5e3"), Some(-1500.0));
    assert_eq!(literal_from("TRUE"), Typed::Logical(true));
    assert_eq!(literal_from("true"), Typed::Logical(true));
    assert_eq!(literal_from("#N/A"), Typed::Error(CalcError::NotAvailable));
    assert_eq!(literal_from("hello"), Typed::NumberOrText);
    assert_eq!(typed_number("hello"), None);
    assert_eq!(literal_from(""), Typed::Blank);
}

#[test]
fn text_that_merely_contains_digits_stays_text() {
    for typed in ["1-2", "A1", "1 2"] {
        assert_eq!(literal_from(typed), Typed::NumberOrText);
        assert_eq!(typed_number(typed), None);
    }
}
