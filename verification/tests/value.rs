use std::cmp::Ordering;

use ferrum::value::{compare_text, trim_trailing_zeros, CalcError};

#[test]
fn errors_round_trip_through_their_display_text() {
    for error in [
        CalcError::Null,
        CalcError::Div0,
        CalcError::Value,
        CalcError::Ref,
        CalcError::Name,
        CalcError::Num,
        CalcError::NotAvailable,
        CalcError::Spill,
        CalcError::Calc,
    ] {
        assert_eq!(CalcError::from_display(error.as_str()), Some(error));
    }
    assert_eq!(CalcError::from_display("#NOPE!"), None);
}

#[test]
fn an_error_spelling_ignores_case() {
    assert_eq!(CalcError::from_display("#div/0!"), Some(CalcError::Div0));
    assert_eq!(CalcError::from_display("#n/a"), Some(CalcError::NotAvailable));
}

#[test]
fn error_type_reports_the_spreadsheet_ordinals() {
    assert_eq!(CalcError::Null.error_type(), Some(1));
    assert_eq!(CalcError::NotAvailable.error_type(), Some(7));
    assert_eq!(CalcError::Spill.error_type(), Some(9));
    assert_eq!(CalcError::Calc.error_type(), Some(14));
}

#[test]
fn text_comparison_ignores_case() {
    assert_eq!(compare_text("abc", "ABC"), Ordering::Equal);
    assert_eq!(compare_text("abc", "abd"), Ordering::Less);
    assert_eq!(compare_text("b", "A"), Ordering::Greater);
    assert_eq!(compare_text("ab", "abc"), Ordering::Less);
    assert_eq!(compare_text("", ""), Ordering::Equal);
    assert_eq!(compare_text("straße", "STRASSE"), Ordering::Equal);
}

#[test]
fn trailing_zeros_and_a_bare_point_are_dropped() {
    assert_eq!(trim_trailing_zeros("1.5000"), "1.5");
    assert_eq!(trim_trailing_zeros("2.0000"), "2");
    assert_eq!(trim_trailing_zeros("100"), "100");
    assert_eq!(trim_trailing_zeros("0.0"), "0");
    assert_eq!(trim_trailing_zeros(""), "");
}
