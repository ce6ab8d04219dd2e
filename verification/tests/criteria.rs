use std::cmp::Ordering;

use ferrum::criteria::{criterion_holds, is_pattern, split_criterion, Comparison};

#[test]
fn the_longest_operator_is_read_first() {
    assert_eq!(split_criterion(">=5"), (Comparison::GreaterOrEqual, "5".to_string()));
    assert_eq!(split_criterion("<=5"), (Comparison::LessOrEqual, "5".to_string()));
    assert_eq!(split_criterion("<>x"), (Comparison::NotEqual, "x".to_string()));
    assert_eq!(split_criterion(">5"), (Comparison::Greater, "5".to_string()));
    assert_eq!(split_criterion("<5"), (Comparison::Less, "5".to_string()));
    assert_eq!(split_criterion("=0"), (Comparison::Equal, "0".to_string()));
    assert_eq!(split_criterion("apple"), (Comparison::Equal, "apple".to_string()));
    assert_eq!(split_criterion(""), (Comparison::Equal, String::new()));
    assert_eq!(split_criterion("=>1"), (Comparison::Equal, ">1".to_string()));
}

#[test]
fn only_an_equality_test_takes_wildcards() {
    assert!(is_pattern(Comparison::Equal, "a*"));
    assert!(is_pattern(Comparison::NotEqual, "b?"));
    assert!(!is_pattern(Comparison::Greater, "a*"));
    assert!(!is_pattern(Comparison::Equal, "plain"));
}

#[test]
fn a_comparison_decides_once_the_values_compare() {
    // ">5" against 6 and against 5.
    assert!(criterion_holds(Comparison::Greater, None, Some("6"), false, false, Some(Ordering::Greater)));
    assert!(!criterion_holds(Comparison::Greater, None, Some("5"), false, false, Some(Ordering::Equal)));
    assert!(criterion_holds(Comparison::GreaterOrEqual, None, Some("5"), false, false, Some(Ordering::Equal)));
    assert!(criterion_holds(Comparison::LessOrEqual, None, Some("4"), false, false, Some(Ordering::Less)));
    assert!(!criterion_holds(Comparison::Less, None, Some("4"), false, false, Some(Ordering::Equal)));
    // Values that cannot be compared meet nothing, not even "<>".
    assert!(!criterion_holds(Comparison::NotEqual, None, Some("x"), false, false, None));
}

#[test]
fn a_blank_value_is_not_zero_to_a_criterion() {
    // "=0" against a blank cell: not met, though a blank compares equal to 0.
    assert!(!criterion_holds(Comparison::Equal, None, Some(""), true, false, Some(Ordering::Equal)));
    assert!(criterion_holds(Comparison::NotEqual, None, Some(""), true, false, Some(Ordering::Equal)));
    // Against a blank target, the comparison decides.
    assert!(criterion_holds(Comparison::Equal, None, Some(""), true, true, Some(Ordering::Equal)));
}

#[test]
fn a_pattern_criterion_matches_text() {
    assert!(criterion_holds(Comparison::Equal, Some("a*"), Some("apple"), false, false, None));
    assert!(!criterion_holds(Comparison::NotEqual, Some("a*"), Some("apple"), false, false, None));
    assert!(criterion_holds(Comparison::NotEqual, Some("a*"), Some("pear"), false, false, None));
    // An error has no text and meets no pattern.
    assert!(!criterion_holds(Comparison::NotEqual, Some("a*"), None, false, false, None));
}

/// How a tested number compares with a criterion's numeric target.
fn against(value: f64, target: &str) -> Option<Ordering> {
    value.partial_cmp(&target.parse::<f64>().ok()?)
}

#[test]
fn criteria_parse_their_operator() {
    let (greater, five) = split_criterion(">5");
    assert_eq!(greater, Comparison::Greater);
    assert!(!is_pattern(greater, &five));
    assert!(criterion_holds(greater, None, Some("6"), false, false, against(6.0, &five)));
    assert!(!criterion_holds(greater, None, Some("5"), false, false, against(5.0, &five)));

    let (not_equal, x) = split_criterion("<>x");
    assert_eq!(not_equal, Comparison::NotEqual);
    assert!(!is_pattern(not_equal, &x));
    assert!(criterion_holds(not_equal, None, Some("y"), false, false, Some("y".cmp(&x))));
    assert!(!criterion_holds(not_equal, None, Some("x"), false, false, Some("x".cmp(&x))));

    // A plain number matches by equality.
    assert!(criterion_holds(Comparison::Equal, None, Some("3"), false, false, against(3.0, "3")));
    assert!(!criterion_holds(Comparison::Equal, None, Some("4"), false, false, against(4.0, "3")));
}

#[test]
fn a_blank_cell_does_not_satisfy_a_zero_test() {
    let (zero, target) = split_criterion("=0");
    assert_eq!(zero, Comparison::Equal);
    assert!(criterion_holds(zero, None, Some("0"), false, false, against(0.0, &target)));
    assert!(!criterion_holds(zero, None, Some(""), true, false, against(0.0, &target)));
}
