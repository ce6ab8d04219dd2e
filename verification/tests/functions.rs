use ferrum::functions::{function_table, is_known, lookup, names, wildcard_matches, MANY, check_call};

#[test]
fn the_table_is_sorted_and_unique() {
    let table = function_table();
    for pair in table.windows(2) {
        assert!(
            pair[0].name < pair[1].name,
            "{} must sort before {}; binary search needs the table ordered",
            pair[0].name,
            pair[1].name
        );
    }
}

#[test]
fn argument_counts_are_sane() {
    for function in function_table() {
        assert!(
            function.min_args <= function.max_args,
            "{} has min above max",
            function.name
        );
    }
}

#[test]
fn every_name_is_upper_case_and_findable() {
    for function in function_table() {
        assert_eq!(function.name, function.name.to_ascii_uppercase());
        assert!(lookup(function.name).is_some(), "{} is unreachable", function.name);
    }
}

#[test]
fn lookup_folds_case_and_strips_the_compatibility_prefix() {
    assert!(lookup("sum").is_some());
    assert!(lookup("SuM").is_some());
    assert!(lookup("_xlfn.SUM").is_some());
    assert!(lookup("NOPE").is_none());
}

#[test]
fn lookup_reports_the_table_entry() {
    let sum = lookup("sum").unwrap();
    assert_eq!(sum.name, "SUM");
    assert_eq!(sum.min_args, 1);
    assert_eq!(sum.max_args, MANY);
    let iferror = lookup("IfError").unwrap();
    assert_eq!((iferror.min_args, iferror.max_args), (2, 2));
    assert!(!iferror.propagates_errors);
    assert!(is_known("_xlfn.concat"));
    assert!(!is_known(""));
}

#[test]
fn names_list_the_table_in_order() {
    let listed = names();
    assert_eq!(listed.len(), function_table().len());
    assert_eq!(listed[0], "ABS");
}

#[test]
fn wildcards_match_the_way_a_spreadsheet_expects() {
    assert!(wildcard_matches("a*", "apple"));
    assert!(wildcard_matches("*e", "apple"));
    assert!(wildcard_matches("a*e", "apple"));
    assert!(wildcard_matches("?pple", "apple"));
    assert!(wildcard_matches("*", "anything"));
    assert!(wildcard_matches("apple", "APPLE"));
    assert!(!wildcard_matches("a?", "apple"));
    assert!(!wildcard_matches("b*", "apple"));
    assert!(wildcard_matches("", ""));
    assert!(!wildcard_matches("", "x"));
}

#[test]
fn a_tilde_escapes_a_wildcard() {
    assert!(wildcard_matches("a~*b", "a*b"));
    assert!(!wildcard_matches("a~*b", "axb"));
    assert!(wildcard_matches("a~?b", "a?b"));
}

#[test]
fn many_stars_do_not_take_forever() {
    let pattern = "*a*a*a*a*a*a*a*a*b";
    let text = "a".repeat(64);
    assert!(!wildcard_matches(pattern, &text));
}

#[test]
fn a_trailing_tilde_matches_nothing() {
    assert!(!wildcard_matches("a~", "a~"));
    assert!(!wildcard_matches("a~", "a"));
    assert!(wildcard_matches("~~", "~"));
}

#[test]
fn a_call_is_checked_by_name_and_argument_count() {
    assert_eq!(check_call("NOPE", 1).unwrap_err(), ferrum::value::CalcError::Name);
    assert_eq!(check_call("abs", 2).unwrap_err(), ferrum::value::CalcError::Value);
    assert_eq!(check_call("abs", 0).unwrap_err(), ferrum::value::CalcError::Value);
    assert_eq!(check_call("_xlfn.Abs", 1).unwrap().name, "ABS");
    assert!(check_call("SUM", 30).is_ok());
}
