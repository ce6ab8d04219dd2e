use ferrum::text_functions::{
    char_of, code, left, locate, mid, proper, replace, rept, right, substitute, textjoin,
    trim, MAX_TEXT_LENGTH,
};
use ferrum::value::CalcError;

fn ok(r: Result<String, CalcError>) -> String {
    r.unwrap()
}

#[test]
fn the_text_functions_count_characters_from_one() {
    assert_eq!(ok(left("spreadsheet", 6)), "spread");
    assert_eq!(ok(right("spreadsheet", 5)), "sheet");
    assert_eq!(ok(mid("spreadsheet", 7, 5)), "sheet");
    assert_eq!(ok(left("abc", 1)), "a");
}

#[test]
fn text_positions_count_characters_not_bytes() {
    assert_eq!(ok(mid("naïve", 3, 1)), "ï");
    assert_eq!(ok(left("naïve", 3)), "naï");
    assert_eq!(ok(right("naïve", 3)), "ïve");
}

#[test]
fn counts_past_the_end_take_what_there_is() {
    assert_eq!(ok(left("abc", 10)), "abc");
    assert_eq!(ok(right("abc", 10)), "abc");
    assert_eq!(ok(mid("abc", 2, 10)), "bc");
    assert_eq!(ok(mid("abc", 9, 1)), "");
    assert_eq!(ok(left("abc", 0)), "");
}

#[test]
fn negative_counts_and_starts_before_one_are_errors() {
    assert_eq!(left("abc", -1), Err(CalcError::Value));
    assert_eq!(right("abc", -1), Err(CalcError::Value));
    assert_eq!(mid("abc", 0, 1), Err(CalcError::Value));
    assert_eq!(mid("abc", 1, -1), Err(CalcError::Value));
    assert_eq!(replace("abc", 0, 1, "x"), Err(CalcError::Value));
    assert_eq!(rept("abc", -1), Err(CalcError::Value));
}

#[test]
fn case_and_spacing_functions_behave() {
    assert_eq!(proper("hello world"), "Hello World");
    assert_eq!(proper("o'neill"), "O'Neill");
    assert_eq!(proper("3rd"), "3Rd");
    assert_eq!(proper("HELLO wORLD"), "Hello World");
    assert_eq!(trim("  a   b  "), "a b");
    assert_eq!(trim("   "), "");
    assert_eq!(trim("a\tb"), "a\tb");
    assert_eq!(ok(rept("ab", 3)), "ababab");
    assert_eq!(ok(rept("ab", 0)), "");
}

#[test]
fn rept_refuses_a_result_longer_than_a_cell_holds() {
    assert_eq!(rept("ab", 20_000), Err(CalcError::Value));
    assert_eq!(ok(rept("a", MAX_TEXT_LENGTH as i64)).len(), MAX_TEXT_LENGTH);
    assert_eq!(ok(rept("", i64::MAX)), "");
}

#[test]
fn searching_differs_in_case_sensitivity() {
    assert_eq!(locate("s", "spreadsheet", 1, false), Ok(1));
    assert_eq!(locate("s", "spreadsheet", 2, false), Ok(7));
    assert_eq!(locate("S", "spreadsheet", 1, false), Err(CalcError::Value));
    assert_eq!(locate("S", "spreadsheet", 1, true), Ok(1));
    assert_eq!(locate("sh??t", "spreadsheet", 1, true), Ok(7));
}

#[test]
fn an_empty_needle_is_found_where_the_search_began() {
    assert_eq!(locate("", "abc", 2, false), Ok(2));
    assert_eq!(locate("", "abc", 4, false), Ok(4));
    assert_eq!(locate("", "abc", 5, false), Err(CalcError::Value));
    assert_eq!(locate("a", "abc", 0, false), Err(CalcError::Value));
}

#[test]
fn substitution_can_target_one_occurrence() {
    assert_eq!(ok(substitute("a-b-c", "-", "+", None)), "a+b+c");
    assert_eq!(ok(substitute("a-b-c", "-", "+", Some(2))), "a-b+c");
    assert_eq!(ok(substitute("a-b-c", "-", "+", Some(3))), "a-b-c");
    assert_eq!(ok(substitute("aaa", "aa", "b", None)), "ba");
    assert_eq!(ok(substitute("abc", "", "x", None)), "abc");
    assert_eq!(substitute("abc", "b", "x", Some(0)), Err(CalcError::Value));
    assert_eq!(ok(replace("abcdef", 2, 3, "XY")), "aXYef");
    assert_eq!(ok(replace("abc", 9, 1, "X")), "abcX");
}

#[test]
fn joining_handles_empties_and_errors() {
    let parts = |items: &[&str]| -> Vec<Result<String, CalcError>> {
        items.iter().map(|s| Ok(s.to_string())).collect()
    };
    assert_eq!(ok(ferrum::text_functions::concat(&parts(&["north", "south"]))), "northsouth");
    assert_eq!(ok(ferrum::text_functions::concat(&parts(&["a", "b"]))), "ab");
    assert_eq!(ok(textjoin("-", true, &parts(&["a", "", "b"]))), "a-b");
    assert_eq!(ok(textjoin("-", false, &parts(&["a", "", "b"]))), "a--b");
    let with_error = vec![Ok("a".to_string()), Err(CalcError::Div0), Err(CalcError::Ref)];
    assert_eq!(ferrum::text_functions::concat(&with_error), Err(CalcError::Div0));
    assert_eq!(textjoin("-", true, &with_error), Err(CalcError::Div0));
}

#[test]
fn joining_past_the_limit_is_an_error() {
    let big = "x".repeat(MAX_TEXT_LENGTH);
    assert_eq!(ferrum::text_functions::concat(&[Ok(big.clone()), Ok("y".to_string())]), Err(CalcError::Value));
    assert_eq!(ok(ferrum::text_functions::concat(&[Ok(big.clone())])).len(), MAX_TEXT_LENGTH);
    assert_eq!(textjoin(",", false, &[Ok(big.clone()), Ok(String::new())]), Err(CalcError::Value));
    assert_eq!(
        ferrum::text_functions::concat(&[Ok(big), Ok("y".to_string()), Err(CalcError::Ref)]),
        Err(CalcError::Value)
    );
}

#[test]
fn characters_and_codes_round_trip() {
    assert_eq!(ok(char_of(65)), "A");
    assert_eq!(code("A"), Ok(65));
    assert_eq!(code(&ok(char_of(0x1F600))), Ok(0x1F600));
    assert_eq!(code(""), Err(CalcError::Value));
    assert_eq!(char_of(0xD800), Err(CalcError::Value));
    assert_eq!(char_of(-1), Err(CalcError::Value));
    assert_eq!(char_of(0x110000), Err(CalcError::Value));
}
