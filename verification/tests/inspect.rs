use ferrum::inspect::{
    blank_count, choose_branch, count_values, error_type_of, falls_back, if_branch, ifs_branch, inspect, type_code, Branch, Counted,
    Kind, Question,
};
use ferrum::coord::{CellRef, RangeRef, SheetId};
use ferrum::operand::Reference;
use ferrum::value::CalcError;

const NA: Kind = Kind::Error(CalcError::NotAvailable);

#[test]
fn each_question_asks_about_one_kind() {
    assert!(inspect(Question::IsBlank, Kind::Blank));
    assert!(!inspect(Question::IsBlank, Kind::Number));
    assert!(inspect(Question::IsNumber, Kind::Number));
    assert!(!inspect(Question::IsNumber, Kind::Text));
    assert!(inspect(Question::IsText, Kind::Text));
    assert!(inspect(Question::IsNonText, Kind::Blank));
    assert!(!inspect(Question::IsNonText, Kind::Text));
    assert!(inspect(Question::IsLogical, Kind::Logical));
    assert!(inspect(Question::IsError, NA));
    assert!(!inspect(Question::IsError, Kind::Number));
}

#[test]
fn iserr_leaves_out_a_missing_value_and_isna_takes_only_it() {
    assert!(!inspect(Question::IsErr, NA));
    assert!(inspect(Question::IsErr, Kind::Error(CalcError::Div0)));
    assert!(inspect(Question::IsNa, NA));
    assert!(!inspect(Question::IsNa, Kind::Error(CalcError::Value)));
}

#[test]
fn type_codes_follow_the_kind() {
    assert_eq!(type_code(false, Kind::Number), 1);
    assert_eq!(type_code(false, Kind::Blank), 1);
    assert_eq!(type_code(false, Kind::Text), 2);
    assert_eq!(type_code(false, Kind::Logical), 4);
    assert_eq!(type_code(false, NA), 16);
    assert_eq!(type_code(true, NA), 64);
}

#[test]
fn error_type_numbers_the_errors() {
    assert_eq!(error_type_of(Kind::Error(CalcError::Div0)), Ok(2));
    assert_eq!(error_type_of(NA), Ok(7));
    assert_eq!(error_type_of(Kind::Error(CalcError::Calc)), Ok(14));
    assert_eq!(error_type_of(Kind::Number), Err(CalcError::NotAvailable));
}

#[test]
fn count_takes_numbers_and_counta_anything_present() {
    let item = |kind: Kind, direct: bool, numeric: bool| Counted { kind, direct, numeric };
    let items = [
        item(Kind::Number, false, true),
        item(Kind::Text, false, true),
        item(Kind::Text, true, true),
        item(Kind::Text, true, false),
        item(Kind::Blank, false, false),
        item(Kind::Logical, true, true),
        item(NA, false, false),
    ];
    // COUNT: the number, the text written directly that reads as one, and
    // the logical written directly.
    assert_eq!(count_values(false, &items), 3);
    // COUNTA: everything but the blank.
    assert_eq!(count_values(true, &items), 6);
    assert_eq!(count_values(true, &[]), 0);
}

#[test]
fn if_takes_one_branch() {
    assert_eq!(if_branch(Ok(true), true), Branch::Evaluate(1));
    assert_eq!(if_branch(Ok(false), true), Branch::Evaluate(2));
    assert_eq!(if_branch(Ok(false), false), Branch::Logical(false));
    assert_eq!(if_branch(Err(CalcError::Value), true), Branch::Fail(CalcError::Value));
}

#[test]
fn ifs_stops_at_the_first_condition_that_holds() {
    assert_eq!(ifs_branch(3, &[]), Some(Branch::Fail(CalcError::Value)));
    assert_eq!(ifs_branch(4, &[]), None);
    assert_eq!(ifs_branch(4, &[Ok(false)]), None);
    assert_eq!(ifs_branch(4, &[Ok(false), Ok(true)]), Some(Branch::Evaluate(3)));
    assert_eq!(ifs_branch(4, &[Ok(true)]), Some(Branch::Evaluate(1)));
    assert_eq!(ifs_branch(4, &[Ok(false), Ok(false)]), Some(Branch::Fail(CalcError::NotAvailable)));
    assert_eq!(ifs_branch(4, &[Err(CalcError::Div0)]), Some(Branch::Fail(CalcError::Div0)));
}

#[test]
fn choose_counts_its_choices_from_one() {
    assert_eq!(choose_branch(Ok(1), 3), Branch::Evaluate(1));
    assert_eq!(choose_branch(Ok(3), 3), Branch::Evaluate(3));
    assert_eq!(choose_branch(Ok(0), 3), Branch::Fail(CalcError::Value));
    assert_eq!(choose_branch(Ok(4), 3), Branch::Fail(CalcError::Value));
    assert_eq!(choose_branch(Ok(-2), 3), Branch::Fail(CalcError::Value));
    assert_eq!(choose_branch(Err(CalcError::Name), 3), Branch::Fail(CalcError::Name));
}

#[test]
fn ifna_lets_a_genuine_fault_through() {
    assert!(falls_back(false, Some(CalcError::Div0)));
    assert!(falls_back(false, Some(CalcError::NotAvailable)));
    assert!(!falls_back(false, None));
    assert!(falls_back(true, Some(CalcError::NotAvailable)));
    assert!(!falls_back(true, Some(CalcError::Div0)));
}

#[test]
fn countblank_counts_the_whole_addressed_area() {
    // A whole column: every row addressed, three of them holding something.
    let column = Reference::single(SheetId(0), RangeRef::whole_columns(0, 0));
    assert_eq!(blank_count(&column, 3), 1_048_576 - 3);
    let block = Reference::single(SheetId(0), RangeRef::new(CellRef::new(0, 0), CellRef::new(1, 1)));
    assert_eq!(blank_count(&block, 4), 0);
    assert_eq!(blank_count(&block, 9), 0);
}
