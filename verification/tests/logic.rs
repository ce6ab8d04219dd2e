use ferrum::logic::{combine_conditions, Condition, Junction};
use ferrum::value::CalcError;

use Condition::{Failed, Holds, Skipped};

#[test]
fn and_needs_every_condition() {
    assert_eq!(combine_conditions(Junction::All, &[Holds(true), Holds(true)]), Ok(true));
    assert_eq!(combine_conditions(Junction::All, &[Holds(true), Skipped, Holds(false)]), Ok(false));
}

#[test]
fn or_needs_one_condition() {
    assert_eq!(combine_conditions(Junction::Any, &[Holds(false), Holds(true)]), Ok(true));
    assert_eq!(combine_conditions(Junction::Any, &[Holds(false), Skipped]), Ok(false));
}

#[test]
fn xor_counts_the_true_conditions() {
    assert_eq!(combine_conditions(Junction::Odd, &[Holds(true), Holds(true)]), Ok(false));
    assert_eq!(combine_conditions(Junction::Odd, &[Holds(true), Holds(true), Holds(true)]), Ok(true));
    assert_eq!(combine_conditions(Junction::Odd, &[Holds(false), Skipped, Holds(true)]), Ok(true));
}

#[test]
fn no_condition_at_all_is_a_value_error() {
    assert_eq!(combine_conditions(Junction::All, &[Skipped, Skipped]), Err(CalcError::Value));
    assert_eq!(combine_conditions(Junction::Any, &[]), Err(CalcError::Value));
}

#[test]
fn the_first_failure_is_the_answer() {
    assert_eq!(
        combine_conditions(Junction::Any, &[Holds(true), Failed(CalcError::Div0), Failed(CalcError::NotAvailable)]),
        Err(CalcError::Div0)
    );
}
