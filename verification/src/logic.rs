//! `AND`, `OR` and `XOR`: combining the conditions their arguments hold.
//!
//! A value written directly must be readable as a condition, so `AND("x")`
//! is `#VALUE!`; text and blanks sitting inside a range are skipped instead,
//! because a column of labels beside a column of flags is ordinary. Reading
//! each value as a condition is the caller's part; what is combined here is
//! the list of what came of it, in argument order.

use vstd::prelude::*;

use crate::value::CalcError;

verus! {

/// How conditions combine.
#[derive(Clone, Copy, PartialEq, Eq, Structural, Debug)]
pub enum Junction {
    /// `AND`: every condition holds.
    All,
    /// `OR`: some condition holds.
    Any,
    /// `XOR`: an odd number of conditions hold.
    Odd,
}

/// What one value contributes.
#[derive(Clone, Copy, PartialEq, Eq, Structural, Debug)]
pub enum Condition {
    /// A condition, true or false.
    Holds(bool),
    /// Text or a blank inside a range: not a condition.
    Skipped,
    /// An error, or a value written directly that is not a condition.
    Failed(CalcError),
}

/// The first failure among the contributions, if any.
pub open spec fn first_failure(items: Seq<Condition>) -> Option<CalcError>
    decreases items.len(),
{
    if items.len() == 0 {
        None
    } else {
        match items[0] {
            Condition::Failed(e) => Some(e),
            _ => first_failure(items.drop_first()),
        }
    }
}

/// Whether any contribution is a condition.
pub open spec fn any_condition(items: Seq<Condition>) -> bool {
    exists|i: int| 0 <= i < items.len() && (#[trigger] items[i]) is Holds
}

/// How many conditions hold.
pub open spec fn true_count(items: Seq<Condition>) -> nat
    decreases items.len(),
{
    if items.len() == 0 {
        0
    } else {
        (if items.last() == Condition::Holds(true) {
            1nat
        } else {
            0nat
        }) + true_count(items.drop_last())
    }
}

/// What the conditions combine to.
pub open spec fn combined(junction: Junction, items: Seq<Condition>) -> bool {
    match junction {
        Junction::All => forall|i: int| 0 <= i < items.len() ==> (#[trigger] items[i]) != Condition::Holds(false),
        Junction::Any => exists|i: int| 0 <= i < items.len() && (#[trigger] items[i]) == Condition::Holds(true),
        Junction::Odd => true_count(items) % 2 == 1,
    }
}

/// The answer: the first failure, if there is one; `#VALUE!` when no
/// condition turned up at all; otherwise what the conditions combine to.
pub open spec fn junction_spec(junction: Junction, items: Seq<Condition>) -> Result<bool, CalcError> {
    match first_failure(items) {
        Some(e) => Err(e),
        None => if !any_condition(items) {
            Err(CalcError::Value)
        } else {
            Ok(combined(junction, items))
        },
    }
}

proof fn lemma_first_failure_prefix(items: Seq<Condition>, k: int)
    requires
        0 <= k < items.len(),
        first_failure(items.take(k)) is None,
    ensures
        first_failure(items.take(k + 1)) == (match items[k] {
            Condition::Failed(e) => Some(e),
            _ => None::<CalcError>,
        }),
        items[k] is Failed ==> first_failure(items) == first_failure(items.take(k + 1)),
    decreases k,
{
    if k > 0 {
        let rest = items.drop_first();
        assert(items.take(k).drop_first() =~= rest.take(k - 1));
        assert(items.take(k + 1).drop_first() =~= rest.take(k));
        assert(items.take(k)[0] == items[0]);
        assert(items.take(k + 1)[0] == items[0]);
        assert(!(items[0] is Failed));
        assert(first_failure(items.take(k)) == first_failure(rest.take(k - 1)));
        lemma_first_failure_prefix(rest, k - 1);
        assert(rest[k - 1] == items[k]);
        assert(first_failure(items.take(k + 1)) == first_failure(rest.take(k)));
    } else {
        assert(items.take(1).drop_first() =~= Seq::<Condition>::empty());
        assert(first_failure(Seq::<Condition>::empty()) is None);
        assert(items.take(1)[0] == items[0]);
    }
}

/// Combine the contributions of `AND`, `OR` or `XOR`, in argument order.
pub fn combine_conditions(junction: Junction, items: &[Condition]) -> (r: Result<bool, CalcError>)
    ensures
        r == junction_spec(junction, items@),
{
    let mut accumulator: bool = match junction {
        Junction::All => true,
        _ => false,
    };
    let mut seen = false;
    let mut i: usize = 0;
    assert(items@.take(0) =~= Seq::<Condition>::empty());
    while i < items.len()
        invariant
            i <= items@.len(),
            first_failure(items@.take(i as int)) is None,
            seen == any_condition(items@.take(i as int)),
            accumulator == combined(junction, items@.take(i as int)),
        decreases items.len() - i,
    {
        proof {
            lemma_first_failure_prefix(items@, i as int);
        }
        let ghost done = items@.take(i + 1);
        assert(done.drop_last() =~= items@.take(i as int));
        assert(done.last() == items@[i as int]);
        match items[i] {
            Condition::Failed(e) => {
                return Err(e);
            },
            Condition::Skipped => {},
            Condition::Holds(b) => {
                accumulator = match junction {
                    Junction::All => accumulator && b,
                    Junction::Any => accumulator || b,
                    Junction::Odd => accumulator != b,
                };
                seen = true;
            },
        }
        proof {
            let before = items@.take(i as int);
            assert forall|k: int| 0 <= k < done.len() implies (#[trigger] done[k]) == (if k < i {
                before[k]
            } else {
                items@[i as int]
            }) by {}
            if seen {
                if items@[i as int] is Holds {
                    assert(done[i as int] is Holds);
                } else {
                    let w = choose|w: int| 0 <= w < before.len() && (#[trigger] before[w]) is Holds;
                    assert(done[w] is Holds);
                }
            }
            if !seen {
                assert forall|k: int| 0 <= k < done.len() implies !((#[trigger] done[k]) is Holds) by {
                    if k < i {
                        assert(!(before[k] is Holds));
                    }
                }
            }
            match junction {
                Junction::Any => {
                    if combined(junction, before) {
                        let w = choose|w: int| 0 <= w < before.len() && (#[trigger] before[w]) == Condition::Holds(true);
                        assert(done[w] == Condition::Holds(true));
                    }
                    if items@[i as int] == Condition::Holds(true) {
                        assert(done[i as int] == Condition::Holds(true));
                    }
                },
                _ => {},
            }
        }
        i = i + 1;
    }
    assert(items@.take(items@.len() as int) =~= items@);
    if !seen {
        return Err(CalcError::Value);
    }
    Ok(accumulator)
}

} // verus!
