//! Asking what a value is, counting values by kind, and the functions that
//! choose which argument to evaluate.
//!
//! Only a value's kind matters here, not what it holds: a number's magnitude
//! and a text's characters are the caller's. The choosing functions answer
//! which argument is evaluated next, so that `IF` never evaluates the branch
//! it does not take and `IFERROR` never reports an error it swallowed.

use vstd::prelude::*;

use crate::operand::{measurable, total_area, Reference};
use crate::value::{error_ordinal, CalcError};

verus! {

/// The kind of a value, its contents aside.
#[derive(Clone, Copy, PartialEq, Eq, Structural, Debug)]
pub enum Kind {
    Blank,
    Number,
    Text,
    Logical,
    Error(CalcError),
}

/// What an inspecting function (`ISBLANK`, `ISNUMBER` and the rest) asks.
#[derive(Clone, Copy, PartialEq, Eq, Structural, Debug)]
pub enum Question {
    IsBlank,
    IsNumber,
    IsText,
    /// Anything that is not text, blanks included.
    IsNonText,
    IsLogical,
    /// Any error at all.
    IsError,
    /// Every error except `#N/A`: a missing lookup is usually expected, a
    /// fault is not.
    IsErr,
    IsNa,
}

/// The answer to a question about a value of this kind.
pub open spec fn answer_spec(question: Question, kind: Kind) -> bool {
    match question {
        Question::IsBlank => kind is Blank,
        Question::IsNumber => kind is Number,
        Question::IsText => kind is Text,
        Question::IsNonText => !(kind is Text),
        Question::IsLogical => kind is Logical,
        Question::IsError => kind is Error,
        Question::IsErr => kind is Error && kind != Kind::Error(CalcError::NotAvailable),
        Question::IsNa => kind == Kind::Error(CalcError::NotAvailable),
    }
}

/// Answer an inspecting function about a value of `kind`.
pub fn inspect(question: Question, kind: Kind) -> (b: bool)
    ensures
        b == answer_spec(question, kind),
{
    match question {
        Question::IsBlank => matches!(kind, Kind::Blank),
        Question::IsNumber => matches!(kind, Kind::Number),
        Question::IsText => matches!(kind, Kind::Text),
        Question::IsNonText => !matches!(kind, Kind::Text),
        Question::IsLogical => matches!(kind, Kind::Logical),
        Question::IsError => matches!(kind, Kind::Error(_)),
        Question::IsErr => match kind {
            Kind::Error(e) => e != CalcError::NotAvailable,
            _ => false,
        },
        Question::IsNa => match kind {
            Kind::Error(e) => e == CalcError::NotAvailable,
            _ => false,
        },
    }
}

/// The code `TYPE` reports: 64 for an array whatever it holds; else 1 for a
/// number or a blank (a blank counts as zero everywhere), 2 for text, 4 for
/// a logical, 16 for an error.
pub open spec fn type_spec(is_array: bool, kind: Kind) -> u8 {
    if is_array {
        64
    } else {
        match kind {
            Kind::Number | Kind::Blank => 1,
            Kind::Text => 2,
            Kind::Logical => 4,
            Kind::Error(_) => 16,
        }
    }
}

/// `TYPE(value)`, given whether the argument is an array and, if it is not,
/// the kind of its value.
pub fn type_code(is_array: bool, kind: Kind) -> (r: u8)
    ensures
        r == type_spec(is_array, kind),
{
    if is_array {
        return 64;
    }
    match kind {
        Kind::Number | Kind::Blank => 1,
        Kind::Text => 2,
        Kind::Logical => 4,
        Kind::Error(_) => 16,
    }
}

/// `ERROR.TYPE(value)`: the ordinal of an error, and `#N/A` for anything
/// that is not one.
pub fn error_type_of(kind: Kind) -> (r: Result<u8, CalcError>)
    ensures
        r == match kind {
            Kind::Error(e) => Ok::<u8, CalcError>(error_ordinal(e)),
            _ => Err::<u8, CalcError>(CalcError::NotAvailable),
        },
{
    match kind {
        Kind::Error(e) => match e.error_type() {
            Some(ordinal) => Ok(ordinal),
            None => Err(CalcError::NotAvailable),
        },
        _ => Err(CalcError::NotAvailable),
    }
}

/// One argument of `COUNT` or `COUNTA`, as far as counting goes.
#[derive(Clone, Copy, PartialEq, Eq, Structural, Debug)]
pub struct Counted {
    /// The kind of the value.
    pub kind: Kind,
    /// Whether it was written directly rather than read from a range.
    pub direct: bool,
    /// Whether it can be read as a number (a number, a logical, or text
    /// that spells one).
    pub numeric: bool,
}

/// Whether a value is counted: by `COUNTA` when it is not blank; by `COUNT`
/// when it is a number, or, written directly, when it can be read as one.
pub open spec fn counts(all: bool, item: Counted) -> bool {
    if all {
        !(item.kind is Blank)
    } else if item.direct {
        item.kind is Number || item.numeric
    } else {
        item.kind is Number
    }
}

/// How many of the values are counted.
pub open spec fn count_spec(all: bool, items: Seq<Counted>) -> nat
    decreases items.len(),
{
    if items.len() == 0 {
        0
    } else {
        count_spec(all, items.drop_last()) + if counts(all, items.last()) {
            1nat
        } else {
            0nat
        }
    }
}

/// `COUNT` (or `COUNTA`, when `all` is true) over its arguments' values,
/// those of each range included in turn.
pub fn count_values(all: bool, items: &[Counted]) -> (n: u64)
    requires
        items@.len() <= u64::MAX,
    ensures
        n == count_spec(all, items@),
{
    let mut n: u64 = 0;
    let mut i: usize = 0;
    while i < items.len()
        invariant
            i <= items@.len(),
            items@.len() <= u64::MAX,
            n == count_spec(all, items@.take(i as int)),
            n <= i,
        decreases items.len() - i,
    {
        assert(items@.take(i + 1).drop_last() =~= items@.take(i as int));
        let item = items[i];
        let counted = if all {
            !matches!(item.kind, Kind::Blank)
        } else if item.direct {
            matches!(item.kind, Kind::Number) || item.numeric
        } else {
            matches!(item.kind, Kind::Number)
        };
        if counted {
            n = n + 1;
        }
        i = i + 1;
    }
    assert(items@.take(items@.len() as int) =~= items@);
    n
}

/// `COUNTBLANK(reference)`: the cells the reference addresses, counted
/// whole, less the `populated` ones among them (the only ones worth
/// visiting), so a whole column answers with the million cells it really
/// addresses.
pub fn blank_count(reference: &Reference, populated: u64) -> (n: u64)
    requires
        forall|k: int| 0 <= k < reference.area_list().len() ==> measurable(#[trigger] reference.area_list()[k]),
        total_area(reference.area_list()) <= u64::MAX,
    ensures
        n == if populated <= total_area(reference.area_list()) {
            total_area(reference.area_list()) - populated
        } else {
            0
        },
{
    let addressed = reference.area();
    if populated <= addressed {
        addressed - populated
    } else {
        0
    }
}

/// What a choosing function does next.
#[derive(Clone, Copy, PartialEq, Eq, Structural, Debug)]
pub enum Branch {
    /// Evaluate the argument at this index (counting from zero) and answer
    /// with it.
    Evaluate(usize),
    /// Answer with this logical, evaluating nothing more.
    Logical(bool),
    /// Answer with this error.
    Fail(CalcError),
}

/// What `IF(condition, then, [otherwise])` does once its condition is read
/// as a logical (or failed to be, with an error).
pub open spec fn if_spec(condition: Result<bool, CalcError>, has_otherwise: bool) -> Branch {
    match condition {
        Err(e) => Branch::Fail(e),
        Ok(true) => Branch::Evaluate(1),
        Ok(false) => if has_otherwise {
            Branch::Evaluate(2)
        } else {
            Branch::Logical(false)
        },
    }
}

/// Choose the branch of `IF`: with the third argument omitted, a false
/// condition gives `FALSE`.
pub fn if_branch(condition: Result<bool, CalcError>, has_otherwise: bool) -> (r: Branch)
    ensures
        r == if_spec(condition, has_otherwise),
{
    match condition {
        Err(e) => Branch::Fail(e),
        Ok(true) => Branch::Evaluate(1),
        Ok(false) => if has_otherwise {
            Branch::Evaluate(2)
        } else {
            Branch::Logical(false)
        },
    }
}

/// The first condition from `k` on that is not false, with its index.
pub open spec fn decisive_from(conditions: Seq<Result<bool, CalcError>>, k: int) -> Option<(int, Result<bool, CalcError>)>
    decreases conditions.len() - k,
{
    if k < 0 || k >= conditions.len() {
        None
    } else if conditions[k] == Ok::<bool, CalcError>(false) {
        decisive_from(conditions, k + 1)
    } else {
        Some((k, conditions[k]))
    }
}

/// What `IFS` does, given the conditions of its pairs read so far, in order.
/// An odd number of arguments is a `#VALUE!` before anything is read. The
/// first condition that is not false decides: an error fails the call, a
/// true condition chooses the value beside it. When every pair was read and
/// none held, the answer is `#N/A`; otherwise (`None`) the next condition is
/// to be read.
pub open spec fn ifs_spec(arg_count: int, conditions: Seq<Result<bool, CalcError>>) -> Option<Branch> {
    if arg_count % 2 != 0 {
        Some(Branch::Fail(CalcError::Value))
    } else {
        match decisive_from(conditions, 0) {
            Some((_, Err(e))) => Some(Branch::Fail(e)),
            Some((k, Ok(_))) => Some(Branch::Evaluate((2 * k + 1) as usize)),
            None => if conditions.len() * 2 >= arg_count {
                Some(Branch::Fail(CalcError::NotAvailable))
            } else {
                None
            },
        }
    }
}

/// Choose the branch of `IFS(condition1, value1, condition2, value2, ...)`
/// from the conditions read so far, or ask (`None`) for the next one, so that
/// no condition after the deciding one is ever evaluated.
pub fn ifs_branch(arg_count: usize, conditions: &[Result<bool, CalcError>]) -> (r: Option<Branch>)
    requires
        conditions@.len() * 2 <= arg_count,
    ensures
        r == ifs_spec(arg_count as int, conditions@),
{
    if arg_count % 2 != 0 {
        return Some(Branch::Fail(CalcError::Value));
    }
    let mut k: usize = 0;
    while k < conditions.len()
        invariant
            k <= conditions@.len(),
            conditions@.len() * 2 <= arg_count,
            arg_count % 2 == 0,
            decisive_from(conditions@, 0) == decisive_from(conditions@, k as int),
        decreases conditions.len() - k,
    {
        let c = conditions[k];
        proof {
            if c != Ok::<bool, CalcError>(false) {
                assert(decisive_from(conditions@, k as int) == Some((k as int, c)));
            }
        }
        match c {
            Err(e) => {
                return Some(Branch::Fail(e));
            },
            Ok(true) => {
                return Some(Branch::Evaluate(2 * k + 1));
            },
            Ok(false) => {},
        }
        k = k + 1;
    }
    if conditions.len() * 2 >= arg_count {
        Some(Branch::Fail(CalcError::NotAvailable))
    } else {
        None
    }
}

/// What `CHOOSE(index, first, second, ...)` does once its index is read as a
/// whole number (or failed to be): the index counts the choices from one,
/// and one outside them is a `#VALUE!`.
pub open spec fn choose_spec(index: Result<i64, CalcError>, choices: usize) -> Branch {
    match index {
        Err(e) => Branch::Fail(e),
        Ok(n) => if n < 1 || n > choices {
            Branch::Fail(CalcError::Value)
        } else {
            Branch::Evaluate(n as usize)
        },
    }
}

/// Choose the argument of `CHOOSE`; `choices` is how many follow the index.
pub fn choose_branch(index: Result<i64, CalcError>, choices: usize) -> (r: Branch)
    ensures
        r == choose_spec(index, choices),
{
    match index {
        Err(e) => Branch::Fail(e),
        Ok(n) => {
            if n < 1 || n as u64 > choices as u64 {
                Branch::Fail(CalcError::Value)
            } else {
                Branch::Evaluate(n as usize)
            }
        },
    }
}

/// Whether `IFERROR` (or `IFNA`, when `only_not_available` is true) answers
/// with its fallback, given the error its first argument evaluated to, if
/// any: `IFNA` catches `#N/A` only, so a genuine fault is not hidden along
/// with a missing lookup.
pub fn falls_back(only_not_available: bool, error: Option<CalcError>) -> (b: bool)
    ensures
        b == match error {
            None => false,
            Some(e) => !only_not_available || e == CalcError::NotAvailable,
        },
{
    match error {
        None => false,
        Some(e) => !only_not_available || e == CalcError::NotAvailable,
    }
}

proof fn lemma_decisive_from(conditions: Seq<Result<bool, CalcError>>, k: int)
    requires
        0 <= k,
    ensures
        decisive_from(conditions, k) matches Some((j, v)) ==> k <= j < conditions.len() && conditions[j] == v && v
            != Ok::<bool, CalcError>(false) && forall|m: int| k <= m < j ==> conditions[m] == Ok::<bool, CalcError>(false),
        decisive_from(conditions, k) is None ==> forall|m: int|
            k <= m < conditions.len() ==> conditions[m] == Ok::<bool, CalcError>(false),
    decreases conditions.len() - k,
{
    if k < conditions.len() && conditions[k] == Ok::<bool, CalcError>(false) {
        lemma_decisive_from(conditions, k + 1);
    }
}

/// `IFS` evaluates the value beside the first condition that holds, and
/// only when every condition before it is false; it fails with the first
/// condition's error when that comes before any true one; and it answers
/// `#N/A` only once every pair was read and none held.
pub proof fn lemma_ifs_takes_the_first_true_condition(arg_count: int, conditions: Seq<Result<bool, CalcError>>)
    requires
        arg_count % 2 == 0,
        0 <= arg_count <= usize::MAX,
        conditions.len() * 2 <= arg_count,
    ensures
        ifs_spec(arg_count, conditions) matches Some(Branch::Evaluate(i)) ==> ({
            let k = (i - 1) / 2;
            &&& i % 2 == 1
            &&& 0 <= k < conditions.len()
            &&& conditions[k] == Ok::<bool, CalcError>(true)
            &&& forall|m: int| 0 <= m < k ==> conditions[m] == Ok::<bool, CalcError>(false)
        }),
        ifs_spec(arg_count, conditions) matches Some(Branch::Fail(e)) ==> (e == CalcError::NotAvailable
            && conditions.len() * 2 == arg_count && forall|m: int|
            0 <= m < conditions.len() ==> conditions[m] == Ok::<bool, CalcError>(false)) || exists|k: int|
            0 <= k < conditions.len() && conditions[k] == Err::<bool, CalcError>(e) && forall|m: int|
                0 <= m < k ==> conditions[m] == Ok::<bool, CalcError>(false),
        ifs_spec(arg_count, conditions) is None ==> conditions.len() * 2 < arg_count && forall|m: int|
            0 <= m < conditions.len() ==> conditions[m] == Ok::<bool, CalcError>(false),
        !(ifs_spec(arg_count, conditions) matches Some(Branch::Logical(_))),
{
    lemma_decisive_from(conditions, 0);
    match decisive_from(conditions, 0) {
        Some((k, v)) => {
            if let Ok(b) = v {
                assert(b);
                assert((2 * k + 1) as usize == 2 * k + 1);
                assert((2 * k + 1 - 1) / 2 == k);
            }
        },
        None => {},
    }
}

/// `CHOOSE` evaluates the choice its index names, counting from one, and
/// fails with `#VALUE!` exactly when the index names none of them.
pub proof fn lemma_choose_takes_the_named_choice(index: i64, choices: usize)
    ensures
        (1 <= index <= choices) <==> choose_spec(Ok(index), choices) == Branch::Evaluate(index as usize),
        !(1 <= index <= choices) <==> choose_spec(Ok(index), choices) == Branch::Fail(CalcError::Value),
{
}

/// `IF` evaluates `then` (the second argument) on a true condition and
/// `otherwise` (the third) on a false one, answering `FALSE` without one;
/// a condition that fails fails the call, evaluating neither.
pub proof fn lemma_if_takes_one_branch(has_otherwise: bool, e: CalcError)
    ensures
        if_spec(Ok(true), has_otherwise) == Branch::Evaluate(1),
        if_spec(Ok(false), true) == Branch::Evaluate(2),
        if_spec(Ok(false), false) == Branch::Logical(false),
        if_spec(Err(e), has_otherwise) == Branch::Fail(e),
{
}

} // verus!
