//! The function library's table: which names the formula language knows,
//! how many arguments each takes, and whether an error argument
//! short-circuits the call.
//!
//! The table is sorted by name and every name is upper case, so a name can be
//! found by folding case.
//!
//! Also here: the wildcard matching the conditional functions use, where `*`
//! stands for any run, `?` for one character, and `~` escapes either.

use vstd::prelude::*;

use crate::text::chars_of;
use crate::value::{uppercase_of, CalcError};

verus! {

/// No practical ceiling on argument count.
pub const MANY: usize = usize::MAX;

/// What the table says of one function.
#[derive(Clone, Copy, Debug)]
pub struct FunctionInfo {
    /// Upper case, because lookup folds case.
    pub name: &'static str,
    pub min_args: usize,
    pub max_args: usize,
    /// Whether an error passed as a whole argument short-circuits the call.
    ///
    /// True for almost everything: `SUM(#N/A)` is `#N/A`. False for the
    /// functions whose entire job is to inspect an error, and for those that
    /// must not evaluate every branch, such as `IF`.
    pub propagates_errors: bool,
}

/// Every function, sorted by name.
pub open spec fn table_spec() -> Seq<FunctionInfo> {
    seq![
        FunctionInfo { name: "ABS", min_args: 1, max_args: 1, propagates_errors: true },
        FunctionInfo { name: "ACOS", min_args: 1, max_args: 1, propagates_errors: true },
        FunctionInfo { name: "AND", min_args: 1, max_args: MANY, propagates_errors: true },
        FunctionInfo { name: "ASIN", min_args: 1, max_args: 1, propagates_errors: true },
        FunctionInfo { name: "ATAN", min_args: 1, max_args: 1, propagates_errors: true },
        FunctionInfo { name: "ATAN2", min_args: 2, max_args: 2, propagates_errors: true },
        FunctionInfo { name: "AVERAGE", min_args: 1, max_args: MANY, propagates_errors: true },
        FunctionInfo { name: "AVERAGEIF", min_args: 2, max_args: 3, propagates_errors: true },
        FunctionInfo { name: "CEILING", min_args: 2, max_args: 2, propagates_errors: true },
        FunctionInfo { name: "CHAR", min_args: 1, max_args: 1, propagates_errors: true },
        FunctionInfo { name: "CHOOSE", min_args: 2, max_args: MANY, propagates_errors: false },
        FunctionInfo { name: "CODE", min_args: 1, max_args: 1, propagates_errors: true },
        FunctionInfo { name: "COLUMN", min_args: 0, max_args: 1, propagates_errors: true },
        FunctionInfo { name: "COLUMNS", min_args: 1, max_args: 1, propagates_errors: true },
        FunctionInfo { name: "CONCAT", min_args: 1, max_args: MANY, propagates_errors: true },
        FunctionInfo { name: "CONCATENATE", min_args: 1, max_args: MANY, propagates_errors: true },
        FunctionInfo { name: "COS", min_args: 1, max_args: 1, propagates_errors: true },
        FunctionInfo { name: "COUNT", min_args: 1, max_args: MANY, propagates_errors: true },
        FunctionInfo { name: "COUNTA", min_args: 1, max_args: MANY, propagates_errors: true },
        FunctionInfo { name: "COUNTBLANK", min_args: 1, max_args: 1, propagates_errors: true },
        FunctionInfo { name: "COUNTIF", min_args: 2, max_args: 2, propagates_errors: true },
        FunctionInfo { name: "DEGREES", min_args: 1, max_args: 1, propagates_errors: true },
        FunctionInfo { name: "ERROR.TYPE", min_args: 1, max_args: 1, propagates_errors: false },
        FunctionInfo { name: "EVEN", min_args: 1, max_args: 1, propagates_errors: true },
        FunctionInfo { name: "EXACT", min_args: 2, max_args: 2, propagates_errors: true },
        FunctionInfo { name: "EXP", min_args: 1, max_args: 1, propagates_errors: true },
        FunctionInfo { name: "FIND", min_args: 2, max_args: 3, propagates_errors: true },
        FunctionInfo { name: "FLOOR", min_args: 2, max_args: 2, propagates_errors: true },
        FunctionInfo { name: "HLOOKUP", min_args: 3, max_args: 4, propagates_errors: true },
        FunctionInfo { name: "IF", min_args: 2, max_args: 3, propagates_errors: false },
        FunctionInfo { name: "IFERROR", min_args: 2, max_args: 2, propagates_errors: false },
        FunctionInfo { name: "IFNA", min_args: 2, max_args: 2, propagates_errors: false },
        FunctionInfo { name: "IFS", min_args: 2, max_args: MANY, propagates_errors: false },
        FunctionInfo { name: "INDEX", min_args: 2, max_args: 3, propagates_errors: true },
        FunctionInfo { name: "INT", min_args: 1, max_args: 1, propagates_errors: true },
        FunctionInfo { name: "ISBLANK", min_args: 1, max_args: 1, propagates_errors: false },
        FunctionInfo { name: "ISERR", min_args: 1, max_args: 1, propagates_errors: false },
        FunctionInfo { name: "ISERROR", min_args: 1, max_args: 1, propagates_errors: false },
        FunctionInfo { name: "ISLOGICAL", min_args: 1, max_args: 1, propagates_errors: false },
        FunctionInfo { name: "ISNA", min_args: 1, max_args: 1, propagates_errors: false },
        FunctionInfo { name: "ISNONTEXT", min_args: 1, max_args: 1, propagates_errors: false },
        FunctionInfo { name: "ISNUMBER", min_args: 1, max_args: 1, propagates_errors: false },
        FunctionInfo { name: "ISTEXT", min_args: 1, max_args: 1, propagates_errors: false },
        FunctionInfo { name: "LARGE", min_args: 2, max_args: 2, propagates_errors: true },
        FunctionInfo { name: "LEFT", min_args: 1, max_args: 2, propagates_errors: true },
        FunctionInfo { name: "LEN", min_args: 1, max_args: 1, propagates_errors: true },
        FunctionInfo { name: "LN", min_args: 1, max_args: 1, propagates_errors: true },
        FunctionInfo { name: "LOG", min_args: 1, max_args: 2, propagates_errors: true },
        FunctionInfo { name: "LOG10", min_args: 1, max_args: 1, propagates_errors: true },
        FunctionInfo { name: "LOWER", min_args: 1, max_args: 1, propagates_errors: true },
        FunctionInfo { name: "MATCH", min_args: 2, max_args: 3, propagates_errors: true },
        FunctionInfo { name: "MAX", min_args: 1, max_args: MANY, propagates_errors: true },
        FunctionInfo { name: "MEDIAN", min_args: 1, max_args: MANY, propagates_errors: true },
        FunctionInfo { name: "MID", min_args: 3, max_args: 3, propagates_errors: true },
        FunctionInfo { name: "MIN", min_args: 1, max_args: MANY, propagates_errors: true },
        FunctionInfo { name: "MOD", min_args: 2, max_args: 2, propagates_errors: true },
        FunctionInfo { name: "NA", min_args: 0, max_args: 0, propagates_errors: false },
        FunctionInfo { name: "NOT", min_args: 1, max_args: 1, propagates_errors: true },
        FunctionInfo { name: "ODD", min_args: 1, max_args: 1, propagates_errors: true },
        FunctionInfo { name: "OR", min_args: 1, max_args: MANY, propagates_errors: true },
        FunctionInfo { name: "PI", min_args: 0, max_args: 0, propagates_errors: true },
        FunctionInfo { name: "POWER", min_args: 2, max_args: 2, propagates_errors: true },
        FunctionInfo { name: "PRODUCT", min_args: 1, max_args: MANY, propagates_errors: true },
        FunctionInfo { name: "PROPER", min_args: 1, max_args: 1, propagates_errors: true },
        FunctionInfo { name: "RADIANS", min_args: 1, max_args: 1, propagates_errors: true },
        FunctionInfo { name: "REPLACE", min_args: 4, max_args: 4, propagates_errors: true },
        FunctionInfo { name: "REPT", min_args: 2, max_args: 2, propagates_errors: true },
        FunctionInfo { name: "RIGHT", min_args: 1, max_args: 2, propagates_errors: true },
        FunctionInfo { name: "ROUND", min_args: 2, max_args: 2, propagates_errors: true },
        FunctionInfo { name: "ROUNDDOWN", min_args: 2, max_args: 2, propagates_errors: true },
        FunctionInfo { name: "ROUNDUP", min_args: 2, max_args: 2, propagates_errors: true },
        FunctionInfo { name: "ROW", min_args: 0, max_args: 1, propagates_errors: true },
        FunctionInfo { name: "ROWS", min_args: 1, max_args: 1, propagates_errors: true },
        FunctionInfo { name: "SEARCH", min_args: 2, max_args: 3, propagates_errors: true },
        FunctionInfo { name: "SIGN", min_args: 1, max_args: 1, propagates_errors: true },
        FunctionInfo { name: "SIN", min_args: 1, max_args: 1, propagates_errors: true },
        FunctionInfo { name: "SMALL", min_args: 2, max_args: 2, propagates_errors: true },
        FunctionInfo { name: "SQRT", min_args: 1, max_args: 1, propagates_errors: true },
        FunctionInfo { name: "STDEV.P", min_args: 1, max_args: MANY, propagates_errors: true },
        FunctionInfo { name: "STDEV.S", min_args: 1, max_args: MANY, propagates_errors: true },
        FunctionInfo { name: "SUBSTITUTE", min_args: 3, max_args: 4, propagates_errors: true },
        FunctionInfo { name: "SUM", min_args: 1, max_args: MANY, propagates_errors: true },
        FunctionInfo { name: "SUMIF", min_args: 2, max_args: 3, propagates_errors: true },
        FunctionInfo { name: "SUMPRODUCT", min_args: 1, max_args: MANY, propagates_errors: true },
        FunctionInfo { name: "SUMSQ", min_args: 1, max_args: MANY, propagates_errors: true },
        FunctionInfo { name: "TAN", min_args: 1, max_args: 1, propagates_errors: true },
        FunctionInfo { name: "TEXTJOIN", min_args: 3, max_args: MANY, propagates_errors: true },
        FunctionInfo { name: "TRIM", min_args: 1, max_args: 1, propagates_errors: true },
        FunctionInfo { name: "TRUNC", min_args: 1, max_args: 2, propagates_errors: true },
        FunctionInfo { name: "TYPE", min_args: 1, max_args: 1, propagates_errors: false },
        FunctionInfo { name: "UPPER", min_args: 1, max_args: 1, propagates_errors: true },
        FunctionInfo { name: "VALUE", min_args: 1, max_args: 1, propagates_errors: true },
        FunctionInfo { name: "VAR.P", min_args: 1, max_args: MANY, propagates_errors: true },
        FunctionInfo { name: "VAR.S", min_args: 1, max_args: MANY, propagates_errors: true },
        FunctionInfo { name: "VLOOKUP", min_args: 3, max_args: 4, propagates_errors: true },
        FunctionInfo { name: "XOR", min_args: 1, max_args: MANY, propagates_errors: true }
    ]
}

/// Every function, sorted by name.
pub fn function_table() -> (t: Vec<FunctionInfo>)
    ensures
        t@ == table_spec(),
{
    let t: Vec<FunctionInfo> = vec![
        FunctionInfo { name: "ABS", min_args: 1, max_args: 1, propagates_errors: true },
        FunctionInfo { name: "ACOS", min_args: 1, max_args: 1, propagates_errors: true },
        FunctionInfo { name: "AND", min_args: 1, max_args: MANY, propagates_errors: true },
        FunctionInfo { name: "ASIN", min_args: 1, max_args: 1, propagates_errors: true },
        FunctionInfo { name: "ATAN", min_args: 1, max_args: 1, propagates_errors: true },
        FunctionInfo { name: "ATAN2", min_args: 2, max_args: 2, propagates_errors: true },
        FunctionInfo { name: "AVERAGE", min_args: 1, max_args: MANY, propagates_errors: true },
        FunctionInfo { name: "AVERAGEIF", min_args: 2, max_args: 3, propagates_errors: true },
        FunctionInfo { name: "CEILING", min_args: 2, max_args: 2, propagates_errors: true },
        FunctionInfo { name: "CHAR", min_args: 1, max_args: 1, propagates_errors: true },
        FunctionInfo { name: "CHOOSE", min_args: 2, max_args: MANY, propagates_errors: false },
        FunctionInfo { name: "CODE", min_args: 1, max_args: 1, propagates_errors: true },
        FunctionInfo { name: "COLUMN", min_args: 0, max_args: 1, propagates_errors: true },
        FunctionInfo { name: "COLUMNS", min_args: 1, max_args: 1, propagates_errors: true },
        FunctionInfo { name: "CONCAT", min_args: 1, max_args: MANY, propagates_errors: true },
        FunctionInfo { name: "CONCATENATE", min_args: 1, max_args: MANY, propagates_errors: true },
        FunctionInfo { name: "COS", min_args: 1, max_args: 1, propagates_errors: true },
        FunctionInfo { name: "COUNT", min_args: 1, max_args: MANY, propagates_errors: true },
        FunctionInfo { name: "COUNTA", min_args: 1, max_args: MANY, propagates_errors: true },
        FunctionInfo { name: "COUNTBLANK", min_args: 1, max_args: 1, propagates_errors: true },
        FunctionInfo { name: "COUNTIF", min_args: 2, max_args: 2, propagates_errors: true },
        FunctionInfo { name: "DEGREES", min_args: 1, max_args: 1, propagates_errors: true },
        FunctionInfo { name: "ERROR.TYPE", min_args: 1, max_args: 1, propagates_errors: false },
        FunctionInfo { name: "EVEN", min_args: 1, max_args: 1, propagates_errors: true },
        FunctionInfo { name: "EXACT", min_args: 2, max_args: 2, propagates_errors: true },
        FunctionInfo { name: "EXP", min_args: 1, max_args: 1, propagates_errors: true },
        FunctionInfo { name: "FIND", min_args: 2, max_args: 3, propagates_errors: true },
        FunctionInfo { name: "FLOOR", min_args: 2, max_args: 2, propagates_errors: true },
        FunctionInfo { name: "HLOOKUP", min_args: 3, max_args: 4, propagates_errors: true },
        FunctionInfo { name: "IF", min_args: 2, max_args: 3, propagates_errors: false },
        FunctionInfo { name: "IFERROR", min_args: 2, max_args: 2, propagates_errors: false },
        FunctionInfo { name: "IFNA", min_args: 2, max_args: 2, propagates_errors: false },
        FunctionInfo { name: "IFS", min_args: 2, max_args: MANY, propagates_errors: false },
        FunctionInfo { name: "INDEX", min_args: 2, max_args: 3, propagates_errors: true },
        FunctionInfo { name: "INT", min_args: 1, max_args: 1, propagates_errors: true },
        FunctionInfo { name: "ISBLANK", min_args: 1, max_args: 1, propagates_errors: false },
        FunctionInfo { name: "ISERR", min_args: 1, max_args: 1, propagates_errors: false },
        FunctionInfo { name: "ISERROR", min_args: 1, max_args: 1, propagates_errors: false },
        FunctionInfo { name: "ISLOGICAL", min_args: 1, max_args: 1, propagates_errors: false },
        FunctionInfo { name: "ISNA", min_args: 1, max_args: 1, propagates_errors: false },
        FunctionInfo { name: "ISNONTEXT", min_args: 1, max_args: 1, propagates_errors: false },
        FunctionInfo { name: "ISNUMBER", min_args: 1, max_args: 1, propagates_errors: false },
        FunctionInfo { name: "ISTEXT", min_args: 1, max_args: 1, propagates_errors: false },
        FunctionInfo { name: "LARGE", min_args: 2, max_args: 2, propagates_errors: true },
        FunctionInfo { name: "LEFT", min_args: 1, max_args: 2, propagates_errors: true },
        FunctionInfo { name: "LEN", min_args: 1, max_args: 1, propagates_errors: true },
        FunctionInfo { name: "LN", min_args: 1, max_args: 1, propagates_errors: true },
        FunctionInfo { name: "LOG", min_args: 1, max_args: 2, propagates_errors: true },
        FunctionInfo { name: "LOG10", min_args: 1, max_args: 1, propagates_errors: true },
        FunctionInfo { name: "LOWER", min_args: 1, max_args: 1, propagates_errors: true },
        FunctionInfo { name: "MATCH", min_args: 2, max_args: 3, propagates_errors: true },
        FunctionInfo { name: "MAX", min_args: 1, max_args: MANY, propagates_errors: true },
        FunctionInfo { name: "MEDIAN", min_args: 1, max_args: MANY, propagates_errors: true },
        FunctionInfo { name: "MID", min_args: 3, max_args: 3, propagates_errors: true },
        FunctionInfo { name: "MIN", min_args: 1, max_args: MANY, propagates_errors: true },
        FunctionInfo { name: "MOD", min_args: 2, max_args: 2, propagates_errors: true },
        FunctionInfo { name: "NA", min_args: 0, max_args: 0, propagates_errors: false },
        FunctionInfo { name: "NOT", min_args: 1, max_args: 1, propagates_errors: true },
        FunctionInfo { name: "ODD", min_args: 1, max_args: 1, propagates_errors: true },
        FunctionInfo { name: "OR", min_args: 1, max_args: MANY, propagates_errors: true },
        FunctionInfo { name: "PI", min_args: 0, max_args: 0, propagates_errors: true },
        FunctionInfo { name: "POWER", min_args: 2, max_args: 2, propagates_errors: true },
        FunctionInfo { name: "PRODUCT", min_args: 1, max_args: MANY, propagates_errors: true },
        FunctionInfo { name: "PROPER", min_args: 1, max_args: 1, propagates_errors: true },
        FunctionInfo { name: "RADIANS", min_args: 1, max_args: 1, propagates_errors: true },
        FunctionInfo { name: "REPLACE", min_args: 4, max_args: 4, propagates_errors: true },
        FunctionInfo { name: "REPT", min_args: 2, max_args: 2, propagates_errors: true },
        FunctionInfo { name: "RIGHT", min_args: 1, max_args: 2, propagates_errors: true },
        FunctionInfo { name: "ROUND", min_args: 2, max_args: 2, propagates_errors: true },
        FunctionInfo { name: "ROUNDDOWN", min_args: 2, max_args: 2, propagates_errors: true },
        FunctionInfo { name: "ROUNDUP", min_args: 2, max_args: 2, propagates_errors: true },
        FunctionInfo { name: "ROW", min_args: 0, max_args: 1, propagates_errors: true },
        FunctionInfo { name: "ROWS", min_args: 1, max_args: 1, propagates_errors: true },
        FunctionInfo { name: "SEARCH", min_args: 2, max_args: 3, propagates_errors: true },
        FunctionInfo { name: "SIGN", min_args: 1, max_args: 1, propagates_errors: true },
        FunctionInfo { name: "SIN", min_args: 1, max_args: 1, propagates_errors: true },
        FunctionInfo { name: "SMALL", min_args: 2, max_args: 2, propagates_errors: true },
        FunctionInfo { name: "SQRT", min_args: 1, max_args: 1, propagates_errors: true },
        FunctionInfo { name: "STDEV.P", min_args: 1, max_args: MANY, propagates_errors: true },
        FunctionInfo { name: "STDEV.S", min_args: 1, max_args: MANY, propagates_errors: true },
        FunctionInfo { name: "SUBSTITUTE", min_args: 3, max_args: 4, propagates_errors: true },
        FunctionInfo { name: "SUM", min_args: 1, max_args: MANY, propagates_errors: true },
        FunctionInfo { name: "SUMIF", min_args: 2, max_args: 3, propagates_errors: true },
        FunctionInfo { name: "SUMPRODUCT", min_args: 1, max_args: MANY, propagates_errors: true },
        FunctionInfo { name: "SUMSQ", min_args: 1, max_args: MANY, propagates_errors: true },
        FunctionInfo { name: "TAN", min_args: 1, max_args: 1, propagates_errors: true },
        FunctionInfo { name: "TEXTJOIN", min_args: 3, max_args: MANY, propagates_errors: true },
        FunctionInfo { name: "TRIM", min_args: 1, max_args: 1, propagates_errors: true },
        FunctionInfo { name: "TRUNC", min_args: 1, max_args: 2, propagates_errors: true },
        FunctionInfo { name: "TYPE", min_args: 1, max_args: 1, propagates_errors: false },
        FunctionInfo { name: "UPPER", min_args: 1, max_args: 1, propagates_errors: true },
        FunctionInfo { name: "VALUE", min_args: 1, max_args: 1, propagates_errors: true },
        FunctionInfo { name: "VAR.P", min_args: 1, max_args: MANY, propagates_errors: true },
        FunctionInfo { name: "VAR.S", min_args: 1, max_args: MANY, propagates_errors: true },
        FunctionInfo { name: "VLOOKUP", min_args: 3, max_args: 4, propagates_errors: true },
        FunctionInfo { name: "XOR", min_args: 1, max_args: MANY, propagates_errors: true }
    ];
    assert(t@ =~= table_spec());
    t
}

/// Every function takes at least as many arguments as its minimum and no more
/// than its maximum: the minimum never exceeds the maximum.
pub proof fn lemma_argument_counts_are_sane()
    ensures
        forall|i: int| 0 <= i < table_spec().len() ==> (#[trigger] table_spec()[i]).min_args <= table_spec()[i].max_args,
{
}

/// A name with ASCII small letters turned into capitals.
pub open spec fn ascii_uppercase(s: Seq<char>) -> Seq<char> {
    s.map_values(|c: char| crate::value::ascii_upper(c))
}

/// Whether one name comes strictly before another in the table's order:
/// character by character by code, a name before any longer one it begins.
pub open spec fn precedes(a: Seq<char>, b: Seq<char>) -> bool
    decreases a.len(),
{
    if a.len() == 0 {
        b.len() > 0
    } else if b.len() == 0 {
        false
    } else if a[0] != b[0] {
        (a[0] as u32) < (b[0] as u32)
    } else {
        precedes(a.drop_first(), b.drop_first())
    }
}

/// The table is sorted by name with no name twice, each name strictly before
/// the next, and every name is written in capitals, so that looking a name
/// up finds its own entry.
pub proof fn lemma_table_is_sorted_and_unique()
    ensures
        forall|i: int|
            0 <= i < table_spec().len() - 1 ==> precedes(#[trigger] table_spec()[i].name@, table_spec()[i + 1].name@),
        forall|i: int| 0 <= i < table_spec().len() ==> ascii_uppercase(#[trigger] table_spec()[i].name@) == table_spec()[i].name@,
        forall|i: int| 0 <= i < table_spec().len() ==> wanted_name(#[trigger] table_spec()[i].name@) == table_spec()[i].name@,
        forall|i: int| 0 <= i < table_spec().len() ==> entry_for(#[trigger] table_spec()[i].name@) is Some,
        forall|i: int, j: int|
            0 <= i < j < table_spec().len() ==> precedes(#[trigger] table_spec()[i].name@, #[trigger] table_spec()[j].name@),
        forall|i: int, j: int|
            0 <= i < table_spec().len() && 0 <= j < table_spec().len() && i != j ==> #[trigger] table_spec()[i].name@
                != #[trigger] table_spec()[j].name@,
        forall|i: int| 0 <= i < table_spec().len() ==> entry_for(#[trigger] table_spec()[i].name@) == Some(table_spec()[i]),
{
    lemma_names_spelled();
    lemma_sorted_throughout(table_spec().len() as int);
    assert forall|i: int, j: int|
        0 <= i < table_spec().len() && 0 <= j < table_spec().len() && i != j implies #[trigger] table_spec()[i].name@
            != #[trigger] table_spec()[j].name@ by {
        if i < j {
            assert(precedes(table_spec()[i].name@, table_spec()[j].name@));
            lemma_precedes_irreflexive(table_spec()[i].name@);
        } else {
            assert(precedes(table_spec()[j].name@, table_spec()[i].name@));
            lemma_precedes_irreflexive(table_spec()[j].name@);
        }
    }
    reveal_strlit("_XLFN.");
    assert forall|i: int| 0 <= i < table_spec().len() implies wanted_name(#[trigger] table_spec()[i].name@)
        == table_spec()[i].name@ && entry_for(table_spec()[i].name@) is Some by {
        let n = table_spec()[i].name@;
        assert(ascii_uppercase(n) == n);
        if n.len() >= 6 && n.subrange(0, 6) == "_XLFN."@ {
            assert(n.subrange(0, 6)[0] == n[0]);
        }
        assert(table_spec()[i].name@ == wanted_name(n));
    }
    assert forall|i: int| 0 <= i < table_spec().len() implies entry_for(#[trigger] table_spec()[i].name@) == Some(
        table_spec()[i],
    ) by {
        let n = table_spec()[i].name@;
        assert(wanted_name(n) == n);
        let k = choose|k: int| 0 <= k < table_spec().len() && (#[trigger] table_spec()[k]).name@ == wanted_name(n);
        if k != i {
            assert(table_spec()[k].name@ != table_spec()[i].name@);
        }
    }
}

/// No name comes before itself.
proof fn lemma_precedes_irreflexive(a: Seq<char>)
    ensures
        !precedes(a, a),
    decreases a.len(),
{
    if a.len() > 0 {
        lemma_precedes_irreflexive(a.drop_first());
    }
}

/// A name before one before a third is before the third.
proof fn lemma_precedes_transitive(a: Seq<char>, b: Seq<char>, c: Seq<char>)
    requires
        precedes(a, b),
        precedes(b, c),
    ensures
        precedes(a, c),
    decreases a.len(),
{
    if a.len() > 0 && b.len() > 0 && c.len() > 0 && a[0] == b[0] && b[0] == c[0] {
        lemma_precedes_transitive(a.drop_first(), b.drop_first(), c.drop_first());
    }
}

/// Every name of the table's first `n` comes before every later one of them.
proof fn lemma_sorted_throughout(n: int)
    requires
        0 <= n <= table_spec().len(),
    ensures
        forall|i: int, j: int| 0 <= i < j < n ==> precedes(#[trigger] table_spec()[i].name@, #[trigger] table_spec()[j].name@),
    decreases n,
{
    if n > 0 {
        lemma_sorted_throughout(n - 1);
        lemma_names_spelled();
        assert forall|i: int, j: int| 0 <= i < j < n implies precedes(
            #[trigger] table_spec()[i].name@,
            #[trigger] table_spec()[j].name@,
        ) by {
            if j == n - 1 && i < n - 2 {
                assert(precedes(table_spec()[i].name@, table_spec()[n - 2].name@));
                assert(precedes(table_spec()[n - 2].name@, table_spec()[n - 1].name@));
                lemma_precedes_transitive(table_spec()[i].name@, table_spec()[n - 2].name@, table_spec()[n - 1].name@);
            } else if j == n - 1 {
                assert(precedes(table_spec()[n - 2].name@, table_spec()[n - 1].name@));
            }
        }
    }
}

/// Looking up each function by name gives its documented argument counts:
/// the fewest and most arguments it takes, `MANY` where there is no limit,
/// and whether an error argument short-circuits it.
pub proof fn lemma_documented_signatures()
    ensures
        entry_for("ABS"@) == Some(FunctionInfo { name: "ABS", min_args: 1, max_args: 1, propagates_errors: true }),
        entry_for("ACOS"@) == Some(FunctionInfo { name: "ACOS", min_args: 1, max_args: 1, propagates_errors: true }),
        entry_for("AND"@) == Some(FunctionInfo { name: "AND", min_args: 1, max_args: MANY, propagates_errors: true }),
        entry_for("ASIN"@) == Some(FunctionInfo { name: "ASIN", min_args: 1, max_args: 1, propagates_errors: true }),
        entry_for("ATAN"@) == Some(FunctionInfo { name: "ATAN", min_args: 1, max_args: 1, propagates_errors: true }),
        entry_for("ATAN2"@) == Some(FunctionInfo { name: "ATAN2", min_args: 2, max_args: 2, propagates_errors: true }),
        entry_for("AVERAGE"@) == Some(FunctionInfo { name: "AVERAGE", min_args: 1, max_args: MANY, propagates_errors: true }),
        entry_for("AVERAGEIF"@) == Some(FunctionInfo { name: "AVERAGEIF", min_args: 2, max_args: 3, propagates_errors: true }),
        entry_for("CEILING"@) == Some(FunctionInfo { name: "CEILING", min_args: 2, max_args: 2, propagates_errors: true }),
        entry_for("CHAR"@) == Some(FunctionInfo { name: "CHAR", min_args: 1, max_args: 1, propagates_errors: true }),
        entry_for("CHOOSE"@) == Some(FunctionInfo { name: "CHOOSE", min_args: 2, max_args: MANY, propagates_errors: false }),
        entry_for("CODE"@) == Some(FunctionInfo { name: "CODE", min_args: 1, max_args: 1, propagates_errors: true }),
        entry_for("COLUMN"@) == Some(FunctionInfo { name: "COLUMN", min_args: 0, max_args: 1, propagates_errors: true }),
        entry_for("COLUMNS"@) == Some(FunctionInfo { name: "COLUMNS", min_args: 1, max_args: 1, propagates_errors: true }),
        entry_for("CONCAT"@) == Some(FunctionInfo { name: "CONCAT", min_args: 1, max_args: MANY, propagates_errors: true }),
        entry_for("CONCATENATE"@) == Some(FunctionInfo { name: "CONCATENATE", min_args: 1, max_args: MANY, propagates_errors: true }),
        entry_for("COS"@) == Some(FunctionInfo { name: "COS", min_args: 1, max_args: 1, propagates_errors: true }),
        entry_for("COUNT"@) == Some(FunctionInfo { name: "COUNT", min_args: 1, max_args: MANY, propagates_errors: true }),
        entry_for("COUNTA"@) == Some(FunctionInfo { name: "COUNTA", min_args: 1, max_args: MANY, propagates_errors: true }),
        entry_for("COUNTBLANK"@) == Some(FunctionInfo { name: "COUNTBLANK", min_args: 1, max_args: 1, propagates_errors: true }),
        entry_for("COUNTIF"@) == Some(FunctionInfo { name: "COUNTIF", min_args: 2, max_args: 2, propagates_errors: true }),
        entry_for("DEGREES"@) == Some(FunctionInfo { name: "DEGREES", min_args: 1, max_args: 1, propagates_errors: true }),
        entry_for("ERROR.TYPE"@) == Some(FunctionInfo { name: "ERROR.TYPE", min_args: 1, max_args: 1, propagates_errors: false }),
        entry_for("EVEN"@) == Some(FunctionInfo { name: "EVEN", min_args: 1, max_args: 1, propagates_errors: true }),
        entry_for("EXACT"@) == Some(FunctionInfo { name: "EXACT", min_args: 2, max_args: 2, propagates_errors: true }),
        entry_for("EXP"@) == Some(FunctionInfo { name: "EXP", min_args: 1, max_args: 1, propagates_errors: true }),
        entry_for("FIND"@) == Some(FunctionInfo { name: "FIND", min_args: 2, max_args: 3, propagates_errors: true }),
        entry_for("FLOOR"@) == Some(FunctionInfo { name: "FLOOR", min_args: 2, max_args: 2, propagates_errors: true }),
        entry_for("HLOOKUP"@) == Some(FunctionInfo { name: "HLOOKUP", min_args: 3, max_args: 4, propagates_errors: true }),
        entry_for("IF"@) == Some(FunctionInfo { name: "IF", min_args: 2, max_args: 3, propagates_errors: false }),
        entry_for("IFERROR"@) == Some(FunctionInfo { name: "IFERROR", min_args: 2, max_args: 2, propagates_errors: false }),
        entry_for("IFNA"@) == Some(FunctionInfo { name: "IFNA", min_args: 2, max_args: 2, propagates_errors: false }),
        entry_for("IFS"@) == Some(FunctionInfo { name: "IFS", min_args: 2, max_args: MANY, propagates_errors: false }),
        entry_for("INDEX"@) == Some(FunctionInfo { name: "INDEX", min_args: 2, max_args: 3, propagates_errors: true }),
        entry_for("INT"@) == Some(FunctionInfo { name: "INT", min_args: 1, max_args: 1, propagates_errors: true }),
        entry_for("ISBLANK"@) == Some(FunctionInfo { name: "ISBLANK", min_args: 1, max_args: 1, propagates_errors: false }),
        entry_for("ISERR"@) == Some(FunctionInfo { name: "ISERR", min_args: 1, max_args: 1, propagates_errors: false }),
        entry_for("ISERROR"@) == Some(FunctionInfo { name: "ISERROR", min_args: 1, max_args: 1, propagates_errors: false }),
        entry_for("ISLOGICAL"@) == Some(FunctionInfo { name: "ISLOGICAL", min_args: 1, max_args: 1, propagates_errors: false }),
        entry_for("ISNA"@) == Some(FunctionInfo { name: "ISNA", min_args: 1, max_args: 1, propagates_errors: false }),
        entry_for("ISNONTEXT"@) == Some(FunctionInfo { name: "ISNONTEXT", min_args: 1, max_args: 1, propagates_errors: false }),
        entry_for("ISNUMBER"@) == Some(FunctionInfo { name: "ISNUMBER", min_args: 1, max_args: 1, propagates_errors: false }),
        entry_for("ISTEXT"@) == Some(FunctionInfo { name: "ISTEXT", min_args: 1, max_args: 1, propagates_errors: false }),
        entry_for("LARGE"@) == Some(FunctionInfo { name: "LARGE", min_args: 2, max_args: 2, propagates_errors: true }),
        entry_for("LEFT"@) == Some(FunctionInfo { name: "LEFT", min_args: 1, max_args: 2, propagates_errors: true }),
        entry_for("LEN"@) == Some(FunctionInfo { name: "LEN", min_args: 1, max_args: 1, propagates_errors: true }),
        entry_for("LN"@) == Some(FunctionInfo { name: "LN", min_args: 1, max_args: 1, propagates_errors: true }),
        entry_for("LOG"@) == Some(FunctionInfo { name: "LOG", min_args: 1, max_args: 2, propagates_errors: true }),
        entry_for("LOG10"@) == Some(FunctionInfo { name: "LOG10", min_args: 1, max_args: 1, propagates_errors: true }),
        entry_for("LOWER"@) == Some(FunctionInfo { name: "LOWER", min_args: 1, max_args: 1, propagates_errors: true }),
        entry_for("MATCH"@) == Some(FunctionInfo { name: "MATCH", min_args: 2, max_args: 3, propagates_errors: true }),
        entry_for("MAX"@) == Some(FunctionInfo { name: "MAX", min_args: 1, max_args: MANY, propagates_errors: true }),
        entry_for("MEDIAN"@) == Some(FunctionInfo { name: "MEDIAN", min_args: 1, max_args: MANY, propagates_errors: true }),
        entry_for("MID"@) == Some(FunctionInfo { name: "MID", min_args: 3, max_args: 3, propagates_errors: true }),
        entry_for("MIN"@) == Some(FunctionInfo { name: "MIN", min_args: 1, max_args: MANY, propagates_errors: true }),
        entry_for("MOD"@) == Some(FunctionInfo { name: "MOD", min_args: 2, max_args: 2, propagates_errors: true }),
        entry_for("NA"@) == Some(FunctionInfo { name: "NA", min_args: 0, max_args: 0, propagates_errors: false }),
        entry_for("NOT"@) == Some(FunctionInfo { name: "NOT", min_args: 1, max_args: 1, propagates_errors: true }),
        entry_for("ODD"@) == Some(FunctionInfo { name: "ODD", min_args: 1, max_args: 1, propagates_errors: true }),
        entry_for("OR"@) == Some(FunctionInfo { name: "OR", min_args: 1, max_args: MANY, propagates_errors: true }),
        entry_for("PI"@) == Some(FunctionInfo { name: "PI", min_args: 0, max_args: 0, propagates_errors: true }),
        entry_for("POWER"@) == Some(FunctionInfo { name: "POWER", min_args: 2, max_args: 2, propagates_errors: true }),
        entry_for("PRODUCT"@) == Some(FunctionInfo { name: "PRODUCT", min_args: 1, max_args: MANY, propagates_errors: true }),
        entry_for("PROPER"@) == Some(FunctionInfo { name: "PROPER", min_args: 1, max_args: 1, propagates_errors: true }),
        entry_for("RADIANS"@) == Some(FunctionInfo { name: "RADIANS", min_args: 1, max_args: 1, propagates_errors: true }),
        entry_for("REPLACE"@) == Some(FunctionInfo { name: "REPLACE", min_args: 4, max_args: 4, propagates_errors: true }),
        entry_for("REPT"@) == Some(FunctionInfo { name: "REPT", min_args: 2, max_args: 2, propagates_errors: true }),
        entry_for("RIGHT"@) == Some(FunctionInfo { name: "RIGHT", min_args: 1, max_args: 2, propagates_errors: true }),
        entry_for("ROUND"@) == Some(FunctionInfo { name: "ROUND", min_args: 2, max_args: 2, propagates_errors: true }),
        entry_for("ROUNDDOWN"@) == Some(FunctionInfo { name: "ROUNDDOWN", min_args: 2, max_args: 2, propagates_errors: true }),
        entry_for("ROUNDUP"@) == Some(FunctionInfo { name: "ROUNDUP", min_args: 2, max_args: 2, propagates_errors: true }),
        entry_for("ROW"@) == Some(FunctionInfo { name: "ROW", min_args: 0, max_args: 1, propagates_errors: true }),
        entry_for("ROWS"@) == Some(FunctionInfo { name: "ROWS", min_args: 1, max_args: 1, propagates_errors: true }),
        entry_for("SEARCH"@) == Some(FunctionInfo { name: "SEARCH", min_args: 2, max_args: 3, propagates_errors: true }),
        entry_for("SIGN"@) == Some(FunctionInfo { name: "SIGN", min_args: 1, max_args: 1, propagates_errors: true }),
        entry_for("SIN"@) == Some(FunctionInfo { name: "SIN", min_args: 1, max_args: 1, propagates_errors: true }),
        entry_for("SMALL"@) == Some(FunctionInfo { name: "SMALL", min_args: 2, max_args: 2, propagates_errors: true }),
        entry_for("SQRT"@) == Some(FunctionInfo { name: "SQRT", min_args: 1, max_args: 1, propagates_errors: true }),
        entry_for("STDEV.P"@) == Some(FunctionInfo { name: "STDEV.P", min_args: 1, max_args: MANY, propagates_errors: true }),
        entry_for("STDEV.S"@) == Some(FunctionInfo { name: "STDEV.S", min_args: 1, max_args: MANY, propagates_errors: true }),
        entry_for("SUBSTITUTE"@) == Some(FunctionInfo { name: "SUBSTITUTE", min_args: 3, max_args: 4, propagates_errors: true }),
        entry_for("SUM"@) == Some(FunctionInfo { name: "SUM", min_args: 1, max_args: MANY, propagates_errors: true }),
        entry_for("SUMIF"@) == Some(FunctionInfo { name: "SUMIF", min_args: 2, max_args: 3, propagates_errors: true }),
        entry_for("SUMPRODUCT"@) == Some(FunctionInfo { name: "SUMPRODUCT", min_args: 1, max_args: MANY, propagates_errors: true }),
        entry_for("SUMSQ"@) == Some(FunctionInfo { name: "SUMSQ", min_args: 1, max_args: MANY, propagates_errors: true }),
        entry_for("TAN"@) == Some(FunctionInfo { name: "TAN", min_args: 1, max_args: 1, propagates_errors: true }),
        entry_for("TEXTJOIN"@) == Some(FunctionInfo { name: "TEXTJOIN", min_args: 3, max_args: MANY, propagates_errors: true }),
        entry_for("TRIM"@) == Some(FunctionInfo { name: "TRIM", min_args: 1, max_args: 1, propagates_errors: true }),
        entry_for("TRUNC"@) == Some(FunctionInfo { name: "TRUNC", min_args: 1, max_args: 2, propagates_errors: true }),
        entry_for("TYPE"@) == Some(FunctionInfo { name: "TYPE", min_args: 1, max_args: 1, propagates_errors: false }),
        entry_for("UPPER"@) == Some(FunctionInfo { name: "UPPER", min_args: 1, max_args: 1, propagates_errors: true }),
        entry_for("VALUE"@) == Some(FunctionInfo { name: "VALUE", min_args: 1, max_args: 1, propagates_errors: true }),
        entry_for("VAR.P"@) == Some(FunctionInfo { name: "VAR.P", min_args: 1, max_args: MANY, propagates_errors: true }),
        entry_for("VAR.S"@) == Some(FunctionInfo { name: "VAR.S", min_args: 1, max_args: MANY, propagates_errors: true }),
        entry_for("VLOOKUP"@) == Some(FunctionInfo { name: "VLOOKUP", min_args: 3, max_args: 4, propagates_errors: true }),
        entry_for("XOR"@) == Some(FunctionInfo { name: "XOR", min_args: 1, max_args: MANY, propagates_errors: true }),
{
    lemma_signatures_abs_to_code();
    lemma_signatures_column_to_even();
    lemma_signatures_exact_to_isblank();
    lemma_signatures_iserr_to_log();
    lemma_signatures_log10_to_or();
    lemma_signatures_pi_to_row();
    lemma_signatures_rows_to_sumproduct();
    lemma_signatures_sumsq_to_xor();
}

#[verifier::rlimit(60)]
proof fn lemma_signatures_abs_to_code()
    ensures
        entry_for("ABS"@) == Some(FunctionInfo { name: "ABS", min_args: 1, max_args: 1, propagates_errors: true }),
        entry_for("ACOS"@) == Some(FunctionInfo { name: "ACOS", min_args: 1, max_args: 1, propagates_errors: true }),
        entry_for("AND"@) == Some(FunctionInfo { name: "AND", min_args: 1, max_args: MANY, propagates_errors: true }),
        entry_for("ASIN"@) == Some(FunctionInfo { name: "ASIN", min_args: 1, max_args: 1, propagates_errors: true }),
        entry_for("ATAN"@) == Some(FunctionInfo { name: "ATAN", min_args: 1, max_args: 1, propagates_errors: true }),
        entry_for("ATAN2"@) == Some(FunctionInfo { name: "ATAN2", min_args: 2, max_args: 2, propagates_errors: true }),
        entry_for("AVERAGE"@) == Some(FunctionInfo { name: "AVERAGE", min_args: 1, max_args: MANY, propagates_errors: true }),
        entry_for("AVERAGEIF"@) == Some(FunctionInfo { name: "AVERAGEIF", min_args: 2, max_args: 3, propagates_errors: true }),
        entry_for("CEILING"@) == Some(FunctionInfo { name: "CEILING", min_args: 2, max_args: 2, propagates_errors: true }),
        entry_for("CHAR"@) == Some(FunctionInfo { name: "CHAR", min_args: 1, max_args: 1, propagates_errors: true }),
        entry_for("CHOOSE"@) == Some(FunctionInfo { name: "CHOOSE", min_args: 2, max_args: MANY, propagates_errors: false }),
        entry_for("CODE"@) == Some(FunctionInfo { name: "CODE", min_args: 1, max_args: 1, propagates_errors: true }),
{
    lemma_table_is_sorted_and_unique();
    assert(entry_for(table_spec()[0].name@) == Some(table_spec()[0]));
    assert(entry_for(table_spec()[1].name@) == Some(table_spec()[1]));
    assert(entry_for(table_spec()[2].name@) == Some(table_spec()[2]));
    assert(entry_for(table_spec()[3].name@) == Some(table_spec()[3]));
    assert(entry_for(table_spec()[4].name@) == Some(table_spec()[4]));
    assert(entry_for(table_spec()[5].name@) == Some(table_spec()[5]));
    assert(entry_for(table_spec()[6].name@) == Some(table_spec()[6]));
    assert(entry_for(table_spec()[7].name@) == Some(table_spec()[7]));
    assert(entry_for(table_spec()[8].name@) == Some(table_spec()[8]));
    assert(entry_for(table_spec()[9].name@) == Some(table_spec()[9]));
    assert(entry_for(table_spec()[10].name@) == Some(table_spec()[10]));
    assert(entry_for(table_spec()[11].name@) == Some(table_spec()[11]));
}

#[verifier::rlimit(60)]
proof fn lemma_signatures_column_to_even()
    ensures
        entry_for("COLUMN"@) == Some(FunctionInfo { name: "COLUMN", min_args: 0, max_args: 1, propagates_errors: true }),
        entry_for("COLUMNS"@) == Some(FunctionInfo { name: "COLUMNS", min_args: 1, max_args: 1, propagates_errors: true }),
        entry_for("CONCAT"@) == Some(FunctionInfo { name: "CONCAT", min_args: 1, max_args: MANY, propagates_errors: true }),
        entry_for("CONCATENATE"@) == Some(FunctionInfo { name: "CONCATENATE", min_args: 1, max_args: MANY, propagates_errors: true }),
        entry_for("COS"@) == Some(FunctionInfo { name: "COS", min_args: 1, max_args: 1, propagates_errors: true }),
        entry_for("COUNT"@) == Some(FunctionInfo { name: "COUNT", min_args: 1, max_args: MANY, propagates_errors: true }),
        entry_for("COUNTA"@) == Some(FunctionInfo { name: "COUNTA", min_args: 1, max_args: MANY, propagates_errors: true }),
        entry_for("COUNTBLANK"@) == Some(FunctionInfo { name: "COUNTBLANK", min_args: 1, max_args: 1, propagates_errors: true }),
        entry_for("COUNTIF"@) == Some(FunctionInfo { name: "COUNTIF", min_args: 2, max_args: 2, propagates_errors: true }),
        entry_for("DEGREES"@) == Some(FunctionInfo { name: "DEGREES", min_args: 1, max_args: 1, propagates_errors: true }),
        entry_for("ERROR.TYPE"@) == Some(FunctionInfo { name: "ERROR.TYPE", min_args: 1, max_args: 1, propagates_errors: false }),
        entry_for("EVEN"@) == Some(FunctionInfo { name: "EVEN", min_args: 1, max_args: 1, propagates_errors: true }),
{
    lemma_table_is_sorted_and_unique();
    assert(entry_for(table_spec()[12].name@) == Some(table_spec()[12]));
    assert(entry_for(table_spec()[13].name@) == Some(table_spec()[13]));
    assert(entry_for(table_spec()[14].name@) == Some(table_spec()[14]));
    assert(entry_for(table_spec()[15].name@) == Some(table_spec()[15]));
    assert(entry_for(table_spec()[16].name@) == Some(table_spec()[16]));
    assert(entry_for(table_spec()[17].name@) == Some(table_spec()[17]));
    assert(entry_for(table_spec()[18].name@) == Some(table_spec()[18]));
    assert(entry_for(table_spec()[19].name@) == Some(table_spec()[19]));
    assert(entry_for(table_spec()[20].name@) == Some(table_spec()[20]));
    assert(entry_for(table_spec()[21].name@) == Some(table_spec()[21]));
    assert(entry_for(table_spec()[22].name@) == Some(table_spec()[22]));
    assert(entry_for(table_spec()[23].name@) == Some(table_spec()[23]));
}

#[verifier::rlimit(60)]
proof fn lemma_signatures_exact_to_isblank()
    ensures
        entry_for("EXACT"@) == Some(FunctionInfo { name: "EXACT", min_args: 2, max_args: 2, propagates_errors: true }),
        entry_for("EXP"@) == Some(FunctionInfo { name: "EXP", min_args: 1, max_args: 1, propagates_errors: true }),
        entry_for("FIND"@) == Some(FunctionInfo { name: "FIND", min_args: 2, max_args: 3, propagates_errors: true }),
        entry_for("FLOOR"@) == Some(FunctionInfo { name: "FLOOR", min_args: 2, max_args: 2, propagates_errors: true }),
        entry_for("HLOOKUP"@) == Some(FunctionInfo { name: "HLOOKUP", min_args: 3, max_args: 4, propagates_errors: true }),
        entry_for("IF"@) == Some(FunctionInfo { name: "IF", min_args: 2, max_args: 3, propagates_errors: false }),
        entry_for("IFERROR"@) == Some(FunctionInfo { name: "IFERROR", min_args: 2, max_args: 2, propagates_errors: false }),
        entry_for("IFNA"@) == Some(FunctionInfo { name: "IFNA", min_args: 2, max_args: 2, propagates_errors: false }),
        entry_for("IFS"@) == Some(FunctionInfo { name: "IFS", min_args: 2, max_args: MANY, propagates_errors: false }),
        entry_for("INDEX"@) == Some(FunctionInfo { name: "INDEX", min_args: 2, max_args: 3, propagates_errors: true }),
        entry_for("INT"@) == Some(FunctionInfo { name: "INT", min_args: 1, max_args: 1, propagates_errors: true }),
        entry_for("ISBLANK"@) == Some(FunctionInfo { name: "ISBLANK", min_args: 1, max_args: 1, propagates_errors: false }),
{
    lemma_table_is_sorted_and_unique();
    assert(entry_for(table_spec()[24].name@) == Some(table_spec()[24]));
    assert(entry_for(table_spec()[25].name@) == Some(table_spec()[25]));
    assert(entry_for(table_spec()[26].name@) == Some(table_spec()[26]));
    assert(entry_for(table_spec()[27].name@) == Some(table_spec()[27]));
    assert(entry_for(table_spec()[28].name@) == Some(table_spec()[28]));
    assert(entry_for(table_spec()[29].name@) == Some(table_spec()[29]));
    assert(entry_for(table_spec()[30].name@) == Some(table_spec()[30]));
    assert(entry_for(table_spec()[31].name@) == Some(table_spec()[31]));
    assert(entry_for(table_spec()[32].name@) == Some(table_spec()[32]));
    assert(entry_for(table_spec()[33].name@) == Some(table_spec()[33]));
    assert(entry_for(table_spec()[34].name@) == Some(table_spec()[34]));
    assert(entry_for(table_spec()[35].name@) == Some(table_spec()[35]));
}

#[verifier::rlimit(60)]
proof fn lemma_signatures_iserr_to_log()
    ensures
        entry_for("ISERR"@) == Some(FunctionInfo { name: "ISERR", min_args: 1, max_args: 1, propagates_errors: false }),
        entry_for("ISERROR"@) == Some(FunctionInfo { name: "ISERROR", min_args: 1, max_args: 1, propagates_errors: false }),
        entry_for("ISLOGICAL"@) == Some(FunctionInfo { name: "ISLOGICAL", min_args: 1, max_args: 1, propagates_errors: false }),
        entry_for("ISNA"@) == Some(FunctionInfo { name: "ISNA", min_args: 1, max_args: 1, propagates_errors: false }),
        entry_for("ISNONTEXT"@) == Some(FunctionInfo { name: "ISNONTEXT", min_args: 1, max_args: 1, propagates_errors: false }),
        entry_for("ISNUMBER"@) == Some(FunctionInfo { name: "ISNUMBER", min_args: 1, max_args: 1, propagates_errors: false }),
        entry_for("ISTEXT"@) == Some(FunctionInfo { name: "ISTEXT", min_args: 1, max_args: 1, propagates_errors: false }),
        entry_for("LARGE"@) == Some(FunctionInfo { name: "LARGE", min_args: 2, max_args: 2, propagates_errors: true }),
        entry_for("LEFT"@) == Some(FunctionInfo { name: "LEFT", min_args: 1, max_args: 2, propagates_errors: true }),
        entry_for("LEN"@) == Some(FunctionInfo { name: "LEN", min_args: 1, max_args: 1, propagates_errors: true }),
        entry_for("LN"@) == Some(FunctionInfo { name: "LN", min_args: 1, max_args: 1, propagates_errors: true }),
        entry_for("LOG"@) == Some(FunctionInfo { name: "LOG", min_args: 1, max_args: 2, propagates_errors: true }),
{
    lemma_table_is_sorted_and_unique();
    assert(entry_for(table_spec()[36].name@) == Some(table_spec()[36]));
    assert(entry_for(table_spec()[37].name@) == Some(table_spec()[37]));
    assert(entry_for(table_spec()[38].name@) == Some(table_spec()[38]));
    assert(entry_for(table_spec()[39].name@) == Some(table_spec()[39]));
    assert(entry_for(table_spec()[40].name@) == Some(table_spec()[40]));
    assert(entry_for(table_spec()[41].name@) == Some(table_spec()[41]));
    assert(entry_for(table_spec()[42].name@) == Some(table_spec()[42]));
    assert(entry_for(table_spec()[43].name@) == Some(table_spec()[43]));
    assert(entry_for(table_spec()[44].name@) == Some(table_spec()[44]));
    assert(entry_for(table_spec()[45].name@) == Some(table_spec()[45]));
    assert(entry_for(table_spec()[46].name@) == Some(table_spec()[46]));
    assert(entry_for(table_spec()[47].name@) == Some(table_spec()[47]));
}

#[verifier::rlimit(60)]
proof fn lemma_signatures_log10_to_or()
    ensures
        entry_for("LOG10"@) == Some(FunctionInfo { name: "LOG10", min_args: 1, max_args: 1, propagates_errors: true }),
        entry_for("LOWER"@) == Some(FunctionInfo { name: "LOWER", min_args: 1, max_args: 1, propagates_errors: true }),
        entry_for("MATCH"@) == Some(FunctionInfo { name: "MATCH", min_args: 2, max_args: 3, propagates_errors: true }),
        entry_for("MAX"@) == Some(FunctionInfo { name: "MAX", min_args: 1, max_args: MANY, propagates_errors: true }),
        entry_for("MEDIAN"@) == Some(FunctionInfo { name: "MEDIAN", min_args: 1, max_args: MANY, propagates_errors: true }),
        entry_for("MID"@) == Some(FunctionInfo { name: "MID", min_args: 3, max_args: 3, propagates_errors: true }),
        entry_for("MIN"@) == Some(FunctionInfo { name: "MIN", min_args: 1, max_args: MANY, propagates_errors: true }),
        entry_for("MOD"@) == Some(FunctionInfo { name: "MOD", min_args: 2, max_args: 2, propagates_errors: true }),
        entry_for("NA"@) == Some(FunctionInfo { name: "NA", min_args: 0, max_args: 0, propagates_errors: false }),
        entry_for("NOT"@) == Some(FunctionInfo { name: "NOT", min_args: 1, max_args: 1, propagates_errors: true }),
        entry_for("ODD"@) == Some(FunctionInfo { name: "ODD", min_args: 1, max_args: 1, propagates_errors: true }),
        entry_for("OR"@) == Some(FunctionInfo { name: "OR", min_args: 1, max_args: MANY, propagates_errors: true }),
{
    lemma_table_is_sorted_and_unique();
    assert(entry_for(table_spec()[48].name@) == Some(table_spec()[48]));
    assert(entry_for(table_spec()[49].name@) == Some(table_spec()[49]));
    assert(entry_for(table_spec()[50].name@) == Some(table_spec()[50]));
    assert(entry_for(table_spec()[51].name@) == Some(table_spec()[51]));
    assert(entry_for(table_spec()[52].name@) == Some(table_spec()[52]));
    assert(entry_for(table_spec()[53].name@) == Some(table_spec()[53]));
    assert(entry_for(table_spec()[54].name@) == Some(table_spec()[54]));
    assert(entry_for(table_spec()[55].name@) == Some(table_spec()[55]));
    assert(entry_for(table_spec()[56].name@) == Some(table_spec()[56]));
    assert(entry_for(table_spec()[57].name@) == Some(table_spec()[57]));
    assert(entry_for(table_spec()[58].name@) == Some(table_spec()[58]));
    assert(entry_for(table_spec()[59].name@) == Some(table_spec()[59]));
}

#[verifier::rlimit(60)]
proof fn lemma_signatures_pi_to_row()
    ensures
        entry_for("PI"@) == Some(FunctionInfo { name: "PI", min_args: 0, max_args: 0, propagates_errors: true }),
        entry_for("POWER"@) == Some(FunctionInfo { name: "POWER", min_args: 2, max_args: 2, propagates_errors: true }),
        entry_for("PRODUCT"@) == Some(FunctionInfo { name: "PRODUCT", min_args: 1, max_args: MANY, propagates_errors: true }),
        entry_for("PROPER"@) == Some(FunctionInfo { name: "PROPER", min_args: 1, max_args: 1, propagates_errors: true }),
        entry_for("RADIANS"@) == Some(FunctionInfo { name: "RADIANS", min_args: 1, max_args: 1, propagates_errors: true }),
        entry_for("REPLACE"@) == Some(FunctionInfo { name: "REPLACE", min_args: 4, max_args: 4, propagates_errors: true }),
        entry_for("REPT"@) == Some(FunctionInfo { name: "REPT", min_args: 2, max_args: 2, propagates_errors: true }),
        entry_for("RIGHT"@) == Some(FunctionInfo { name: "RIGHT", min_args: 1, max_args: 2, propagates_errors: true }),
        entry_for("ROUND"@) == Some(FunctionInfo { name: "ROUND", min_args: 2, max_args: 2, propagates_errors: true }),
        entry_for("ROUNDDOWN"@) == Some(FunctionInfo { name: "ROUNDDOWN", min_args: 2, max_args: 2, propagates_errors: true }),
        entry_for("ROUNDUP"@) == Some(FunctionInfo { name: "ROUNDUP", min_args: 2, max_args: 2, propagates_errors: true }),
        entry_for("ROW"@) == Some(FunctionInfo { name: "ROW", min_args: 0, max_args: 1, propagates_errors: true }),
{
    lemma_table_is_sorted_and_unique();
    assert(entry_for(table_spec()[60].name@) == Some(table_spec()[60]));
    assert(entry_for(table_spec()[61].name@) == Some(table_spec()[61]));
    assert(entry_for(table_spec()[62].name@) == Some(table_spec()[62]));
    assert(entry_for(table_spec()[63].name@) == Some(table_spec()[63]));
    assert(entry_for(table_spec()[64].name@) == Some(table_spec()[64]));
    assert(entry_for(table_spec()[65].name@) == Some(table_spec()[65]));
    assert(entry_for(table_spec()[66].name@) == Some(table_spec()[66]));
    assert(entry_for(table_spec()[67].name@) == Some(table_spec()[67]));
    assert(entry_for(table_spec()[68].name@) == Some(table_spec()[68]));
    assert(entry_for(table_spec()[69].name@) == Some(table_spec()[69]));
    assert(entry_for(table_spec()[70].name@) == Some(table_spec()[70]));
    assert(entry_for(table_spec()[71].name@) == Some(table_spec()[71]));
}

#[verifier::rlimit(60)]
proof fn lemma_signatures_rows_to_sumproduct()
    ensures
        entry_for("ROWS"@) == Some(FunctionInfo { name: "ROWS", min_args: 1, max_args: 1, propagates_errors: true }),
        entry_for("SEARCH"@) == Some(FunctionInfo { name: "SEARCH", min_args: 2, max_args: 3, propagates_errors: true }),
        entry_for("SIGN"@) == Some(FunctionInfo { name: "SIGN", min_args: 1, max_args: 1, propagates_errors: true }),
        entry_for("SIN"@) == Some(FunctionInfo { name: "SIN", min_args: 1, max_args: 1, propagates_errors: true }),
        entry_for("SMALL"@) == Some(FunctionInfo { name: "SMALL", min_args: 2, max_args: 2, propagates_errors: true }),
        entry_for("SQRT"@) == Some(FunctionInfo { name: "SQRT", min_args: 1, max_args: 1, propagates_errors: true }),
        entry_for("STDEV.P"@) == Some(FunctionInfo { name: "STDEV.P", min_args: 1, max_args: MANY, propagates_errors: true }),
        entry_for("STDEV.S"@) == Some(FunctionInfo { name: "STDEV.S", min_args: 1, max_args: MANY, propagates_errors: true }),
        entry_for("SUBSTITUTE"@) == Some(FunctionInfo { name: "SUBSTITUTE", min_args: 3, max_args: 4, propagates_errors: true }),
        entry_for("SUM"@) == Some(FunctionInfo { name: "SUM", min_args: 1, max_args: MANY, propagates_errors: true }),
        entry_for("SUMIF"@) == Some(FunctionInfo { name: "SUMIF", min_args: 2, max_args: 3, propagates_errors: true }),
        entry_for("SUMPRODUCT"@) == Some(FunctionInfo { name: "SUMPRODUCT", min_args: 1, max_args: MANY, propagates_errors: true }),
{
    lemma_table_is_sorted_and_unique();
    assert(entry_for(table_spec()[72].name@) == Some(table_spec()[72]));
    assert(entry_for(table_spec()[73].name@) == Some(table_spec()[73]));
    assert(entry_for(table_spec()[74].name@) == Some(table_spec()[74]));
    assert(entry_for(table_spec()[75].name@) == Some(table_spec()[75]));
    assert(entry_for(table_spec()[76].name@) == Some(table_spec()[76]));
    assert(entry_for(table_spec()[77].name@) == Some(table_spec()[77]));
    assert(entry_for(table_spec()[78].name@) == Some(table_spec()[78]));
    assert(entry_for(table_spec()[79].name@) == Some(table_spec()[79]));
    assert(entry_for(table_spec()[80].name@) == Some(table_spec()[80]));
    assert(entry_for(table_spec()[81].name@) == Some(table_spec()[81]));
    assert(entry_for(table_spec()[82].name@) == Some(table_spec()[82]));
    assert(entry_for(table_spec()[83].name@) == Some(table_spec()[83]));
}

#[verifier::rlimit(60)]
proof fn lemma_signatures_sumsq_to_xor()
    ensures
        entry_for("SUMSQ"@) == Some(FunctionInfo { name: "SUMSQ", min_args: 1, max_args: MANY, propagates_errors: true }),
        entry_for("TAN"@) == Some(FunctionInfo { name: "TAN", min_args: 1, max_args: 1, propagates_errors: true }),
        entry_for("TEXTJOIN"@) == Some(FunctionInfo { name: "TEXTJOIN", min_args: 3, max_args: MANY, propagates_errors: true }),
        entry_for("TRIM"@) == Some(FunctionInfo { name: "TRIM", min_args: 1, max_args: 1, propagates_errors: true }),
        entry_for("TRUNC"@) == Some(FunctionInfo { name: "TRUNC", min_args: 1, max_args: 2, propagates_errors: true }),
        entry_for("TYPE"@) == Some(FunctionInfo { name: "TYPE", min_args: 1, max_args: 1, propagates_errors: false }),
        entry_for("UPPER"@) == Some(FunctionInfo { name: "UPPER", min_args: 1, max_args: 1, propagates_errors: true }),
        entry_for("VALUE"@) == Some(FunctionInfo { name: "VALUE", min_args: 1, max_args: 1, propagates_errors: true }),
        entry_for("VAR.P"@) == Some(FunctionInfo { name: "VAR.P", min_args: 1, max_args: MANY, propagates_errors: true }),
        entry_for("VAR.S"@) == Some(FunctionInfo { name: "VAR.S", min_args: 1, max_args: MANY, propagates_errors: true }),
        entry_for("VLOOKUP"@) == Some(FunctionInfo { name: "VLOOKUP", min_args: 3, max_args: 4, propagates_errors: true }),
        entry_for("XOR"@) == Some(FunctionInfo { name: "XOR", min_args: 1, max_args: MANY, propagates_errors: true }),
{
    lemma_table_is_sorted_and_unique();
    assert(entry_for(table_spec()[84].name@) == Some(table_spec()[84]));
    assert(entry_for(table_spec()[85].name@) == Some(table_spec()[85]));
    assert(entry_for(table_spec()[86].name@) == Some(table_spec()[86]));
    assert(entry_for(table_spec()[87].name@) == Some(table_spec()[87]));
    assert(entry_for(table_spec()[88].name@) == Some(table_spec()[88]));
    assert(entry_for(table_spec()[89].name@) == Some(table_spec()[89]));
    assert(entry_for(table_spec()[90].name@) == Some(table_spec()[90]));
    assert(entry_for(table_spec()[91].name@) == Some(table_spec()[91]));
    assert(entry_for(table_spec()[92].name@) == Some(table_spec()[92]));
    assert(entry_for(table_spec()[93].name@) == Some(table_spec()[93]));
    assert(entry_for(table_spec()[94].name@) == Some(table_spec()[94]));
    assert(entry_for(table_spec()[95].name@) == Some(table_spec()[95]));
}



/// Each name comes before the next; every name is in capitals and does not
/// begin with an underscore.
proof fn lemma_names_spelled()
    ensures
        forall|i: int|
            0 <= i < table_spec().len() - 1 ==> precedes(#[trigger] table_spec()[i].name@, table_spec()[i + 1].name@),
        forall|i: int| 0 <= i < table_spec().len() ==> ascii_uppercase(#[trigger] table_spec()[i].name@) == table_spec()[i].name@,
        forall|i: int| 0 <= i < table_spec().len() ==> (#[trigger] table_spec()[i].name@).len() > 0 && table_spec()[i].name@[0] != '_',
{
    reveal_with_fuel(precedes, 10);
    reveal_strlit("ABS");
    reveal_strlit("ACOS");
    reveal_strlit("AND");
    reveal_strlit("ASIN");
    reveal_strlit("ATAN");
    reveal_strlit("ATAN2");
    reveal_strlit("AVERAGE");
    reveal_strlit("AVERAGEIF");
    reveal_strlit("CEILING");
    reveal_strlit("CHAR");
    reveal_strlit("CHOOSE");
    reveal_strlit("CODE");
    reveal_strlit("COLUMN");
    reveal_strlit("COLUMNS");
    reveal_strlit("CONCAT");
    reveal_strlit("CONCATENATE");
    reveal_strlit("COS");
    reveal_strlit("COUNT");
    reveal_strlit("COUNTA");
    reveal_strlit("COUNTBLANK");
    reveal_strlit("COUNTIF");
    reveal_strlit("DEGREES");
    reveal_strlit("ERROR.TYPE");
    reveal_strlit("EVEN");
    reveal_strlit("EXACT");
    reveal_strlit("EXP");
    reveal_strlit("FIND");
    reveal_strlit("FLOOR");
    reveal_strlit("HLOOKUP");
    reveal_strlit("IF");
    reveal_strlit("IFERROR");
    reveal_strlit("IFNA");
    reveal_strlit("IFS");
    reveal_strlit("INDEX");
    reveal_strlit("INT");
    reveal_strlit("ISBLANK");
    reveal_strlit("ISERR");
    reveal_strlit("ISERROR");
    reveal_strlit("ISLOGICAL");
    reveal_strlit("ISNA");
    reveal_strlit("ISNONTEXT");
    reveal_strlit("ISNUMBER");
    reveal_strlit("ISTEXT");
    reveal_strlit("LARGE");
    reveal_strlit("LEFT");
    reveal_strlit("LEN");
    reveal_strlit("LN");
    reveal_strlit("LOG");
    reveal_strlit("LOG10");
    reveal_strlit("LOWER");
    reveal_strlit("MATCH");
    reveal_strlit("MAX");
    reveal_strlit("MEDIAN");
    reveal_strlit("MID");
    reveal_strlit("MIN");
    reveal_strlit("MOD");
    reveal_strlit("NA");
    reveal_strlit("NOT");
    reveal_strlit("ODD");
    reveal_strlit("OR");
    reveal_strlit("PI");
    reveal_strlit("POWER");
    reveal_strlit("PRODUCT");
    reveal_strlit("PROPER");
    reveal_strlit("RADIANS");
    reveal_strlit("REPLACE");
    reveal_strlit("REPT");
    reveal_strlit("RIGHT");
    reveal_strlit("ROUND");
    reveal_strlit("ROUNDDOWN");
    reveal_strlit("ROUNDUP");
    reveal_strlit("ROW");
    reveal_strlit("ROWS");
    reveal_strlit("SEARCH");
    reveal_strlit("SIGN");
    reveal_strlit("SIN");
    reveal_strlit("SMALL");
    reveal_strlit("SQRT");
    reveal_strlit("STDEV.P");
    reveal_strlit("STDEV.S");
    reveal_strlit("SUBSTITUTE");
    reveal_strlit("SUM");
    reveal_strlit("SUMIF");
    reveal_strlit("SUMPRODUCT");
    reveal_strlit("SUMSQ");
    reveal_strlit("TAN");
    reveal_strlit("TEXTJOIN");
    reveal_strlit("TRIM");
    reveal_strlit("TRUNC");
    reveal_strlit("TYPE");
    reveal_strlit("UPPER");
    reveal_strlit("VALUE");
    reveal_strlit("VAR.P");
    reveal_strlit("VAR.S");
    reveal_strlit("VLOOKUP");
    reveal_strlit("XOR");
    assert(precedes("ABS"@, "ACOS"@));
    assert(precedes("ACOS"@, "AND"@));
    assert(precedes("AND"@, "ASIN"@));
    assert(precedes("ASIN"@, "ATAN"@));
    assert(precedes("ATAN"@, "ATAN2"@));
    assert(precedes("ATAN2"@, "AVERAGE"@));
    assert(precedes("AVERAGE"@, "AVERAGEIF"@));
    assert(precedes("AVERAGEIF"@, "CEILING"@));
    assert(precedes("CEILING"@, "CHAR"@));
    assert(precedes("CHAR"@, "CHOOSE"@));
    assert(precedes("CHOOSE"@, "CODE"@));
    assert(precedes("CODE"@, "COLUMN"@));
    assert(precedes("COLUMN"@, "COLUMNS"@));
    assert(precedes("COLUMNS"@, "CONCAT"@));
    assert(precedes("CONCAT"@, "CONCATENATE"@));
    assert(precedes("CONCATENATE"@, "COS"@));
    assert(precedes("COS"@, "COUNT"@));
    assert(precedes("COUNT"@, "COUNTA"@));
    assert(precedes("COUNTA"@, "COUNTBLANK"@));
    assert(precedes("COUNTBLANK"@, "COUNTIF"@));
    assert(precedes("COUNTIF"@, "DEGREES"@));
    assert(precedes("DEGREES"@, "ERROR.TYPE"@));
    assert(precedes("ERROR.TYPE"@, "EVEN"@));
    assert(precedes("EVEN"@, "EXACT"@));
    assert(precedes("EXACT"@, "EXP"@));
    assert(precedes("EXP"@, "FIND"@));
    assert(precedes("FIND"@, "FLOOR"@));
    assert(precedes("FLOOR"@, "HLOOKUP"@));
    assert(precedes("HLOOKUP"@, "IF"@));
    assert(precedes("IF"@, "IFERROR"@));
    assert(precedes("IFERROR"@, "IFNA"@));
    assert(precedes("IFNA"@, "IFS"@));
    assert(precedes("IFS"@, "INDEX"@));
    assert(precedes("INDEX"@, "INT"@));
    assert(precedes("INT"@, "ISBLANK"@));
    assert(precedes("ISBLANK"@, "ISERR"@));
    assert(precedes("ISERR"@, "ISERROR"@));
    assert(precedes("ISERROR"@, "ISLOGICAL"@));
    assert(precedes("ISLOGICAL"@, "ISNA"@));
    assert(precedes("ISNA"@, "ISNONTEXT"@));
    assert(precedes("ISNONTEXT"@, "ISNUMBER"@));
    assert(precedes("ISNUMBER"@, "ISTEXT"@));
    assert(precedes("ISTEXT"@, "LARGE"@));
    assert(precedes("LARGE"@, "LEFT"@));
    assert(precedes("LEFT"@, "LEN"@));
    assert(precedes("LEN"@, "LN"@));
    assert(precedes("LN"@, "LOG"@));
    assert(precedes("LOG"@, "LOG10"@));
    assert(precedes("LOG10"@, "LOWER"@));
    assert(precedes("LOWER"@, "MATCH"@));
    assert(precedes("MATCH"@, "MAX"@));
    assert(precedes("MAX"@, "MEDIAN"@));
    assert(precedes("MEDIAN"@, "MID"@));
    assert(precedes("MID"@, "MIN"@));
    assert(precedes("MIN"@, "MOD"@));
    assert(precedes("MOD"@, "NA"@));
    assert(precedes("NA"@, "NOT"@));
    assert(precedes("NOT"@, "ODD"@));
    assert(precedes("ODD"@, "OR"@));
    assert(precedes("OR"@, "PI"@));
    assert(precedes("PI"@, "POWER"@));
    assert(precedes("POWER"@, "PRODUCT"@));
    assert(precedes("PRODUCT"@, "PROPER"@));
    assert(precedes("PROPER"@, "RADIANS"@));
    assert(precedes("RADIANS"@, "REPLACE"@));
    assert(precedes("REPLACE"@, "REPT"@));
    assert(precedes("REPT"@, "RIGHT"@));
    assert(precedes("RIGHT"@, "ROUND"@));
    assert(precedes("ROUND"@, "ROUNDDOWN"@));
    assert(precedes("ROUNDDOWN"@, "ROUNDUP"@));
    assert(precedes("ROUNDUP"@, "ROW"@));
    assert(precedes("ROW"@, "ROWS"@));
    assert(precedes("ROWS"@, "SEARCH"@));
    assert(precedes("SEARCH"@, "SIGN"@));
    assert(precedes("SIGN"@, "SIN"@));
    assert(precedes("SIN"@, "SMALL"@));
    assert(precedes("SMALL"@, "SQRT"@));
    assert(precedes("SQRT"@, "STDEV.P"@));
    assert(precedes("STDEV.P"@, "STDEV.S"@));
    assert(precedes("STDEV.S"@, "SUBSTITUTE"@));
    assert(precedes("SUBSTITUTE"@, "SUM"@));
    assert(precedes("SUM"@, "SUMIF"@));
    assert(precedes("SUMIF"@, "SUMPRODUCT"@));
    assert(precedes("SUMPRODUCT"@, "SUMSQ"@));
    assert(precedes("SUMSQ"@, "TAN"@));
    assert(precedes("TAN"@, "TEXTJOIN"@));
    assert(precedes("TEXTJOIN"@, "TRIM"@));
    assert(precedes("TRIM"@, "TRUNC"@));
    assert(precedes("TRUNC"@, "TYPE"@));
    assert(precedes("TYPE"@, "UPPER"@));
    assert(precedes("UPPER"@, "VALUE"@));
    assert(precedes("VALUE"@, "VAR.P"@));
    assert(precedes("VAR.P"@, "VAR.S"@));
    assert(precedes("VAR.S"@, "VLOOKUP"@));
    assert(precedes("VLOOKUP"@, "XOR"@));
    assert(ascii_uppercase("ABS"@) =~= "ABS"@);
    assert(ascii_uppercase("ACOS"@) =~= "ACOS"@);
    assert(ascii_uppercase("AND"@) =~= "AND"@);
    assert(ascii_uppercase("ASIN"@) =~= "ASIN"@);
    assert(ascii_uppercase("ATAN"@) =~= "ATAN"@);
    assert(ascii_uppercase("ATAN2"@) =~= "ATAN2"@);
    assert(ascii_uppercase("AVERAGE"@) =~= "AVERAGE"@);
    assert(ascii_uppercase("AVERAGEIF"@) =~= "AVERAGEIF"@);
    assert(ascii_uppercase("CEILING"@) =~= "CEILING"@);
    assert(ascii_uppercase("CHAR"@) =~= "CHAR"@);
    assert(ascii_uppercase("CHOOSE"@) =~= "CHOOSE"@);
    assert(ascii_uppercase("CODE"@) =~= "CODE"@);
    assert(ascii_uppercase("COLUMN"@) =~= "COLUMN"@);
    assert(ascii_uppercase("COLUMNS"@) =~= "COLUMNS"@);
    assert(ascii_uppercase("CONCAT"@) =~= "CONCAT"@);
    assert(ascii_uppercase("CONCATENATE"@) =~= "CONCATENATE"@);
    assert(ascii_uppercase("COS"@) =~= "COS"@);
    assert(ascii_uppercase("COUNT"@) =~= "COUNT"@);
    assert(ascii_uppercase("COUNTA"@) =~= "COUNTA"@);
    assert(ascii_uppercase("COUNTBLANK"@) =~= "COUNTBLANK"@);
    assert(ascii_uppercase("COUNTIF"@) =~= "COUNTIF"@);
    assert(ascii_uppercase("DEGREES"@) =~= "DEGREES"@);
    assert(ascii_uppercase("ERROR.TYPE"@) =~= "ERROR.TYPE"@);
    assert(ascii_uppercase("EVEN"@) =~= "EVEN"@);
    assert(ascii_uppercase("EXACT"@) =~= "EXACT"@);
    assert(ascii_uppercase("EXP"@) =~= "EXP"@);
    assert(ascii_uppercase("FIND"@) =~= "FIND"@);
    assert(ascii_uppercase("FLOOR"@) =~= "FLOOR"@);
    assert(ascii_uppercase("HLOOKUP"@) =~= "HLOOKUP"@);
    assert(ascii_uppercase("IF"@) =~= "IF"@);
    assert(ascii_uppercase("IFERROR"@) =~= "IFERROR"@);
    assert(ascii_uppercase("IFNA"@) =~= "IFNA"@);
    assert(ascii_uppercase("IFS"@) =~= "IFS"@);
    assert(ascii_uppercase("INDEX"@) =~= "INDEX"@);
    assert(ascii_uppercase("INT"@) =~= "INT"@);
    assert(ascii_uppercase("ISBLANK"@) =~= "ISBLANK"@);
    assert(ascii_uppercase("ISERR"@) =~= "ISERR"@);
    assert(ascii_uppercase("ISERROR"@) =~= "ISERROR"@);
    assert(ascii_uppercase("ISLOGICAL"@) =~= "ISLOGICAL"@);
    assert(ascii_uppercase("ISNA"@) =~= "ISNA"@);
    assert(ascii_uppercase("ISNONTEXT"@) =~= "ISNONTEXT"@);
    assert(ascii_uppercase("ISNUMBER"@) =~= "ISNUMBER"@);
    assert(ascii_uppercase("ISTEXT"@) =~= "ISTEXT"@);
    assert(ascii_uppercase("LARGE"@) =~= "LARGE"@);
    assert(ascii_uppercase("LEFT"@) =~= "LEFT"@);
    assert(ascii_uppercase("LEN"@) =~= "LEN"@);
    assert(ascii_uppercase("LN"@) =~= "LN"@);
    assert(ascii_uppercase("LOG"@) =~= "LOG"@);
    assert(ascii_uppercase("LOG10"@) =~= "LOG10"@);
    assert(ascii_uppercase("LOWER"@) =~= "LOWER"@);
    assert(ascii_uppercase("MATCH"@) =~= "MATCH"@);
    assert(ascii_uppercase("MAX"@) =~= "MAX"@);
    assert(ascii_uppercase("MEDIAN"@) =~= "MEDIAN"@);
    assert(ascii_uppercase("MID"@) =~= "MID"@);
    assert(ascii_uppercase("MIN"@) =~= "MIN"@);
    assert(ascii_uppercase("MOD"@) =~= "MOD"@);
    assert(ascii_uppercase("NA"@) =~= "NA"@);
    assert(ascii_uppercase("NOT"@) =~= "NOT"@);
    assert(ascii_uppercase("ODD"@) =~= "ODD"@);
    assert(ascii_uppercase("OR"@) =~= "OR"@);
    assert(ascii_uppercase("PI"@) =~= "PI"@);
    assert(ascii_uppercase("POWER"@) =~= "POWER"@);
    assert(ascii_uppercase("PRODUCT"@) =~= "PRODUCT"@);
    assert(ascii_uppercase("PROPER"@) =~= "PROPER"@);
    assert(ascii_uppercase("RADIANS"@) =~= "RADIANS"@);
    assert(ascii_uppercase("REPLACE"@) =~= "REPLACE"@);
    assert(ascii_uppercase("REPT"@) =~= "REPT"@);
    assert(ascii_uppercase("RIGHT"@) =~= "RIGHT"@);
    assert(ascii_uppercase("ROUND"@) =~= "ROUND"@);
    assert(ascii_uppercase("ROUNDDOWN"@) =~= "ROUNDDOWN"@);
    assert(ascii_uppercase("ROUNDUP"@) =~= "ROUNDUP"@);
    assert(ascii_uppercase("ROW"@) =~= "ROW"@);
    assert(ascii_uppercase("ROWS"@) =~= "ROWS"@);
    assert(ascii_uppercase("SEARCH"@) =~= "SEARCH"@);
    assert(ascii_uppercase("SIGN"@) =~= "SIGN"@);
    assert(ascii_uppercase("SIN"@) =~= "SIN"@);
    assert(ascii_uppercase("SMALL"@) =~= "SMALL"@);
    assert(ascii_uppercase("SQRT"@) =~= "SQRT"@);
    assert(ascii_uppercase("STDEV.P"@) =~= "STDEV.P"@);
    assert(ascii_uppercase("STDEV.S"@) =~= "STDEV.S"@);
    assert(ascii_uppercase("SUBSTITUTE"@) =~= "SUBSTITUTE"@);
    assert(ascii_uppercase("SUM"@) =~= "SUM"@);
    assert(ascii_uppercase("SUMIF"@) =~= "SUMIF"@);
    assert(ascii_uppercase("SUMPRODUCT"@) =~= "SUMPRODUCT"@);
    assert(ascii_uppercase("SUMSQ"@) =~= "SUMSQ"@);
    assert(ascii_uppercase("TAN"@) =~= "TAN"@);
    assert(ascii_uppercase("TEXTJOIN"@) =~= "TEXTJOIN"@);
    assert(ascii_uppercase("TRIM"@) =~= "TRIM"@);
    assert(ascii_uppercase("TRUNC"@) =~= "TRUNC"@);
    assert(ascii_uppercase("TYPE"@) =~= "TYPE"@);
    assert(ascii_uppercase("UPPER"@) =~= "UPPER"@);
    assert(ascii_uppercase("VALUE"@) =~= "VALUE"@);
    assert(ascii_uppercase("VAR.P"@) =~= "VAR.P"@);
    assert(ascii_uppercase("VAR.S"@) =~= "VAR.S"@);
    assert(ascii_uppercase("VLOOKUP"@) =~= "VLOOKUP"@);
    assert(ascii_uppercase("XOR"@) =~= "XOR"@);
}


/// The name a lookup searches for: capitals, without the `_XLFN.` prefix
/// newer functions carry in stored files.
pub open spec fn wanted_name(name: Seq<char>) -> Seq<char> {
    let upper = ascii_uppercase(name);
    if upper.len() >= 6 && upper.subrange(0, 6) == "_XLFN."@ {
        upper.skip(6)
    } else {
        upper
    }
}

/// The table entry for a name, folding case.
pub open spec fn entry_for(name: Seq<char>) -> Option<FunctionInfo> {
    if exists|i: int| 0 <= i < table_spec().len() && (#[trigger] table_spec()[i]).name@ == wanted_name(name) {
        let i = choose|i: int| 0 <= i < table_spec().len() && (#[trigger] table_spec()[i]).name@ == wanted_name(name);
        Some(table_spec()[i])
    } else {
        None
    }
}

fn upper_chars(s: &Vec<char>) -> (r: Vec<char>)
    ensures
        r@ == ascii_uppercase(s@),
{
    let mut out: Vec<char> = Vec::new();
    let mut i: usize = 0;
    while i < s.len()
        invariant
            i <= s@.len(),
            out@ == ascii_uppercase(s@.subrange(0, i as int)),
        decreases s.len() - i,
    {
        let c = s[i];
        let code: u32 = c as u32;
        let up = if code >= 97 && code <= 122 {
            let v: u32 = code - 32;
            char_from(v)
        } else {
            c
        };
        assert(up == crate::value::ascii_upper(c));
        out.push(up);
        i = i + 1;
        assert(out@ =~= ascii_uppercase(s@.subrange(0, i as int)));
    }
    assert(s@.subrange(0, s@.len() as int) =~= s@);
    out
}

fn char_from(v: u32) -> (c: char)
    requires
        65 <= v <= 90,
    ensures
        c == (v as char),
        c as u32 == v,
{
    let letters: [char; 26] = [
        'A', 'B', 'C', 'D', 'E', 'F', 'G', 'H', 'I', 'J', 'K', 'L', 'M', 'N', 'O', 'P', 'Q', 'R',
        'S', 'T', 'U', 'V', 'W', 'X', 'Y', 'Z',
    ];
    assert(letters@ =~= seq![
        'A', 'B', 'C', 'D', 'E', 'F', 'G', 'H', 'I', 'J', 'K', 'L', 'M', 'N', 'O', 'P', 'Q', 'R',
        'S', 'T', 'U', 'V', 'W', 'X', 'Y', 'Z',
    ]);
    let c = letters[(v - 65) as usize];
    proof {
        vstd::utf8::char_u32_cast(c, c as u32);
    }
    c
}

fn same_chars(a: &Vec<char>, b: &Vec<char>) -> (r: bool)
    ensures
        r == (a@ == b@),
{
    if a.len() != b.len() {
        return false;
    }
    let mut i: usize = 0;
    while i < a.len()
        invariant
            a@.len() == b@.len(),
            i <= a@.len(),
            forall|j: int| 0 <= j < i ==> a@[j] == b@[j],
        decreases a.len() - i,
    {
        if a[i] != b[i] {
            return false;
        }
        i = i + 1;
    }
    assert(a@ =~= b@);
    true
}

/// Find a function by name, folding case and ignoring the `_XLFN.` prefix.
pub fn lookup(name: &str) -> (r: Option<FunctionInfo>)
    ensures
        r is Some <==> entry_for(name@) is Some,
        r is Some ==> r->0.name@ == wanted_name(name@) && (exists|i: int|
            0 <= i < table_spec().len() && #[trigger] table_spec()[i] == r->0),
{
    let upper = upper_chars(&chars_of(name));
    let prefix = chars_of("_XLFN.");
    let mut wanted = upper;
    if wanted.len() >= 6 {
        let mut head: Vec<char> = Vec::new();
        let mut k: usize = 0;
        while k < 6
            invariant
                k <= 6,
                wanted@.len() >= 6,
                head@ == wanted@.subrange(0, k as int),
            decreases 6 - k,
        {
            head.push(wanted[k]);
            k = k + 1;
            assert(head@ =~= wanted@.subrange(0, k as int));
        }
        if same_chars(&head, &prefix) {
            let mut rest: Vec<char> = Vec::new();
            let mut k: usize = 6;
            while k < wanted.len()
                invariant
                    6 <= k <= wanted@.len(),
                    rest@ == wanted@.subrange(6, k as int),
                decreases wanted.len() - k,
            {
                rest.push(wanted[k]);
                k = k + 1;
                assert(rest@ =~= wanted@.subrange(6, k as int));
            }
            wanted = rest;
        }
    }
    assert(wanted@ == wanted_name(name@));
    let table = function_table();
    let mut i: usize = 0;
    while i < table.len()
        invariant
            i <= table@.len(),
            table@ == table_spec(),
            wanted@ == wanted_name(name@),
            forall|j: int| 0 <= j < i ==> (#[trigger] table_spec()[j]).name@ != wanted_name(name@),
        decreases table.len() - i,
    {
        let entry = table[i];
        let spelled = chars_of(entry.name);
        if same_chars(&spelled, &wanted) {
            assert(table_spec()[i as int] == entry);
            return Some(entry);
        }
        i = i + 1;
    }
    None
}

/// What a call of a function decides before any argument is evaluated: an
/// unknown name is a `#NAME?`, and a known one given fewer arguments than it
/// takes, or more, is a `#VALUE!`. Otherwise the call goes ahead with the
/// function's entry.
pub fn check_call(name: &str, arg_count: usize) -> (r: Result<FunctionInfo, CalcError>)
    ensures
        entry_for(name@) is None ==> r == Err::<FunctionInfo, CalcError>(CalcError::Name),
        entry_for(name@) is Some ==> match r {
            Ok(f) => f.name@ == wanted_name(name@) && f.min_args <= arg_count <= f.max_args
                && exists|i: int| 0 <= i < table_spec().len() && #[trigger] table_spec()[i] == f,
            Err(e) => e == CalcError::Value && exists|i: int|
                0 <= i < table_spec().len() && table_spec()[i].name@ == wanted_name(name@)
                    && !(#[trigger] table_spec()[i].min_args <= arg_count <= table_spec()[i].max_args),
        },
{
    match lookup(name) {
        None => Err(CalcError::Name),
        Some(f) => {
            if arg_count < f.min_args || arg_count > f.max_args {
                Err(CalcError::Value)
            } else {
                Ok(f)
            }
        },
    }
}

/// Whether a name is a function this engine knows.
pub fn is_known(name: &str) -> (b: bool)
    ensures
        b == (entry_for(name@) is Some),
{
    lookup(name).is_some()
}

/// Every function name, for completion and for documentation.
pub fn names() -> (r: Vec<&'static str>)
    ensures
        r@.len() == table_spec().len(),
        forall|i: int| 0 <= i < r@.len() ==> #[trigger] r@[i] == table_spec()[i].name,
{
    let table = function_table();
    let mut out: Vec<&'static str> = Vec::new();
    let mut i: usize = 0;
    while i < table.len()
        invariant
            i <= table@.len(),
            table@ == table_spec(),
            out@.len() == i,
            forall|j: int| 0 <= j < i ==> #[trigger] out@[j] == table_spec()[j].name,
        decreases table.len() - i,
    {
        out.push(table[i].name);
        i = i + 1;
    }
    out
}

// ---------------------------------------------------------------------------
// Wildcards.

/// Two characters are the same letter once upper-cased.
pub open spec fn same_letter(a: char, b: char) -> bool {
    uppercase_of(a) == uppercase_of(b)
}

/// Whether the pattern from position `i` matches the text from position `j`.
///
/// `*` matches any run, including an empty one; `?` matches any one
/// character; `~` makes the next character literal, and a `~` with nothing
/// after it matches nothing; any other character matches itself, ignoring
/// case.
pub open spec fn matches_from(p: Seq<char>, t: Seq<char>, i: int, j: int) -> bool
    decreases p.len() - i, t.len() - j,
{
    if i < 0 || j < 0 || i > p.len() || j > t.len() {
        false
    } else if i == p.len() {
        j == t.len()
    } else if p[i] == '*' {
        matches_from(p, t, i + 1, j) || (j < t.len() && matches_from(p, t, i, j + 1))
    } else if p[i] == '?' {
        j < t.len() && matches_from(p, t, i + 1, j + 1)
    } else if p[i] == '~' {
        i + 1 < p.len() && j < t.len() && same_letter(p[i + 1], t[j]) && matches_from(p, t, i + 2, j + 1)
    } else {
        j < t.len() && same_letter(p[i], t[j]) && matches_from(p, t, i + 1, j + 1)
    }
}

/// Whether a whole text matches a whole pattern.
pub open spec fn wildcard_match(pattern: Seq<char>, text: Seq<char>) -> bool {
    matches_from(pattern, text, 0, 0)
}

fn same_letter_exec(a: char, b: char) -> (r: bool)
    ensures
        r == same_letter(a, b),
{
    let ua = crate::value::uppercase(a);
    let ub = crate::value::uppercase(b);
    same_chars(&ua, &ub)
}

/// Match text against a pattern where `*` stands for any run, `?` for one
/// character, and `~` escapes either. Case is ignored.
///
/// The answer is worked out for every pair of positions, from the ends
/// backwards, so a pattern full of stars costs its length times the text's
/// rather than an exponential search.
pub fn wildcard_matches(pattern: &str, text: &str) -> (r: bool)
    ensures
        r == wildcard_match(pattern@, text@),
{
    let p = chars_of(pattern);
    let t = chars_of(text);
    let plen = p.len();
    let tlen = t.len();
    // rows[k] holds, for each text position j, whether the pattern from
    // position plen - k matches the text from j.
    let mut rows: Vec<Vec<bool>> = Vec::new();
    let mut k: usize = 0;
    loop
        invariant_except_break
            k <= plen,
            rows@.len() == k,
        invariant
            p@ == pattern@,
            t@ == text@,
            plen == p@.len(),
            tlen == t@.len(),
            forall|a: int| 0 <= a < rows@.len() ==> (#[trigger] rows@[a])@.len() == tlen + 1,
            forall|a: int, j: int|
                0 <= a < rows@.len() && 0 <= j <= tlen ==> #[trigger] rows@[a]@[j] == matches_from(
                    p@,
                    t@,
                    plen - a,
                    j,
                ),
        ensures
            rows@.len() == plen + 1,
        decreases plen - k,
    {
        let i = plen - k;
        let mut row: Vec<bool> = Vec::new();
        // Filled from the end of the text backwards, then reversed into place.
        let mut back: Vec<bool> = Vec::new();
        let mut m: usize = 0;
        loop
            invariant_except_break
                m <= tlen,
                back@.len() == m,
            invariant
                p@ == pattern@,
                t@ == text@,
                plen == p@.len(),
                tlen == t@.len(),
                k <= plen,
                i == plen - k,
                rows@.len() == k,
                forall|a: int| 0 <= a < k ==> (#[trigger] rows@[a])@.len() == tlen + 1,
                forall|a: int, j: int|
                    0 <= a < k && 0 <= j <= tlen ==> #[trigger] rows@[a]@[j] == matches_from(
                        p@,
                        t@,
                        plen - a,
                        j,
                    ),
                forall|b: int| 0 <= b < back@.len() ==> #[trigger] back@[b] == matches_from(p@, t@, i as int, tlen - b),
            ensures
                back@.len() == tlen + 1,
            decreases tlen - m,
        {
            let j = tlen - m;
            let value = if i == plen {
                j == tlen
            } else if p[i] == '*' {
                let skip_star = rows[k - 1][j];
                let take_one = j < tlen && back[m - 1];
                skip_star || take_one
            } else if p[i] == '?' {
                j < tlen && rows[k - 1][j + 1]
            } else if p[i] == '~' {
                i + 1 < plen && j < tlen && same_letter_exec(p[i + 1], t[j]) && rows[k - 2][j + 1]
            } else {
                j < tlen && same_letter_exec(p[i], t[j]) && rows[k - 1][j + 1]
            };
            back.push(value);
            if m == tlen {
                break;
            }
            m = m + 1;
        }
        let mut b: usize = back.len();
        while b > 0
            invariant
                tlen == t@.len(),
                back@.len() == tlen + 1,
                b <= tlen + 1,
                row@.len() == tlen + 1 - b,
                forall|x: int| 0 <= x < row@.len() ==> #[trigger] row@[x] == back@[tlen - x],
            decreases b,
        {
            b = b - 1;
            row.push(back[b]);
        }
        assert forall|j: int| 0 <= j <= tlen implies #[trigger] row@[j] == matches_from(p@, t@, i as int, j) by {
            assert(row@[j] == back@[tlen - j]);
        }
        rows.push(row);
        if k == plen {
            break;
        }
        k = k + 1;
    }
    rows[plen][0]
}

} // verus!
