//! The shape a parsed formula takes.
//!
//! The tree keeps what the author wrote, including the `$` markers and the
//! distinction between a range written `A1:B2` and one computed by an
//! expression. That fidelity is what lets a formula be rewritten when it is
//! copied, and printed back in the form it was typed.
//!
//! A number is kept as the digits the author typed. Turning those digits into
//! a double is arithmetic for the evaluator, not a question of shape.

use vstd::prelude::*;

use crate::coord::A1Ref;
use crate::value::CalcError;

verus! {

/// A literal value written in a formula.
#[derive(Clone, PartialEq, Debug)]
pub enum Literal {
    /// An omitted argument, as in `IF(A1,,0)`.
    Blank,
    /// A number, spelled as written: digits, an optional point, an optional
    /// exponent.
    Number(String),
    Text(String),
    Logical(bool),
    Error(CalcError),
}

/// A parsed formula.
#[derive(PartialEq, Debug)]
pub enum Expr {
    Literal(Literal),
    /// A reference written directly, optionally qualified by a sheet.
    Ref { sheet: Option<SheetRef>, target: RefTarget },
    /// A defined name, optionally qualified by a sheet.
    Name { sheet: Option<SheetRef>, name: String },
    Unary { op: UnaryOp, operand: Box<Expr> },
    Binary { op: BinaryOp, left: Box<Expr>, right: Box<Expr> },
    /// The postfix `%`, which divides by a hundred.
    Percent(Box<Expr>),
    Call { name: String, args: Vec<Expr> },
    /// A literal array, `{1,2;3,4}`, in row-major order.
    Array(Vec<Vec<Expr>>),
    /// `a:b` where the endpoints are not both plain references, as in
    /// `INDEX(A:A,1):B5`. The simple case collapses into [`Expr::Ref`] at
    /// parse time instead.
    RangeOp { left: Box<Expr>, right: Box<Expr> },
    /// Two references separated by a space: the cells they share.
    Intersect { left: Box<Expr>, right: Box<Expr> },
    /// Comma-separated references inside parentheses, as in `(A1:A2,C1:C2)`.
    Union(Vec<Expr>),
}

/// The sheet part of a qualified reference.
#[derive(Clone, PartialEq, Eq, Debug)]
pub enum SheetRef {
    One(String),
    /// A span across consecutive sheets, `Sheet1:Sheet3!A1`.
    Span { first: String, last: String },
}

/// What a written reference points at.
#[derive(Clone, Copy, PartialEq, Eq, Structural, Debug)]
pub enum RefTarget {
    Cell(A1Ref),
    Range { start: A1Ref, end: A1Ref },
    /// Whole columns, `B:D`.
    Columns { first: Bound, last: Bound },
    /// Whole rows, `2:5`.
    Rows { first: Bound, last: Bound },
    /// `#REF!` written in the formula, usually left by a deletion.
    Invalid,
}

/// One edge of a whole-column or whole-row range.
#[derive(Clone, Copy, PartialEq, Eq, Structural, Debug)]
pub struct Bound {
    /// Zero-based column or row index.
    pub index: u32,
    /// Whether the author pinned it with `$`.
    pub absolute: bool,
}

#[derive(Clone, Copy, PartialEq, Eq, Structural, Debug)]
pub enum UnaryOp {
    Negate,
    /// A leading `+`. It coerces to a number, so it is not a no-op.
    Plus,
}

#[derive(Clone, Copy, PartialEq, Eq, Structural, Debug)]
pub enum BinaryOp {
    Add,
    Subtract,
    Multiply,
    Divide,
    Power,
    Concat,
    Equal,
    NotEqual,
    Less,
    LessOrEqual,
    Greater,
    GreaterOrEqual,
}

/// How tightly an operator binds. Larger wins.
pub open spec fn power_of(op: BinaryOp) -> u8 {
    match op {
        BinaryOp::Equal | BinaryOp::NotEqual | BinaryOp::Less | BinaryOp::LessOrEqual
        | BinaryOp::Greater | BinaryOp::GreaterOrEqual => 1,
        BinaryOp::Concat => 2,
        BinaryOp::Add | BinaryOp::Subtract => 3,
        BinaryOp::Multiply | BinaryOp::Divide => 4,
        BinaryOp::Power => 5,
    }
}

/// How an operator is written.
pub open spec fn symbol_of(op: BinaryOp) -> Seq<char> {
    match op {
        BinaryOp::Add => "+"@,
        BinaryOp::Subtract => "-"@,
        BinaryOp::Multiply => "*"@,
        BinaryOp::Divide => "/"@,
        BinaryOp::Power => "^"@,
        BinaryOp::Concat => "&"@,
        BinaryOp::Equal => "="@,
        BinaryOp::NotEqual => "<>"@,
        BinaryOp::Less => "<"@,
        BinaryOp::LessOrEqual => "<="@,
        BinaryOp::Greater => ">"@,
        BinaryOp::GreaterOrEqual => ">="@,
    }
}

impl BinaryOp {
    /// The six comparisons, which yield a logical.
    pub open spec fn compares(self) -> bool {
        match self {
            BinaryOp::Equal | BinaryOp::NotEqual | BinaryOp::Less | BinaryOp::LessOrEqual
            | BinaryOp::Greater | BinaryOp::GreaterOrEqual => true,
            _ => false,
        }
    }

    /// True for the six comparisons, which yield a logical rather than a
    /// value of the operands' kind.
    pub fn is_comparison(self) -> (b: bool)
        ensures
            b == self.compares(),
    {
        match self {
            BinaryOp::Equal | BinaryOp::NotEqual | BinaryOp::Less | BinaryOp::LessOrEqual
            | BinaryOp::Greater | BinaryOp::GreaterOrEqual => true,
            _ => false,
        }
    }

    /// How tightly this operator binds. Larger wins.
    pub fn binding_power(self) -> (p: u8)
        ensures
            p == power_of(self),
    {
        match self {
            BinaryOp::Equal | BinaryOp::NotEqual | BinaryOp::Less | BinaryOp::LessOrEqual
            | BinaryOp::Greater | BinaryOp::GreaterOrEqual => 1,
            BinaryOp::Concat => 2,
            BinaryOp::Add | BinaryOp::Subtract => 3,
            BinaryOp::Multiply | BinaryOp::Divide => 4,
            BinaryOp::Power => 5,
        }
    }

    pub fn symbol(self) -> (s: &'static str)
        ensures
            s@ == symbol_of(self),
    {
        match self {
            BinaryOp::Add => "+",
            BinaryOp::Subtract => "-",
            BinaryOp::Multiply => "*",
            BinaryOp::Divide => "/",
            BinaryOp::Power => "^",
            BinaryOp::Concat => "&",
            BinaryOp::Equal => "=",
            BinaryOp::NotEqual => "<>",
            BinaryOp::Less => "<",
            BinaryOp::LessOrEqual => "<=",
            BinaryOp::Greater => ">",
            BinaryOp::GreaterOrEqual => ">=",
        }
    }
}

/// The comparisons are exactly the operators that bind loosest, and `^`
/// binds tightest of all.
pub proof fn lemma_comparisons_bind_loosest(op: BinaryOp)
    ensures
        op.compares() <==> power_of(op) == 1,
        1 <= power_of(op) <= power_of(BinaryOp::Power),
{
}

/// The precedence ladder: the six comparisons bind equally and loosest,
/// then `&`, then `+` and `-` together, then `*` and `/` together, and `^`
/// tightest; so `1+6/2` divides first and `1&2+3` adds first.
pub proof fn lemma_precedence_ladder()
    ensures
        power_of(BinaryOp::Equal) == power_of(BinaryOp::NotEqual),
        power_of(BinaryOp::Equal) == power_of(BinaryOp::Less),
        power_of(BinaryOp::Equal) == power_of(BinaryOp::LessOrEqual),
        power_of(BinaryOp::Equal) == power_of(BinaryOp::Greater),
        power_of(BinaryOp::Equal) == power_of(BinaryOp::GreaterOrEqual),
        power_of(BinaryOp::Equal) < power_of(BinaryOp::Concat),
        power_of(BinaryOp::Concat) < power_of(BinaryOp::Add),
        power_of(BinaryOp::Add) == power_of(BinaryOp::Subtract),
        power_of(BinaryOp::Subtract) < power_of(BinaryOp::Multiply),
        power_of(BinaryOp::Multiply) == power_of(BinaryOp::Divide),
        power_of(BinaryOp::Divide) < power_of(BinaryOp::Power),
{
}

} // verus!
