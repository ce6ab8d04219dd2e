//! Turning tokens into a tree.
//!
//! Precedence climbing, with the spreadsheet's own precedence table. Two
//! things about that table surprise people coming from other languages, and
//! both are deliberate here:
//!
//! - **Unary minus binds tighter than `^`.** `-2^2` is 4, not -4.
//! - **`^` is left-associative.** `2^3^2` is 64, not 512.
//!
//! The reference operators (`:`, a space, and `,` inside parentheses) bind
//! tighter than everything, including unary minus, which is why they are
//! handled structurally rather than through the binding-power loop.

use vstd::prelude::*;

use crate::ast::{power_of, BinaryOp, Bound, Expr, Literal, RefTarget, SheetRef, UnaryOp};
use crate::coord::{
    column_label, column_label_text, column_of_chars, column_of_letters, parse_a1,
    parse_a1_chars, A1Ref, CellRef, ParseRefError, MAX_COL, MAX_ROW,
};
use crate::lexer::{
    begins_operand, byte_len, lemma_token_count, lex, spans_view, tokenize, utf8_len, LexError, Lexed, SpanView, Spanned, Token,
    TokenView,
};

use crate::text::{ascii_alpha, ascii_digit, chars_of, decimal, is_ascii_alpha, is_ascii_digit, push_char, push_decimal};
use crate::value::{chars_equal_ignoring_ascii_case, same_ignoring_ascii_case, CalcError};
use crate::numeral::{capped, floor_value, numeral, whole};

verus! {

// ---------------------------------------------------------------------------
// Errors.

/// Why a formula could not be parsed.
#[derive(Clone, Copy, PartialEq, Eq, Structural, Debug)]
pub struct ParseError {
    pub kind: ParseErrorKind,
    /// Byte offset into the formula text, after any leading `=`.
    pub at: usize,
}

#[derive(Clone, Copy, PartialEq, Eq, Structural, Debug)]
pub enum ParseErrorKind {
    Lex(LexError),
    /// The formula ended in the middle of something.
    UnexpectedEnd,
    /// A token that cannot appear here.
    UnexpectedToken,
    /// A `(` with no matching `)`, or the same for a brace.
    UnclosedBracket,
    /// A reference whose row or column is outside the grid.
    BadReference(ParseRefError),
    /// An array literal whose rows are not all the same length.
    RaggedArray,
    /// Text after the formula has already ended.
    TrailingInput,
}

impl ParseError {
    /// What went wrong, for a person: a lexing error as the lexer describes
    /// it; anything else as its description, then ` (at N)` with the offset.
    pub open spec fn describe_text(self) -> Seq<char> {
        match self.kind {
            ParseErrorKind::Lex(e) => e.describe_text(),
            _ => (match self.kind {
                ParseErrorKind::UnexpectedEnd => "the formula ends here, unfinished"@,
                ParseErrorKind::UnexpectedToken => "this cannot appear here"@,
                ParseErrorKind::UnclosedBracket => "this bracket is never closed"@,
                ParseErrorKind::BadReference(e) => e.message_text(),
                ParseErrorKind::RaggedArray => "the rows of this array differ in length"@,
                _ => "the formula already ended before this"@,
            }) + " (at "@ + decimal(self.at as nat) + seq![')'],
        }
    }

    /// What went wrong, for a person, with the offset it happened at.
    pub fn describe(&self) -> (s: String)
        ensures
            s@ == self.describe_text(),
    {
        let mut out = String::new();
        match self.kind {
            ParseErrorKind::Lex(e) => {
                return e.describe();
            },
            ParseErrorKind::UnexpectedEnd => out.append("the formula ends here, unfinished"),
            ParseErrorKind::UnexpectedToken => out.append("this cannot appear here"),
            ParseErrorKind::UnclosedBracket => out.append("this bracket is never closed"),
            ParseErrorKind::BadReference(e) => out.append(e.message()),
            ParseErrorKind::RaggedArray => out.append("the rows of this array differ in length"),
            ParseErrorKind::TrailingInput => out.append("the formula already ended before this"),
        }
        out.append(" (at ");
        push_decimal(&mut out, self.at as u64);
        push_char(&mut out, ')');
        out
    }
}

// ---------------------------------------------------------------------------
// The tree as a value.

pub enum LiteralView {
    Blank,
    Number(Seq<char>),
    Text(Seq<char>),
    Logical(bool),
    Error(CalcError),
}

pub enum SheetView {
    One(Seq<char>),
    Span { first: Seq<char>, last: Seq<char> },
}

/// A parsed formula, with its text as characters.
pub enum ExprView {
    Literal(LiteralView),
    Ref { sheet: Option<SheetView>, target: RefTarget },
    Name { sheet: Option<SheetView>, name: Seq<char> },
    Unary { op: UnaryOp, operand: Box<ExprView> },
    Binary { op: BinaryOp, left: Box<ExprView>, right: Box<ExprView> },
    Percent(Box<ExprView>),
    Call { name: Seq<char>, args: Seq<ExprView> },
    Array(Seq<Seq<ExprView>>),
    RangeOp { left: Box<ExprView>, right: Box<ExprView> },
    Intersect { left: Box<ExprView>, right: Box<ExprView> },
    Union(Seq<ExprView>),
}

pub open spec fn literal_view(l: Literal) -> LiteralView {
    match l {
        Literal::Blank => LiteralView::Blank,
        Literal::Number(s) => LiteralView::Number(s@),
        Literal::Text(s) => LiteralView::Text(s@),
        Literal::Logical(b) => LiteralView::Logical(b),
        Literal::Error(e) => LiteralView::Error(e),
    }
}

pub open spec fn sheet_view(s: SheetRef) -> SheetView {
    match s {
        SheetRef::One(n) => SheetView::One(n@),
        SheetRef::Span { first, last } => SheetView::Span { first: first@, last: last@ },
    }
}

pub open spec fn sheet_option_view(s: Option<SheetRef>) -> Option<SheetView> {
    match s {
        Some(s) => Some(sheet_view(s)),
        None => None,
    }
}

/// The value of a tree.
pub open spec fn expr_view(e: Expr) -> ExprView
    decreases e,
{
    match e {
        Expr::Literal(l) => ExprView::Literal(literal_view(l)),
        Expr::Ref { sheet, target } => ExprView::Ref { sheet: sheet_option_view(sheet), target },
        Expr::Name { sheet, name } => ExprView::Name { sheet: sheet_option_view(sheet), name: name@ },
        Expr::Unary { op, operand } => ExprView::Unary { op, operand: Box::new(expr_view(*operand)) },
        Expr::Binary { op, left, right } => ExprView::Binary {
            op,
            left: Box::new(expr_view(*left)),
            right: Box::new(expr_view(*right)),
        },
        Expr::Percent(inner) => ExprView::Percent(Box::new(expr_view(*inner))),
        Expr::Call { name, args } => ExprView::Call { name: name@, args: list_view(args@) },
        Expr::Array(rows) => ExprView::Array(rows_view(rows@)),
        Expr::RangeOp { left, right } => ExprView::RangeOp {
            left: Box::new(expr_view(*left)),
            right: Box::new(expr_view(*right)),
        },
        Expr::Intersect { left, right } => ExprView::Intersect {
            left: Box::new(expr_view(*left)),
            right: Box::new(expr_view(*right)),
        },
        Expr::Union(parts) => ExprView::Union(list_view(parts@)),
    }
}

/// The values of a list of trees.
pub open spec fn list_view(s: Seq<Expr>) -> Seq<ExprView>
    decreases s,
{
    if s.len() == 0 {
        Seq::empty()
    } else {
        list_view(s.drop_last()).push(expr_view(s.last()))
    }
}

/// The values of the rows of an array.
pub open spec fn rows_view(s: Seq<Vec<Expr>>) -> Seq<Seq<ExprView>>
    decreases s,
{
    if s.len() == 0 {
        Seq::empty()
    } else {
        rows_view(s.drop_last()).push(list_view(s.last()@))
    }
}

// ---------------------------------------------------------------------------
// Words, corners and operators.

/// What a bare word turned out to name.
pub enum WordKind {
    Cell(A1Ref),
    /// Letters only, which is one end of a column range or else a name.
    Column(Bound),
    /// Shaped like a reference but outside the grid.
    OutOfGrid(ParseRefError),
    Name,
}

/// A text with every `$` taken out.
pub open spec fn without_dollars(s: Seq<char>) -> Seq<char>
    decreases s.len(),
{
    if s.len() == 0 {
        s
    } else if s.last() == '$' {
        without_dollars(s.drop_last())
    } else {
        without_dollars(s.drop_last()).push(s.last())
    }
}

/// Where the run of digits that ends a text begins.
pub open spec fn trailing_digits_start(s: Seq<char>) -> nat
    decreases s.len(),
{
    if s.len() > 0 && is_ascii_digit(s.last()) {
        trailing_digits_start(s.drop_last())
    } else {
        s.len()
    }
}

/// Whether a word is shaped `letters digits`, `$` markers aside, with at
/// most three letters: being out of range is then a reference problem
/// rather than the word being an ordinary name.
pub open spec fn reference_shaped(word: Seq<char>) -> bool {
    let trimmed = without_dollars(word);
    let k = trailing_digits_start(trimmed);
    let letters = trimmed.take(k as int);
    &&& letters.len() > 0
    &&& k < trimmed.len()
    &&& forall|i: int| 0 <= i < letters.len() ==> is_ascii_alpha(#[trigger] letters[i])
    &&& letters.len() <= 3
}

/// What a bare word names.
pub open spec fn word_kind(word: Seq<char>) -> WordKind {
    match parse_a1(word) {
        Ok(cell) => WordKind::Cell(cell),
        Err(e) => if e != ParseRefError::Malformed && reference_shaped(word) {
            WordKind::OutOfGrid(e)
        } else {
            let absolute = word.len() > 0 && word[0] == '$';
            let letters = if absolute {
                word.drop_first()
            } else {
                word
            };
            match column_of_letters(letters) {
                Some(index) => WordKind::Column(Bound { index, absolute }),
                None => WordKind::Name,
            }
        },
    }
}

/// A whole-column range with its edges in order.
pub open spec fn columns_of(first: Bound, last: Bound) -> RefTarget {
    if first.index <= last.index {
        RefTarget::Columns { first, last }
    } else {
        RefTarget::Columns { first: last, last: first }
    }
}

/// A whole-row range with its edges in order.
pub open spec fn rows_of(first: Bound, last: Bound) -> RefTarget {
    if first.index <= last.index {
        RefTarget::Rows { first, last }
    } else {
        RefTarget::Rows { first: last, last: first }
    }
}

/// The top-left and bottom-right corners of the rectangle two corners span,
/// each edge keeping the `$` marker it was written with.
pub open spec fn corners(a: A1Ref, b: A1Ref) -> (A1Ref, A1Ref) {
    let start = A1Ref {
        cell: CellRef {
            row: if a.cell.row <= b.cell.row { a.cell.row } else { b.cell.row },
            col: if a.cell.col <= b.cell.col { a.cell.col } else { b.cell.col },
        },
        row_absolute: if a.cell.row <= b.cell.row { a.row_absolute } else { b.row_absolute },
        col_absolute: if a.cell.col <= b.cell.col { a.col_absolute } else { b.col_absolute },
    };
    let end = A1Ref {
        cell: CellRef {
            row: if a.cell.row >= b.cell.row { a.cell.row } else { b.cell.row },
            col: if a.cell.col >= b.cell.col { a.cell.col } else { b.cell.col },
        },
        row_absolute: if a.cell.row > b.cell.row { a.row_absolute } else { b.row_absolute },
        col_absolute: if a.cell.col > b.cell.col { a.col_absolute } else { b.col_absolute },
    };
    (start, end)
}

/// The operator a token spells, if it is one.
pub open spec fn operator_of(t: TokenView) -> Option<BinaryOp> {
    match t {
        TokenView::Plus => Some(BinaryOp::Add),
        TokenView::Minus => Some(BinaryOp::Subtract),
        TokenView::Star => Some(BinaryOp::Multiply),
        TokenView::Slash => Some(BinaryOp::Divide),
        TokenView::Caret => Some(BinaryOp::Power),
        TokenView::Ampersand => Some(BinaryOp::Concat),
        TokenView::Equal => Some(BinaryOp::Equal),
        TokenView::NotEqual => Some(BinaryOp::NotEqual),
        TokenView::Less => Some(BinaryOp::Less),
        TokenView::LessEqual => Some(BinaryOp::LessOrEqual),
        TokenView::Greater => Some(BinaryOp::Greater),
        TokenView::GreaterEqual => Some(BinaryOp::GreaterOrEqual),
        _ => None,
    }
}

/// What an atom turned out to be.
///
/// A bare column (`A`) or a bare row (`7`) is only meaningful as one end of a
/// range. Standing alone, `A` is a defined name and `7` is a number, so the
/// decision is deferred until the range operator has had its chance.
pub enum Atom {
    Done(Expr),
    BareColumn(Bound),
    BareRow(Bound),
}

pub enum AtomView {
    Done(ExprView),
    BareColumn(Bound),
    BareRow(Bound),
}

/// The bounds an atom's row or column stays within.
pub open spec fn atom_in_grid(a: Atom) -> bool {
    match a {
        Atom::BareRow(b) => b.index <= MAX_ROW,
        Atom::BareColumn(b) => b.index <= MAX_COL,
        Atom::Done(_) => true,
    }
}

pub open spec fn atom_view(a: Atom) -> AtomView {
    match a {
        Atom::Done(e) => AtomView::Done(expr_view(e)),
        Atom::BareColumn(b) => AtomView::BareColumn(b),
        Atom::BareRow(b) => AtomView::BareRow(b),
    }
}

/// An atom where a range endpoint is not what was meant: a bare column is a
/// defined name, a bare row the number it was written as.
pub open spec fn collapse(a: AtomView) -> ExprView {
    match a {
        AtomView::Done(e) => e,
        AtomView::BareColumn(b) => ExprView::Name { sheet: None, name: column_label_text(b.index) },
        AtomView::BareRow(b) => ExprView::Literal(LiteralView::Number(decimal((b.index + 1) as nat))),
    }
}

/// What `left:right` means: the common cases collapse into one reference,
/// and anything else stays an operator for the evaluator.
pub open spec fn joined(left: AtomView, right: AtomView) -> ExprView {
    match (left, right) {
        (AtomView::BareColumn(a), AtomView::BareColumn(b)) => ExprView::Ref {
            sheet: None,
            target: columns_of(a, b),
        },
        (AtomView::BareRow(a), AtomView::BareRow(b)) => ExprView::Ref {
            sheet: None,
            target: rows_of(a, b),
        },
        (
            AtomView::Done(ExprView::Ref { sheet, target: RefTarget::Cell(start) }),
            AtomView::Done(ExprView::Ref { sheet: None, target: RefTarget::Cell(end) }),
        ) => ExprView::Ref {
            sheet,
            target: RefTarget::Range { start: corners(start, end).0, end: corners(start, end).1 },
        },
        (l, r) => ExprView::RangeOp { left: Box::new(collapse(l)), right: Box::new(collapse(r)) },
    }
}

fn without_dollar_chars(word: &Vec<char>) -> (r: Vec<char>)
    ensures
        r@ == without_dollars(word@),
{
    let mut out: Vec<char> = Vec::new();
    let mut i: usize = 0;
    while i < word.len()
        invariant
            i <= word.len(),
            out@ == without_dollars(word@.take(i as int)),
        decreases word.len() - i,
    {
        assert(word@.take(i + 1).drop_last() =~= word@.take(i as int));
        if word[i] != '$' {
            out.push(word[i]);
        }
        i = i + 1;
    }
    assert(word@.take(word.len() as int) =~= word@);
    out
}

proof fn lemma_trailing_digits(s: Seq<char>)
    ensures
        trailing_digits_start(s) <= s.len(),
        forall|i: int| trailing_digits_start(s) <= i < s.len() ==> is_ascii_digit(#[trigger] s[i]),
        trailing_digits_start(s) > 0 ==> !is_ascii_digit(s[trailing_digits_start(s) - 1]),
    decreases s.len(),
{
    if s.len() > 0 && is_ascii_digit(s.last()) {
        lemma_trailing_digits(s.drop_last());
        assert forall|i: int| trailing_digits_start(s) <= i < s.len() implies is_ascii_digit(#[trigger] s[i]) by {
            if i < s.len() - 1 {
                assert(s.drop_last()[i] == s[i]);
            }
        }
    }
}

/// Whether a word is shaped `letters digits`, so that being out of range is a
/// reference problem rather than the word being an ordinary name.
fn looks_like_a_reference(word: &Vec<char>) -> (b: bool)
    ensures
        b == reference_shaped(word@),
{
    let trimmed = without_dollar_chars(word);
    let mut k = trimmed.len();
    assert(trimmed@.take(k as int) =~= trimmed@);
    while k > 0 && ascii_digit(trimmed[k - 1])
        invariant
            k <= trimmed.len(),
            trailing_digits_start(trimmed@.take(k as int)) == trailing_digits_start(trimmed@),
        decreases k,
    {
        assert(trimmed@.take(k as int).drop_last() =~= trimmed@.take(k - 1));
        k = k - 1;
    }
    proof {
        assert(trimmed@.take(k as int).len() == k);
        if k > 0 {
            assert(trimmed@.take(k as int).last() == trimmed@[k - 1]);
        }
        assert(trailing_digits_start(trimmed@.take(k as int)) == k);
    }
    if k == 0 || k == trimmed.len() || k > 3 {
        return false;
    }
    let mut i: usize = 0;
    while i < k
        invariant
            k <= trimmed.len(),
            k == trailing_digits_start(trimmed@),
            trimmed@ == without_dollars(word@),
            i <= k,
            forall|j: int| 0 <= j < i ==> is_ascii_alpha(#[trigger] trimmed@[j]),
        decreases k - i,
    {
        if !ascii_alpha(trimmed[i]) {
            assert(!is_ascii_alpha(trimmed@.take(k as int)[i as int]));
            return false;
        }
        i = i + 1;
    }
    assert forall|j: int| 0 <= j < k implies is_ascii_alpha(#[trigger] trimmed@.take(k as int)[j]) by {
        assert(trimmed@.take(k as int)[j] == trimmed@[j]);
    }
    true
}

fn drop_first_char(word: &Vec<char>) -> (r: Vec<char>)
    requires
        word.len() > 0,
    ensures
        r@ == word@.drop_first(),
{
    let mut out: Vec<char> = Vec::new();
    let mut i: usize = 1;
    while i < word.len()
        invariant
            1 <= i <= word.len(),
            out@ == word@.subrange(1, i as int),
        decreases word.len() - i,
    {
        out.push(word[i]);
        i = i + 1;
        assert(out@ =~= word@.subrange(1, i as int));
    }
    out
}

/// What a bare word names.
fn classify_word(word: &Vec<char>) -> (k: WordKind)
    ensures
        k == word_kind(word@),
{
    match parse_a1_chars(word) {
        Ok(cell) => {
            return WordKind::Cell(cell);
        },
        Err(e) => {
            if e != ParseRefError::Malformed && looks_like_a_reference(word) {
                return WordKind::OutOfGrid(e);
            }
        },
    }
    let absolute = word.len() > 0 && word[0] == '$';
    let index = if absolute {
        let letters = drop_first_char(word);
        column_of_chars(&letters)
    } else {
        column_of_chars(word)
    };
    match index {
        Some(index) => WordKind::Column(Bound { index, absolute }),
        None => WordKind::Name,
    }
}

proof fn lemma_column_word(word: Seq<char>)
    ensures
        word_kind(word) matches WordKind::Column(b) ==> b.index <= MAX_COL,
{
}

fn columns_target(first: Bound, last: Bound) -> (t: RefTarget)
    ensures
        t == columns_of(first, last),
{
    if first.index <= last.index {
        RefTarget::Columns { first, last }
    } else {
        RefTarget::Columns { first: last, last: first }
    }
}

fn rows_target(first: Bound, last: Bound) -> (t: RefTarget)
    ensures
        t == rows_of(first, last),
{
    if first.index <= last.index {
        RefTarget::Rows { first, last }
    } else {
        RefTarget::Rows { first: last, last: first }
    }
}

/// Put the top-left corner first while keeping each edge's own `$` marker.
fn normalise_corners(a: A1Ref, b: A1Ref) -> (r: (A1Ref, A1Ref))
    ensures
        r == corners(a, b),
{
    let start = A1Ref {
        cell: CellRef::new(
            if a.cell.row <= b.cell.row { a.cell.row } else { b.cell.row },
            if a.cell.col <= b.cell.col { a.cell.col } else { b.cell.col },
        ),
        row_absolute: if a.cell.row <= b.cell.row { a.row_absolute } else { b.row_absolute },
        col_absolute: if a.cell.col <= b.cell.col { a.col_absolute } else { b.col_absolute },
    };
    let end = A1Ref {
        cell: CellRef::new(
            if a.cell.row >= b.cell.row { a.cell.row } else { b.cell.row },
            if a.cell.col >= b.cell.col { a.cell.col } else { b.cell.col },
        ),
        row_absolute: if a.cell.row > b.cell.row { a.row_absolute } else { b.row_absolute },
        col_absolute: if a.cell.col > b.cell.col { a.col_absolute } else { b.col_absolute },
    };
    (start, end)
}

fn binary_op(token: &Token) -> (r: Option<BinaryOp>)
    ensures
        r == operator_of(token@),
{
    match token {
        Token::Plus => Some(BinaryOp::Add),
        Token::Minus => Some(BinaryOp::Subtract),
        Token::Star => Some(BinaryOp::Multiply),
        Token::Slash => Some(BinaryOp::Divide),
        Token::Caret => Some(BinaryOp::Power),
        Token::Ampersand => Some(BinaryOp::Concat),
        Token::Equal => Some(BinaryOp::Equal),
        Token::NotEqual => Some(BinaryOp::NotEqual),
        Token::Less => Some(BinaryOp::Less),
        Token::LessEqual => Some(BinaryOp::LessOrEqual),
        Token::Greater => Some(BinaryOp::Greater),
        Token::GreaterEqual => Some(BinaryOp::GreaterOrEqual),
        _ => None,
    }
}

fn string_of_chars(chars: &Vec<char>) -> (s: String)
    ensures
        s@ == chars@,
{
    crate::text::string_from(chars)
}

impl Atom {
    /// Collapse to an expression, for a position where a range endpoint is
    /// not what was meant.
    fn into_expr(self) -> (e: Expr)
        requires
            atom_in_grid(self),
        ensures
            expr_view(e) == collapse(atom_view(self)),
    {
        match self {
            Atom::Done(expr) => expr,
            Atom::BareColumn(bound) => Expr::Name { sheet: None, name: column_label(bound.index) },
            Atom::BareRow(bound) => {
                let mut digits = String::new();
                push_decimal(&mut digits, (bound.index as u64) + 1);
                assert(digits@ == Seq::<char>::empty() + decimal((bound.index + 1) as nat));
                Expr::Literal(Literal::Number(digits))
            },
        }
    }
}

fn join_range(left: Atom, right: Atom) -> (e: Expr)
    requires
        atom_in_grid(left),
        atom_in_grid(right),
    ensures
        expr_view(e) == joined(atom_view(left), atom_view(right)),
{
    match (left, right) {
        (Atom::BareColumn(a), Atom::BareColumn(b)) => Expr::Ref {
            sheet: None,
            target: columns_target(a, b),
        },
        (Atom::BareRow(a), Atom::BareRow(b)) => Expr::Ref { sheet: None, target: rows_target(a, b) },
        (
            Atom::Done(Expr::Ref { sheet, target: RefTarget::Cell(start) }),
            Atom::Done(Expr::Ref { sheet: None, target: RefTarget::Cell(end) }),
        ) => {
            let (start, end) = normalise_corners(start, end);
            Expr::Ref { sheet, target: RefTarget::Range { start, end } }
        },
        (left, right) => Expr::RangeOp {
            left: Box::new(left.into_expr()),
            right: Box::new(right.into_expr()),
        },
    }
}

// ---------------------------------------------------------------------------
// The grammar, as what each part of the parser makes of the tokens from a
// position on: a value and the position after it, or an error.

/// The token at a position, if there is one.
pub open spec fn tok(t: Seq<SpanView>, at: nat) -> Option<TokenView> {
    if at < t.len() {
        Some(t[at as int].token)
    } else {
        None
    }
}

/// The byte offset a position points at: where its token starts, or the end
/// of the formula.
pub open spec fn position(t: Seq<SpanView>, end: nat, at: nat) -> nat {
    if at < t.len() {
        t[at as int].start
    } else {
        end
    }
}

/// An error of some kind at a position.
pub open spec fn fail(t: Seq<SpanView>, end: nat, at: nat, kind: ParseErrorKind) -> ParseError {
    ParseError { kind, at: position(t, end, at) as usize }
}

/// An error at a byte offset.
pub open spec fn fail_at(start: nat, kind: ParseErrorKind) -> ParseError {
    ParseError { kind, at: start as usize }
}

/// The position after any run of space tokens.
pub open spec fn skip_space(t: Seq<SpanView>, at: nat) -> nat
    decreases t.len() - at,
{
    if at < t.len() && t[at as int].token is Space {
        skip_space(t, at + 1)
    } else {
        at
    }
}

/// What a parse that can make no progress is taken to report. No call in
/// this grammar is ever in that position; naming the case is what lets the
/// grammar be stated as a terminating definition.
pub open spec fn stuck() -> ParseError {
    ParseError { kind: ParseErrorKind::UnexpectedEnd, at: 0 }
}

pub proof fn lemma_skip_space(t: Seq<SpanView>, at: nat)
    ensures
        at <= skip_space(t, at),
        skip_space(t, at) > at ==> skip_space(t, at) <= t.len(),
        at <= t.len() ==> skip_space(t, at) <= t.len(),
        !(tok(t, skip_space(t, at)) == Some(TokenView::Space)),
    decreases t.len() - at,
{
    if at < t.len() && t[at as int].token is Space {
        lemma_skip_space(t, at + 1);
    }
}

/// A sheet name: a plain word or a quoted name.
pub open spec fn name_token(t: Option<TokenView>) -> Option<Seq<char>> {
    match t {
        Some(TokenView::Word(w)) => Some(w),
        Some(TokenView::QuotedName(w)) => Some(w),
        _ => None,
    }
}

/// `Name!` or `First:Last!` at a position, and the position after it.
pub open spec fn p_sheet_prefix(t: Seq<SpanView>, at: nat) -> Option<(SheetView, nat)> {
    match name_token(tok(t, at)) {
        None => None,
        Some(first) => if tok(t, at + 1) == Some(TokenView::Bang) {
            Some((SheetView::One(first), at + 2))
        } else if tok(t, at + 1) == Some(TokenView::Colon) && tok(t, at + 3) == Some(TokenView::Bang)
            && name_token(tok(t, at + 2)) is Some {
            Some((SheetView::Span { first, last: name_token(tok(t, at + 2))->Some_0 }, at + 4))
        } else {
            None
        },
    }
}

/// A whole-row bound from a number, zero-based.
pub open spec fn row_bound(sp: Seq<char>) -> Bound {
    Bound { index: (capped(floor_value(sp)) - 1) as u32, absolute: false }
}

/// One less than a number's capped whole part, wrapping round below zero.
pub open spec fn last_row_index(sp: Seq<char>) -> u32 {
    if capped(floor_value(sp)) == 0 {
        u32::MAX
    } else {
        (capped(floor_value(sp)) - 1) as u32
    }
}

/// The reference after a sheet prefix: `Some` target and the position after
/// it, or `None` where what follows is a defined name rather than a
/// reference, with the position unchanged.
pub open spec fn p_local_reference(t: Seq<SpanView>, end: nat, at: nat) -> Result<
    (Option<RefTarget>, nat),
    ParseError,
> {
    let start = position(t, end, at);
    if tok(t, at) == Some(TokenView::Error(CalcError::Ref)) {
        Ok((Some(RefTarget::Invalid), at + 1))
    } else {
        match tok(t, at) {
            Some(TokenView::Number(n)) => if whole(n) && floor_value(n) >= 1 {
                // A bare number after `!` can only be a row range.
                if tok(t, at + 1) != Some(TokenView::Colon) {
                    Ok((None, at))
                } else {
                    match tok(t, at + 2) {
                        Some(TokenView::Number(m)) => {
                            let first = row_bound(n);
                            let last = last_row_index(m);
                            if first.index > MAX_ROW || last > MAX_ROW {
                                Err(fail_at(start, ParseErrorKind::BadReference(ParseRefError::RowRange)))
                            } else {
                                Ok(
                                    (
                                        Some(rows_of(first, Bound { index: last, absolute: false })),
                                        at + 3,
                                    ),
                                )
                            }
                        },
                        _ => Err(fail(t, end, at + 2, ParseErrorKind::UnexpectedToken)),
                    }
                }
            } else {
                Ok((None, at))
            },
            Some(TokenView::Word(w)) => match word_kind(w) {
                WordKind::Cell(cell) => {
                    // `Sheet1!A1:B2` keeps the sheet across the whole range.
                    let a = at + 1;
                    if tok(t, a) == Some(TokenView::Colon) && tok(t, a + 1) is Some
                        && tok(t, a + 1)->Some_0 is Word && word_kind(
                        tok(t, a + 1)->Some_0->Word_0,
                    ) is Cell && tok(t, a + 2) != Some(TokenView::Bang) {
                        Ok(
                            (
                                Some(
                                    RefTarget::Range {
                                        start: cell,
                                        end: word_kind(tok(t, a + 1)->Some_0->Word_0)->Cell_0,
                                    },
                                ),
                                a + 2,
                            ),
                        )
                    } else {
                        Ok((Some(RefTarget::Cell(cell)), a))
                    }
                },
                WordKind::Column(bound) => {
                    // Only a range makes sense: `Sheet1!A:C`.
                    if tok(t, at + 1) == Some(TokenView::Colon) && tok(t, at + 2) is Some
                        && tok(t, at + 2)->Some_0 is Word && word_kind(
                        tok(t, at + 2)->Some_0->Word_0,
                    ) is Column {
                        Ok(
                            (
                                Some(
                                    columns_of(
                                        bound,
                                        word_kind(tok(t, at + 2)->Some_0->Word_0)->Column_0,
                                    ),
                                ),
                                at + 3,
                            ),
                        )
                    } else {
                        Ok((None, at))
                    }
                },
                WordKind::OutOfGrid(e) => Err(fail_at(start, ParseErrorKind::BadReference(e))),
                WordKind::Name => Ok((None, at)),
            },
            _ => Ok((None, at)),
        }
    }
}

/// Whether a word reads as `TRUE` or `FALSE`, ignoring ASCII case.
pub open spec fn logical_word(w: Seq<char>) -> Option<bool> {
    if same_ignoring_ascii_case(w, seq!['T', 'R', 'U', 'E']) {
        Some(true)
    } else if same_ignoring_ascii_case(w, seq!['F', 'A', 'L', 'S', 'E']) {
        Some(false)
    } else {
        None
    }
}

/// The binding-power loop over the infix operators, from a left operand.
pub open spec fn p_binary(t: Seq<SpanView>, end: nat, left: ExprView, at: nat, min: u8) -> Result<
    (ExprView, nat),
    ParseError,
>
    decreases t.len() - at, 0nat,
{
    let s = skip_space(t, at);
    proof {
        lemma_skip_space(t, at);
    }
    match tok(t, s) {
        None => Ok((left, s)),
        Some(token) => match operator_of(token) {
            None => Ok((left, s)),
            Some(op) => if power_of(op) < min {
                Ok((left, s))
            } else {
                // Every operator is left-associative, `^` included, so the
                // right side is parsed at one power higher.
                match p_expression(t, end, s + 1, (power_of(op) + 1) as u8) {
                    Err(e) => Err(e),
                    Ok((right, a)) => if at < a <= t.len() {
                        p_binary(
                            t,
                            end,
                            ExprView::Binary { op, left: Box::new(left), right: Box::new(right) },
                            a,
                            min,
                        )
                    } else {
                        Err(stuck())
                    },
                }
            },
        },
    }
}

/// An expression whose operators all bind at least as tightly as `min`.
pub open spec fn p_expression(t: Seq<SpanView>, end: nat, at: nat, min: u8) -> Result<
    (ExprView, nat),
    ParseError,
>
    decreases t.len() - at, 9nat,
{
    match p_prefix(t, end, at) {
        Err(e) => Err(e),
        Ok((left, a)) => if at < a <= t.len() {
            p_binary(t, end, left, a, min)
        } else {
            Err(stuck())
        },
    }
}

/// Any trailing `%` signs after an operand.
pub open spec fn p_percent(t: Seq<SpanView>, end: nat, e: ExprView, at: nat) -> Result<
    (ExprView, nat),
    ParseError,
>
    decreases t.len() - at, 0nat,
{
    let s = skip_space(t, at);
    proof {
        lemma_skip_space(t, at);
    }
    if tok(t, s) == Some(TokenView::Percent) {
        p_percent(t, end, ExprView::Percent(Box::new(e)), s + 1)
    } else {
        Ok((e, s))
    }
}

/// Unary signs, then any trailing `%`: percent applies outside the sign.
pub open spec fn p_prefix(t: Seq<SpanView>, end: nat, at: nat) -> Result<(ExprView, nat), ParseError>
    decreases t.len() - at, 8nat,
{
    match p_signed(t, end, at) {
        Err(e) => Err(e),
        Ok((e, a)) => if at < a <= t.len() {
            p_percent(t, end, e, a)
        } else {
            Err(stuck())
        },
    }
}

/// Leading signs, each wrapping what follows.
pub open spec fn p_signed(t: Seq<SpanView>, end: nat, at: nat) -> Result<(ExprView, nat), ParseError>
    decreases t.len() - at, 6nat,
{
    let s = skip_space(t, at);
    proof {
        lemma_skip_space(t, at);
    }
    let op = if tok(t, s) == Some(TokenView::Minus) {
        Some(UnaryOp::Negate)
    } else if tok(t, s) == Some(TokenView::Plus) {
        Some(UnaryOp::Plus)
    } else {
        None
    };
    match op {
        None => p_reference_chain(t, end, s),
        Some(op) => match p_signed(t, end, s + 1) {
            Err(e) => Err(e),
            Ok((operand, a)) => Ok((ExprView::Unary { op, operand: Box::new(operand) }, a)),
        },
    }
}

/// Intersections: references separated by a space that an operand follows.
pub open spec fn p_reference_chain(t: Seq<SpanView>, end: nat, at: nat) -> Result<
    (ExprView, nat),
    ParseError,
>
    decreases t.len() - at, 5nat,
{
    match p_range_chain(t, end, at) {
        Err(e) => Err(e),
        Ok((left, a)) => if at < a <= t.len() {
            p_intersections(t, end, left, a)
        } else {
            Err(stuck())
        },
    }
}

pub open spec fn p_intersections(t: Seq<SpanView>, end: nat, left: AtomView, at: nat) -> Result<
    (ExprView, nat),
    ParseError,
>
    decreases t.len() - at, 0nat,
{
    if tok(t, at) == Some(TokenView::Space) && tok(t, at + 1) is Some && begins_operand(
        tok(t, at + 1)->Some_0,
    ) {
        match p_range_chain(t, end, at + 1) {
            Err(e) => Err(e),
            Ok((right, a)) => if at < a <= t.len() {
                p_intersections(
                    t,
                    end,
                    AtomView::Done(
                        ExprView::Intersect {
                            left: Box::new(collapse(left)),
                            right: Box::new(collapse(right)),
                        },
                    ),
                    a,
                )
            } else {
                Err(stuck())
            },
        }
    } else {
        Ok((collapse(left), at))
    }
}

/// The range operator, which binds tighter than everything else.
pub open spec fn p_range_chain(t: Seq<SpanView>, end: nat, at: nat) -> Result<
    (AtomView, nat),
    ParseError,
>
    decreases t.len() - at, 3nat,
{
    match p_atom(t, end, at) {
        Err(e) => Err(e),
        Ok((left, a)) => if at < a <= t.len() {
            p_ranges(t, end, left, a)
        } else {
            Err(stuck())
        },
    }
}

pub open spec fn p_ranges(t: Seq<SpanView>, end: nat, left: AtomView, at: nat) -> Result<
    (AtomView, nat),
    ParseError,
>
    decreases t.len() - at, 0nat,
{
    if tok(t, at) == Some(TokenView::Colon) {
        match p_atom(t, end, at + 1) {
            Err(e) => Err(e),
            Ok((right, a)) => if at < a <= t.len() {
                p_ranges(t, end, AtomView::Done(joined(left, right)), a)
            } else {
                Err(stuck())
            },
        }
    } else {
        Ok((left, at))
    }
}

/// One operand: a literal, a bracketed group, an array, or a word.
pub open spec fn p_atom(t: Seq<SpanView>, end: nat, at: nat) -> Result<(AtomView, nat), ParseError>
    decreases t.len() - at, 1nat,
{
    let s = skip_space(t, at);
    proof {
        lemma_skip_space(t, at);
    }
    let start = position(t, end, s);
    match tok(t, s) {
        None => Err(fail(t, end, s, ParseErrorKind::UnexpectedEnd)),
        // An integer in range may be one end of a whole-row range.
        Some(TokenView::Number(n)) => Ok((number_atom_view(n), s + 1)),
        Some(TokenView::Text(v)) => Ok((AtomView::Done(ExprView::Literal(LiteralView::Text(v))), s + 1)),
        Some(TokenView::Error(e)) => Ok(
            (AtomView::Done(ExprView::Literal(LiteralView::Error(e))), s + 1),
        ),
        Some(TokenView::OpenParen) => p_parenthesised(t, end, s + 1, start),
        Some(TokenView::OpenBrace) => p_array(t, end, Seq::empty(), Seq::empty(), s + 1, start),
        Some(TokenView::Word(_)) => p_word(t, end, s),
        Some(TokenView::QuotedName(_)) => p_word(t, end, s),
        _ => Err(fail(t, end, s, ParseErrorKind::UnexpectedToken)),
    }
}

/// A word: a function call, a sheet-qualified reference, a plain reference,
/// or a defined name.
pub open spec fn p_word(t: Seq<SpanView>, end: nat, at: nat) -> Result<(AtomView, nat), ParseError>
    decreases t.len() - at, 0nat,
{
    let start = position(t, end, at);
    match p_sheet_prefix(t, at) {
        Some((sheet, a)) => p_qualified(t, end, sheet, a, start),
        None => match tok(t, at) {
            Some(TokenView::Word(word)) => if tok(t, at + 1) == Some(TokenView::OpenParen) {
                // A word followed by `(` is a call, whatever it otherwise
                // looks like.
                match p_arguments(t, end, at + 2, start) {
                    Err(e) => Err(e),
                    Ok((args, a)) => Ok((AtomView::Done(ExprView::Call { name: word, args }), a)),
                }
            } else {
                p_bare_word(word, at, start)
            },
            _ => Err(fail(t, end, at, ParseErrorKind::UnexpectedToken)),
        },
    }
}

/// What follows a sheet prefix: a reference on that sheet, or a name scoped
/// to it.
pub open spec fn p_qualified(t: Seq<SpanView>, end: nat, sheet: SheetView, a: nat, start: nat) -> Result<
    (AtomView, nat),
    ParseError,
> {
    match p_local_reference(t, end, a) {
        Err(e) => Err(e),
        Ok((Some(target), b)) => Ok((AtomView::Done(ExprView::Ref { sheet: Some(sheet), target }), b)),
        Ok((None, b)) => match tok(t, b) {
            // `Sheet1!SomeName` is a sheet-scoped defined name.
            Some(TokenView::Word(name)) => Ok(
                (AtomView::Done(ExprView::Name { sheet: Some(sheet), name }), b + 1),
            ),
            _ => Err(fail_at(start, ParseErrorKind::UnexpectedToken)),
        },
    }
}

/// A word standing on its own: a logical, a cell, one end of a column
/// range, or a defined name.
pub open spec fn p_bare_word(word: Seq<char>, at: nat, start: nat) -> Result<(AtomView, nat), ParseError> {
    match logical_word(word) {
        Some(b) => Ok((AtomView::Done(ExprView::Literal(LiteralView::Logical(b))), at + 1)),
        None => match word_kind(word) {
            WordKind::Cell(cell) => Ok(
                (AtomView::Done(ExprView::Ref { sheet: None, target: RefTarget::Cell(cell) }), at + 1),
            ),
            WordKind::Column(bound) => Ok((AtomView::BareColumn(bound), at + 1)),
            WordKind::OutOfGrid(e) => Err(fail_at(start, ParseErrorKind::BadReference(e))),
            WordKind::Name => Ok((AtomView::Done(ExprView::Name { sheet: None, name: word }), at + 1)),
        },
    }
}

/// A group after its `(`: grouping, or a union when it has commas at the
/// top level.
pub open spec fn p_parenthesised(t: Seq<SpanView>, end: nat, at: nat, start: nat) -> Result<
    (AtomView, nat),
    ParseError,
>
    decreases t.len() - at, 10nat,
{
    match p_expression(t, end, at, 0) {
        Err(e) => Err(e),
        Ok((first, a)) => if at < a <= t.len() {
            let s = skip_space(t, a);
            proof {
                lemma_skip_space(t, a);
            }
            if tok(t, s) != Some(TokenView::Comma) {
                if tok(t, s) == Some(TokenView::CloseParen) {
                    Ok((AtomView::Done(first), s + 1))
                } else {
                    Err(fail_at(start, ParseErrorKind::UnclosedBracket))
                }
            } else {
                p_union(t, end, seq![first], s, start)
            }
        } else {
            Err(stuck())
        },
    }
}

/// The rest of a union, at a comma or the closing bracket.
pub open spec fn p_union(
    t: Seq<SpanView>,
    end: nat,
    parts: Seq<ExprView>,
    at: nat,
    start: nat,
) -> Result<(AtomView, nat), ParseError>
    decreases t.len() - at, 0nat,
{
    if tok(t, at) == Some(TokenView::Comma) {
        match p_expression(t, end, at + 1, 0) {
            Err(e) => Err(e),
            Ok((part, a)) => if at < a <= t.len() {
                let s = skip_space(t, a);
                proof {
                    lemma_skip_space(t, a);
                }
                p_union(t, end, parts.push(part), s, start)
            } else {
                Err(stuck())
            },
        }
    } else {
        let s = skip_space(t, at);
        if tok(t, s) == Some(TokenView::CloseParen) {
            Ok((AtomView::Done(ExprView::Union(parts)), s + 1))
        } else {
            Err(fail_at(start, ParseErrorKind::UnclosedBracket))
        }
    }
}

/// Whether every row has the length of the first.
pub open spec fn rectangular(rows: Seq<Seq<ExprView>>) -> bool {
    forall|i: int| 0 <= i < rows.len() ==> (#[trigger] rows[i]).len() == rows[0].len()
}

/// An array once its closing brace is read.
pub open spec fn p_array_done(rows: Seq<Seq<ExprView>>, row: Seq<ExprView>, at: nat, start: nat) -> Result<
    (AtomView, nat),
    ParseError,
> {
    let all = if row.len() > 0 {
        rows.push(row)
    } else {
        rows
    };
    if rectangular(all) {
        Ok((AtomView::Done(ExprView::Array(all)), at))
    } else {
        Err(fail_at(start, ParseErrorKind::RaggedArray))
    }
}

/// The rest of an array literal: commas separate columns, semicolons rows.
pub open spec fn p_array(
    t: Seq<SpanView>,
    end: nat,
    rows: Seq<Seq<ExprView>>,
    row: Seq<ExprView>,
    at: nat,
    start: nat,
) -> Result<(AtomView, nat), ParseError>
    decreases t.len() - at, 10nat,
{
    let s = skip_space(t, at);
    proof {
        lemma_skip_space(t, at);
    }
    if tok(t, s) == Some(TokenView::CloseBrace) {
        p_array_done(rows, row, s + 1, start)
    } else {
        match p_expression(t, end, s, 0) {
            Err(e) => Err(e),
            Ok((item, a)) => if s < a <= t.len() {
                let row = row.push(item);
                let s2 = skip_space(t, a);
                proof {
                    lemma_skip_space(t, a);
                }
                match tok(t, s2) {
                    Some(TokenView::Comma) => p_array(t, end, rows, row, s2 + 1, start),
                    Some(TokenView::Semicolon) => p_array(
                        t,
                        end,
                        rows.push(row),
                        Seq::empty(),
                        s2 + 1,
                        start,
                    ),
                    Some(TokenView::CloseBrace) => p_array_done(rows, row, s2 + 1, start),
                    Some(_) => Err(fail(t, end, s2, ParseErrorKind::UnexpectedToken)),
                    None => Err(fail_at(start, ParseErrorKind::UnclosedBracket)),
                }
            } else {
                Err(stuck())
            },
        }
    }
}

/// A call's arguments after its `(`.
pub open spec fn p_arguments(t: Seq<SpanView>, end: nat, at: nat, start: nat) -> Result<
    (Seq<ExprView>, nat),
    ParseError,
>
    decreases t.len() - at, 11nat,
{
    let s = skip_space(t, at);
    proof {
        lemma_skip_space(t, at);
    }
    if tok(t, s) == Some(TokenView::CloseParen) {
        Ok((Seq::empty(), s + 1))
    } else {
        p_args(t, end, Seq::empty(), s, start)
    }
}

/// The rest of an argument list. An omitted argument, as in `IF(A1,,0)`,
/// is a blank.
pub open spec fn p_args(
    t: Seq<SpanView>,
    end: nat,
    args: Seq<ExprView>,
    at: nat,
    start: nat,
) -> Result<(Seq<ExprView>, nat), ParseError>
    decreases t.len() - at, 10nat,
{
    let s = skip_space(t, at);
    proof {
        lemma_skip_space(t, at);
    }
    let arg: Result<(ExprView, nat), ParseError> = if tok(t, s) == Some(TokenView::Comma) || tok(t, s)
        == Some(TokenView::CloseParen) {
        Ok((ExprView::Literal(LiteralView::Blank), s))
    } else {
        p_expression(t, end, s, 0)
    };
    match arg {
        Err(e) => Err(e),
        Ok((arg, a)) => if s <= a <= t.len() {
            let s2 = skip_space(t, a);
            proof {
                lemma_skip_space(t, a);
            }
            match tok(t, s2) {
                Some(TokenView::Comma) => p_args(t, end, args.push(arg), s2 + 1, start),
                Some(TokenView::CloseParen) => Ok((args.push(arg), s2 + 1)),
                Some(_) => Err(fail(t, end, s2, ParseErrorKind::UnexpectedToken)),
                None => Err(fail_at(start, ParseErrorKind::UnclosedBracket)),
            }
        } else {
            Err(stuck())
        },
    }
}

/// An array once its closing brace is read: the last row joins the others
/// unless it is empty, and every row must be as long as the first.
#[verifier::loop_isolation(false)]
fn finish_array(rows: Vec<Vec<Expr>>, row: Vec<Expr>, close: usize, start: usize) -> (r: Result<
    (Atom, usize),
    ParseError,
>)
    ensures
        atom_result(r) == p_array_done(rows_view(rows@), list_view(row@), close as nat, start as nat),
        r matches Ok((a, c)) ==> c == close && atom_in_grid(a),
{
    let ghost all = if list_view(row@).len() > 0 {
        rows_view(rows@).push(list_view(row@))
    } else {
        rows_view(rows@)
    };
    let ghost wanted = p_array_done(rows_view(rows@), list_view(row@), close as nat, start as nat);
    let ghost old_rows = rows@;
    let ghost old_row = row@;
    let mut grid = rows;
    proof {
        lemma_list_len(row@);
    }
    if row.len() > 0 {
        proof {
            lemma_rows_push(grid@, row);
        }
        grid.push(row);
    }
    assert(rows_view(grid@) == all);
    let rows = grid;
    let width = if rows.len() > 0 {
        rows[0].len()
    } else {
        0
    };
    proof {
        lemma_rows_len(rows@);
    }
    let mut i: usize = 0;
    while i < rows.len()
        invariant
            i <= rows@.len(),
            rows_view(rows@) == all,
            wanted == p_array_done(rows_view(old_rows), list_view(old_row), close as nat, start as nat),
            wanted == (if rectangular(all) {
                Ok((AtomView::Done(ExprView::Array(all)), close as nat))
            } else {
                Err(fail_at(start as nat, ParseErrorKind::RaggedArray))
            }),
            rows_view(rows@).len() == rows@.len(),
            forall|j: int| 0 <= j < rows@.len() ==> #[trigger] rows_view(rows@)[j] == list_view(rows@[j]@),
            rows@.len() > 0 ==> width == rows@[0].len(),
            forall|j: int| 0 <= j < i ==> (#[trigger] rows@[j]).len() == width,
        decreases rows.len() - i,
    {
        if rows[i].len() != width {
            proof {
                lemma_list_len(rows@[i as int]@);
                lemma_list_len(rows@[0]@);
                assert(rows_view(rows@)[i as int].len() != rows_view(rows@)[0].len());
                assert(!rectangular(rows_view(rows@)));
            }
            return Err(ParseError { kind: ParseErrorKind::RaggedArray, at: start });
        }
        i = i + 1;
    }
    proof {
        assert forall|j: int| 0 <= j < rows_view(rows@).len() implies (#[trigger] rows_view(rows@)[j]).len()
            == rows_view(rows@)[0].len() by {
            lemma_list_len(rows@[j]@);
            lemma_list_len(rows@[0]@);
        }
    }
    Ok((Atom::Done(Expr::Array(rows)), close))
}

/// The atom a number makes: one end of a whole-row range when it is a whole
/// number inside the grid's rows, else a literal.
pub open spec fn number_atom_view(n: Seq<char>) -> AtomView {
    if whole(n) && 1 <= floor_value(n) <= MAX_ROW + 1 {
        AtomView::BareRow(Bound { index: (floor_value(n) - 1) as u32, absolute: false })
    } else {
        AtomView::Done(ExprView::Literal(LiteralView::Number(n)))
    }
}

fn number_atom(n: &String) -> (a: Atom)
    ensures
        atom_view(a) == number_atom_view(n@),
        atom_in_grid(a),
{
    let digits = chars_of(n.as_str());
    let (is_whole, floor) = numeral(&digits);
    if is_whole && 1 <= floor && floor <= MAX_ROW + 1 {
        Atom::BareRow(Bound { index: floor - 1, absolute: false })
    } else {
        Atom::Done(Expr::Literal(Literal::Number(n.clone())))
    }
}

// ---------------------------------------------------------------------------
// The parser.

struct Parser<'a> {
    tokens: &'a Vec<Spanned>,
    /// Offset just past the formula, for errors that point at the end.
    end: usize,
}

pub open spec fn expr_result(r: Result<(Expr, usize), ParseError>) -> Result<(ExprView, nat), ParseError> {
    match r {
        Ok((e, a)) => Ok((expr_view(e), a as nat)),
        Err(x) => Err(x),
    }
}

pub open spec fn atom_result(r: Result<(Atom, usize), ParseError>) -> Result<(AtomView, nat), ParseError> {
    match r {
        Ok((e, a)) => Ok((atom_view(e), a as nat)),
        Err(x) => Err(x),
    }
}

/// An atom result whose bare row or column, if any, is inside the grid.
pub open spec fn atom_result_in_grid(r: Result<(Atom, usize), ParseError>) -> bool {
    r matches Ok((a, _)) ==> atom_in_grid(a)
}

proof fn lemma_list_push(s: Seq<Expr>, e: Expr)
    ensures
        list_view(s.push(e)) == list_view(s).push(expr_view(e)),
{
    assert(s.push(e).drop_last() =~= s);
}

proof fn lemma_rows_push(s: Seq<Vec<Expr>>, row: Vec<Expr>)
    ensures
        rows_view(s.push(row)) == rows_view(s).push(list_view(row@)),
{
    assert(s.push(row).drop_last() =~= s);
}

proof fn lemma_list_len(s: Seq<Expr>)
    ensures
        list_view(s).len() == s.len(),
    decreases s.len(),
{
    if s.len() > 0 {
        lemma_list_len(s.drop_last());
    }
}

proof fn lemma_rows_len(s: Seq<Vec<Expr>>)
    ensures
        rows_view(s).len() == s.len(),
        forall|i: int| 0 <= i < s.len() ==> #[trigger] rows_view(s)[i] == list_view(s[i]@),
    decreases s.len(),
{
    if s.len() > 0 {
        lemma_rows_len(s.drop_last());
        assert forall|i: int| 0 <= i < s.len() implies #[trigger] rows_view(s)[i] == list_view(s[i]@) by {
            if i < s.len() - 1 {
                assert(s.drop_last()[i] == s[i]);
            }
        }
    }
}

impl<'a> Parser<'a> {
    /// Room to look a few tokens past the end without overflow.
    spec fn roomy(&self) -> bool {
        self.tokens@.len() + 8 <= usize::MAX
    }

    spec fn toks(&self) -> Seq<SpanView> {
        spans_view(self.tokens@)
    }

    spec fn stop(&self) -> nat {
        self.end as nat
    }

    fn peek(&self, at: usize) -> (r: Option<&'a Token>)
        ensures
            r matches Some(x) ==> at < self.tokens@.len() && tok(self.toks(), at as nat) == Some(x@),
            r is None ==> at >= self.tokens@.len() && tok(self.toks(), at as nat) is None,
    {
        if at < self.tokens.len() {
            Some(&self.tokens[at].token)
        } else {
            None
        }
    }

    fn position(&self, at: usize) -> (p: usize)
        ensures
            p == position(self.toks(), self.stop(), at as nat),
    {
        if at < self.tokens.len() {
            self.tokens[at].start
        } else {
            self.end
        }
    }

    fn error_here(&self, at: usize, kind: ParseErrorKind) -> (e: ParseError)
        ensures
            e == fail(self.toks(), self.stop(), at as nat, kind),
    {
        ParseError { kind, at: self.position(at) }
    }

    fn skip_space(&self, at: usize) -> (s: usize)
        requires
            self.roomy(),
            at <= self.tokens@.len(),
        ensures
            s == skip_space(self.toks(), at as nat),
            at <= s <= self.tokens@.len(),
    {
        let mut s = at;
        while s < self.tokens.len() && matches!(self.tokens[s].token, Token::Space)
            invariant
                at <= s <= self.tokens@.len(),
                skip_space(self.toks(), s as nat) == skip_space(self.toks(), at as nat),
            decreases self.tokens@.len() - s,
        {
            s = s + 1;
        }
        s
    }

    fn is_space(&self, at: usize) -> (b: bool)
        ensures
            b == (tok(self.toks(), at as nat) == Some(TokenView::Space)),
    {
        matches!(self.peek(at), Some(Token::Space))
    }

    fn is_colon(&self, at: usize) -> (b: bool)
        ensures
            b == (tok(self.toks(), at as nat) == Some(TokenView::Colon)),
    {
        matches!(self.peek(at), Some(Token::Colon))
    }

    fn is_comma(&self, at: usize) -> (b: bool)
        ensures
            b == (tok(self.toks(), at as nat) == Some(TokenView::Comma)),
    {
        matches!(self.peek(at), Some(Token::Comma))
    }

    fn is_close_paren(&self, at: usize) -> (b: bool)
        ensures
            b == (tok(self.toks(), at as nat) == Some(TokenView::CloseParen)),
    {
        matches!(self.peek(at), Some(Token::CloseParen))
    }

    fn is_open_paren(&self, at: usize) -> (b: bool)
        ensures
            b == (tok(self.toks(), at as nat) == Some(TokenView::OpenParen)),
    {
        matches!(self.peek(at), Some(Token::OpenParen))
    }

    fn is_bang(&self, at: usize) -> (b: bool)
        ensures
            b == (tok(self.toks(), at as nat) == Some(TokenView::Bang)),
    {
        matches!(self.peek(at), Some(Token::Bang))
    }

    fn is_percent(&self, at: usize) -> (b: bool)
        ensures
            b == (tok(self.toks(), at as nat) == Some(TokenView::Percent)),
    {
        matches!(self.peek(at), Some(Token::Percent))
    }

    /// The binding-power loop over the infix operators.
    #[verifier::rlimit(50)]
    fn expression(&self, at: usize, min: u8) -> (r: Result<(Expr, usize), ParseError>)
        requires
            self.roomy(),
            at <= self.tokens@.len(),
        ensures
            expr_result(r) == p_expression(self.toks(), self.stop(), at as nat, min),
            r matches Ok((_, a)) ==> at < a <= self.tokens@.len(),
        decreases self.tokens@.len() - at, 9nat,
    {
        let (mut left, mut pos) = match self.prefix(at) {
            Err(e) => {
                return Err(e);
            },
            Ok(x) => x,
        };
        loop
            invariant
                self.roomy(),
                at < pos <= self.tokens@.len(),
                p_expression(self.toks(), self.stop(), at as nat, min) == p_binary(
                    self.toks(),
                    self.stop(),
                    expr_view(left),
                    pos as nat,
                    min,
                ),
            decreases self.tokens@.len() - pos,
        {
            let s = self.skip_space(pos);
            let op = match self.peek(s) {
                None => None,
                Some(token) => binary_op(token),
            };
            let op = match op {
                None => {
                    return Ok((left, s));
                },
                Some(op) => op,
            };
            let power = op.binding_power();
            if power < min {
                return Ok((left, s));
            }
            let (right, a) = match self.expression(s + 1, power + 1) {
                Err(e) => {
                    return Err(e);
                },
                Ok(x) => x,
            };
            left = Expr::Binary { op, left: Box::new(left), right: Box::new(right) };
            pos = a;
        }
    }

    /// Unary signs, then any trailing `%`.
    #[verifier::rlimit(50)]
    fn prefix(&self, at: usize) -> (r: Result<(Expr, usize), ParseError>)
        requires
            self.roomy(),
            at <= self.tokens@.len(),
        ensures
            expr_result(r) == p_prefix(self.toks(), self.stop(), at as nat),
            r matches Ok((_, a)) ==> at < a <= self.tokens@.len(),
        decreases self.tokens@.len() - at, 8nat,
    {
        let (mut expr, mut pos) = match self.signed(at) {
            Err(e) => {
                return Err(e);
            },
            Ok(x) => x,
        };
        loop
            invariant
                self.roomy(),
                at < pos <= self.tokens@.len(),
                p_prefix(self.toks(), self.stop(), at as nat) == p_percent(
                    self.toks(),
                    self.stop(),
                    expr_view(expr),
                    pos as nat,
                ),
            decreases self.tokens@.len() - pos,
        {
            let s = self.skip_space(pos);
            if self.is_percent(s) {
                expr = Expr::Percent(Box::new(expr));
                pos = s + 1;
            } else {
                return Ok((expr, s));
            }
        }
    }

    #[verifier::rlimit(50)]
    fn signed(&self, at: usize) -> (r: Result<(Expr, usize), ParseError>)
        requires
            self.roomy(),
            at <= self.tokens@.len(),
        ensures
            expr_result(r) == p_signed(self.toks(), self.stop(), at as nat),
            r matches Ok((_, a)) ==> at < a <= self.tokens@.len(),
        decreases self.tokens@.len() - at, 6nat,
    {
        let s = self.skip_space(at);
        let op = match self.peek(s) {
            Some(Token::Minus) => UnaryOp::Negate,
            Some(Token::Plus) => UnaryOp::Plus,
            _ => {
                return self.reference_chain(s);
            },
        };
        match self.signed(s + 1) {
            Err(e) => Err(e),
            Ok((operand, a)) => Ok((Expr::Unary { op, operand: Box::new(operand) }, a)),
        }
    }

    /// Intersection: two references separated by a space.
    #[verifier::rlimit(60)]
    fn reference_chain(&self, at: usize) -> (r: Result<(Expr, usize), ParseError>)
        requires
            self.roomy(),
            at <= self.tokens@.len(),
        ensures
            expr_result(r) == p_reference_chain(self.toks(), self.stop(), at as nat),
            r matches Ok((_, a)) ==> at < a <= self.tokens@.len(),
        decreases self.tokens@.len() - at, 5nat,
    {
        let (mut left, mut pos) = match self.range_chain(at) {
            Err(e) => {
                return Err(e);
            },
            Ok(x) => x,
        };
        loop
            invariant
                self.roomy(),
                at < pos <= self.tokens@.len(),
                atom_in_grid(left),
                p_reference_chain(self.toks(), self.stop(), at as nat) == p_intersections(
                    self.toks(),
                    self.stop(),
                    atom_view(left),
                    pos as nat,
                ),
            decreases self.tokens@.len() - pos,
        {
            let follows = match self.peek(pos + 1) {
                Some(token) => token.can_begin_operand(),
                None => false,
            };
            if !(self.is_space(pos) && follows) {
                return Ok((left.into_expr(), pos));
            }
            let (right, a) = match self.range_chain(pos + 1) {
                Err(e) => {
                    return Err(e);
                },
                Ok(x) => x,
            };
            left = Atom::Done(
                Expr::Intersect { left: Box::new(left.into_expr()), right: Box::new(right.into_expr()) },
            );
            pos = a;
        }
    }

    /// The range operator, which binds tighter than everything else.
    #[verifier::rlimit(50)]
    fn range_chain(&self, at: usize) -> (r: Result<(Atom, usize), ParseError>)
        requires
            self.roomy(),
            at <= self.tokens@.len(),
        ensures
            atom_result(r) == p_range_chain(self.toks(), self.stop(), at as nat),
            atom_result_in_grid(r),
            r matches Ok((_, a)) ==> at < a <= self.tokens@.len(),
        decreases self.tokens@.len() - at, 3nat,
    {
        let (mut left, mut pos) = match self.atom(at) {
            Err(e) => {
                return Err(e);
            },
            Ok(x) => x,
        };
        loop
            invariant
                self.roomy(),
                at < pos <= self.tokens@.len(),
                atom_in_grid(left),
                p_range_chain(self.toks(), self.stop(), at as nat) == p_ranges(
                    self.toks(),
                    self.stop(),
                    atom_view(left),
                    pos as nat,
                ),
            decreases self.tokens@.len() - pos,
        {
            if !self.is_colon(pos) {
                return Ok((left, pos));
            }
            let (right, a) = match self.atom(pos + 1) {
                Err(e) => {
                    return Err(e);
                },
                Ok(x) => x,
            };
            left = Atom::Done(join_range(left, right));
            pos = a;
        }
    }

    #[verifier::rlimit(50)]
    fn atom(&self, at: usize) -> (r: Result<(Atom, usize), ParseError>)
        requires
            self.roomy(),
            at <= self.tokens@.len(),
        ensures
            atom_result(r) == p_atom(self.toks(), self.stop(), at as nat),
            atom_result_in_grid(r),
            r matches Ok((_, a)) ==> at < a <= self.tokens@.len(),
        decreases self.tokens@.len() - at, 1nat,
    {
        let s = self.skip_space(at);
        let start = self.position(s);
        let token = match self.peek(s) {
            None => {
                return Err(self.error_here(s, ParseErrorKind::UnexpectedEnd));
            },
            Some(token) => token,
        };
        match token {
            Token::Number(n) => Ok((number_atom(n), s + 1)),
            Token::Text(v) => Ok((Atom::Done(Expr::Literal(Literal::Text(v.clone()))), s + 1)),
            Token::Error(e) => Ok((Atom::Done(Expr::Literal(Literal::Error(*e))), s + 1)),
            Token::OpenParen => self.parenthesised(s + 1, start),
            Token::OpenBrace => self.array_literal(s + 1, start),
            Token::Word(_) => self.word_atom(s),
            Token::QuotedName(_) => self.word_atom(s),
            _ => Err(self.error_here(s, ParseErrorKind::UnexpectedToken)),
        }
    }

    /// A parenthesised group, which is either grouping or a union.
    #[verifier::rlimit(50)]
    fn parenthesised(&self, at: usize, start: usize) -> (r: Result<(Atom, usize), ParseError>)
        requires
            self.roomy(),
            at <= self.tokens@.len(),
        ensures
            atom_result(r) == p_parenthesised(self.toks(), self.stop(), at as nat, start as nat),
            atom_result_in_grid(r),
            r matches Ok((_, a)) ==> at < a <= self.tokens@.len(),
        decreases self.tokens@.len() - at, 10nat,
    {
        let (first, a) = match self.expression(at, 0) {
            Err(e) => {
                return Err(e);
            },
            Ok(x) => x,
        };
        let s = self.skip_space(a);
        if !self.is_comma(s) {
            if self.is_close_paren(s) {
                return Ok((Atom::Done(first), s + 1));
            } else {
                return Err(ParseError { kind: ParseErrorKind::UnclosedBracket, at: start });
            }
        }
        // Commas at the top level of a group make it a union of references.
        let mut parts: Vec<Expr> = Vec::new();
        parts.push(first);
        let mut pos = s;
        proof {
            lemma_list_push(Seq::empty(), first);
            assert(Seq::<Expr>::empty().push(first) =~= parts@);
            assert(list_view(Seq::<Expr>::empty()) =~= Seq::<ExprView>::empty());
            assert(seq![expr_view(first)] =~= Seq::<ExprView>::empty().push(expr_view(first)));
        }
        loop
            invariant
                self.roomy(),
                at < pos <= self.tokens@.len(),
                p_parenthesised(self.toks(), self.stop(), at as nat, start as nat) == p_union(
                    self.toks(),
                    self.stop(),
                    list_view(parts@),
                    pos as nat,
                    start as nat,
                ),
            decreases self.tokens@.len() - pos,
        {
            if !self.is_comma(pos) {
                let s = self.skip_space(pos);
                if self.is_close_paren(s) {
                    return Ok((Atom::Done(Expr::Union(parts)), s + 1));
                } else {
                    return Err(ParseError { kind: ParseErrorKind::UnclosedBracket, at: start });
                }
            }
            let (part, a) = match self.expression(pos + 1, 0) {
                Err(e) => {
                    return Err(e);
                },
                Ok(x) => x,
            };
            proof {
                lemma_list_push(parts@, part);
            }
            parts.push(part);
            pos = self.skip_space(a);
        }
    }

    /// `{1,2;3,4}`: commas separate columns, semicolons separate rows.
    #[verifier::rlimit(50)]
    fn array_literal(&self, at: usize, start: usize) -> (r: Result<(Atom, usize), ParseError>)
        requires
            self.roomy(),
            at <= self.tokens@.len(),
        ensures
            atom_result(r) == p_array(
                self.toks(),
                self.stop(),
                Seq::empty(),
                Seq::empty(),
                at as nat,
                start as nat,
            ),
            atom_result_in_grid(r),
            r matches Ok((_, a)) ==> at < a <= self.tokens@.len(),
        decreases self.tokens@.len() - at, 10nat,
    {
        let mut rows: Vec<Vec<Expr>> = Vec::new();
        let mut row: Vec<Expr> = Vec::new();
        let mut pos = at;
        proof {
            assert(rows_view(rows@) =~= Seq::<Seq<ExprView>>::empty());
            assert(list_view(row@) =~= Seq::<ExprView>::empty());
        }
        let close;
        loop
            invariant_except_break
                self.roomy(),
                at <= pos <= self.tokens@.len(),
                p_array(self.toks(), self.stop(), Seq::empty(), Seq::empty(), at as nat, start as nat)
                    == p_array(
                    self.toks(),
                    self.stop(),
                    rows_view(rows@),
                    list_view(row@),
                    pos as nat,
                    start as nat,
                ),
            ensures
                at < close <= self.tokens@.len(),
                p_array(self.toks(), self.stop(), Seq::empty(), Seq::empty(), at as nat, start as nat)
                    == p_array_done(rows_view(rows@), list_view(row@), close as nat, start as nat),
            decreases self.tokens@.len() - pos,
        {
            let s = self.skip_space(pos);
            if matches!(self.peek(s), Some(Token::CloseBrace)) {
                close = s + 1;
                break;
            }
            let (item, a) = match self.expression(s, 0) {
                Err(e) => {
                    return Err(e);
                },
                Ok(x) => x,
            };
            proof {
                lemma_list_push(row@, item);
            }
            row.push(item);
            let s2 = self.skip_space(a);
            match self.peek(s2) {
                Some(Token::Comma) => {
                    pos = s2 + 1;
                },
                Some(Token::Semicolon) => {
                    proof {
                        lemma_rows_push(rows@, row);
                    }
                    rows.push(row);
                    row = Vec::new();
                    proof {
                        assert(list_view(row@) =~= Seq::<ExprView>::empty());
                    }
                    pos = s2 + 1;
                },
                Some(Token::CloseBrace) => {
                    close = s2 + 1;
                    break;
                },
                Some(_) => {
                    return Err(self.error_here(s2, ParseErrorKind::UnexpectedToken));
                },
                None => {
                    return Err(ParseError { kind: ParseErrorKind::UnclosedBracket, at: start });
                },
            }
        }
        finish_array(rows, row, close, start)
    }

    /// A sheet name at a position: a plain word or a quoted name.
    fn name_at(&self, at: usize) -> (r: Option<String>)
        ensures
            r matches Some(n) ==> name_token(tok(self.toks(), at as nat)) == Some(n@),
            r is None ==> name_token(tok(self.toks(), at as nat)) is None,
    {
        match self.peek(at) {
            Some(Token::Word(w)) => Some(w.clone()),
            Some(Token::QuotedName(w)) => Some(w.clone()),
            _ => None,
        }
    }

    /// Consume `Name!` or `First:Last!` if that is what comes next.
    fn try_sheet_prefix(&self, at: usize) -> (r: Option<(SheetRef, usize)>)
        requires
            self.roomy(),
            at <= self.tokens@.len(),
        ensures
            match r {
                Some((sheet, a)) => p_sheet_prefix(self.toks(), at as nat) == Some(
                    (sheet_view(sheet), a as nat),
                ) && at < a <= self.tokens@.len(),
                None => p_sheet_prefix(self.toks(), at as nat) is None,
            },
    {
        let first = match self.name_at(at) {
            Some(first) => first,
            None => {
                return None;
            },
        };
        if self.is_bang(at + 1) {
            return Some((SheetRef::One(first), at + 2));
        }
        if self.is_colon(at + 1) && at + 3 < self.tokens.len() && self.is_bang(at + 3) {
            match self.name_at(at + 2) {
                Some(last) => {
                    return Some((SheetRef::Span { first, last }, at + 4));
                },
                None => {},
            }
        }
        None
    }

    /// The word at a position, as characters.
    fn word_chars(&self, at: usize) -> (r: Option<Vec<char>>)
        ensures
            r matches Some(w) ==> tok(self.toks(), at as nat) == Some(TokenView::Word(w@)),
            r is None ==> !(tok(self.toks(), at as nat) matches Some(TokenView::Word(_))),
    {
        match self.peek(at) {
            Some(Token::Word(w)) => Some(chars_of(w.as_str())),
            _ => None,
        }
    }

    /// The reference part after a sheet prefix, if there is one.
    ///
    /// Returns `None` when what follows is a defined name rather than a
    /// reference, leaving the token unconsumed.
    #[verifier::rlimit(50)]
    fn local_reference(&self, at: usize) -> (r: Result<(Option<RefTarget>, usize), ParseError>)
        requires
            self.roomy(),
            at <= self.tokens@.len(),
        ensures
            match r {
                Ok((target, a)) => p_local_reference(self.toks(), self.stop(), at as nat) == Ok::<
                    (Option<RefTarget>, nat),
                    ParseError,
                >((target, a as nat)) && at <= a <= self.tokens@.len(),
                Err(e) => p_local_reference(self.toks(), self.stop(), at as nat) == Err::<
                    (Option<RefTarget>, nat),
                    ParseError,
                >(e),
            },
    {
        if matches!(self.peek(at), Some(Token::Error(CalcError::Ref))) {
            return Ok((Some(RefTarget::Invalid), at + 1));
        }
        let start = self.position(at);
        match self.peek(at) {
            Some(Token::Number(n)) => {
                let digits = chars_of(n.as_str());
                let (is_whole, first) = numeral(&digits);
                if !(is_whole && first >= 1) {
                    return Ok((None, at));
                }
                // A bare number after `!` can only be a row range.
                if !self.is_colon(at + 1) {
                    return Ok((None, at));
                }
                let last = match self.peek(at + 2) {
                    Some(Token::Number(m)) => {
                        let digits = chars_of(m.as_str());
                        let (_, whole_part) = numeral(&digits);
                        whole_part.wrapping_sub(1)
                    },
                    _ => {
                        return Err(self.error_here(at + 2, ParseErrorKind::UnexpectedToken));
                    },
                };
                let row = first - 1;
                if row > MAX_ROW || last > MAX_ROW {
                    return Err(
                        ParseError {
                            kind: ParseErrorKind::BadReference(ParseRefError::RowRange),
                            at: start,
                        },
                    );
                }
                Ok(
                    (
                        Some(
                            rows_target(
                                Bound { index: row, absolute: false },
                                Bound { index: last, absolute: false },
                            ),
                        ),
                        at + 3,
                    ),
                )
            },
            Some(Token::Word(w)) => {
                let chars = chars_of(w.as_str());
                match classify_word(&chars) {
                    WordKind::Cell(cell) => {
                        // `Sheet1!A1:B2` keeps the sheet across the whole range.
                        let a = at + 1;
                        if self.is_colon(a) && a + 2 <= self.tokens.len() && !self.is_bang(a + 2) {
                            match self.word_chars(a + 1) {
                                Some(next) => {
                                    match classify_word(&next) {
                                        WordKind::Cell(end) => {
                                            return Ok(
                                                (Some(RefTarget::Range { start: cell, end }), a + 2),
                                            );
                                        },
                                        _ => {},
                                    }
                                },
                                None => {},
                            }
                        }
                        Ok((Some(RefTarget::Cell(cell)), a))
                    },
                    WordKind::Column(bound) => {
                        // Only a range makes sense: `Sheet1!A:C`.
                        if self.is_colon(at + 1) {
                            match self.word_chars(at + 2) {
                                Some(next) => {
                                    match classify_word(&next) {
                                        WordKind::Column(last) => {
                                            return Ok(
                                                (Some(columns_target(bound, last)), at + 3),
                                            );
                                        },
                                        _ => {},
                                    }
                                },
                                None => {},
                            }
                        }
                        Ok((None, at))
                    },
                    WordKind::OutOfGrid(e) => Err(
                        ParseError { kind: ParseErrorKind::BadReference(e), at: start },
                    ),
                    WordKind::Name => Ok((None, at)),
                }
            },
            _ => Ok((None, at)),
        }
    }

    /// What follows a sheet prefix.
    #[verifier::rlimit(50)]
    fn qualified(&self, sheet: SheetRef, a: usize, start: usize) -> (r: Result<(Atom, usize), ParseError>)
        requires
            self.roomy(),
            a <= self.tokens@.len(),
        ensures
            atom_result(r) == p_qualified(self.toks(), self.stop(), sheet_view(sheet), a as nat, start as nat),
            atom_result_in_grid(r),
            r matches Ok((_, b)) ==> a <= b <= self.tokens@.len(),
    {
        match self.local_reference(a) {
            Err(e) => Err(e),
            Ok((Some(target), b)) => Ok((Atom::Done(Expr::Ref { sheet: Some(sheet), target }), b)),
            Ok((None, b)) => match self.peek(b) {
                // `Sheet1!SomeName` is a sheet-scoped defined name.
                Some(Token::Word(name)) => Ok(
                    (Atom::Done(Expr::Name { sheet: Some(sheet), name: name.clone() }), b + 1),
                ),
                _ => Err(ParseError { kind: ParseErrorKind::UnexpectedToken, at: start }),
            },
        }
    }

    /// A word standing on its own.
    #[verifier::rlimit(50)]
    fn bare_word(&self, word: &String, at: usize, start: usize) -> (r: Result<(Atom, usize), ParseError>)
        requires
            self.roomy(),
            at < self.tokens@.len(),
        ensures
            atom_result(r) == p_bare_word(word@, at as nat, start as nat),
            atom_result_in_grid(r),
            r matches Ok((_, b)) ==> b == at + 1,
    {
        let chars = chars_of(word.as_str());
        if chars_equal_ignoring_ascii_case(&chars, &vec!['T', 'R', 'U', 'E']) {
            return Ok((Atom::Done(Expr::Literal(Literal::Logical(true))), at + 1));
        }
        if chars_equal_ignoring_ascii_case(&chars, &vec!['F', 'A', 'L', 'S', 'E']) {
            return Ok((Atom::Done(Expr::Literal(Literal::Logical(false))), at + 1));
        }
        match classify_word(&chars) {
            WordKind::Cell(cell) => Ok(
                (Atom::Done(Expr::Ref { sheet: None, target: RefTarget::Cell(cell) }), at + 1),
            ),
            WordKind::Column(bound) => {
                proof {
                    lemma_column_word(chars@);
                }
                Ok((Atom::BareColumn(bound), at + 1))
            },
            WordKind::OutOfGrid(e) => Err(
                ParseError { kind: ParseErrorKind::BadReference(e), at: start },
            ),
            WordKind::Name => Ok((Atom::Done(Expr::Name { sheet: None, name: word.clone() }), at + 1)),
        }
    }

    /// A word: a function call, a sheet-qualified reference, a plain
    /// reference, or a defined name.
    #[verifier::rlimit(50)]
    fn word_atom(&self, at: usize) -> (r: Result<(Atom, usize), ParseError>)
        requires
            self.roomy(),
            at <= self.tokens@.len(),
        ensures
            atom_result(r) == p_word(self.toks(), self.stop(), at as nat),
            atom_result_in_grid(r),
            r matches Ok((_, a)) ==> at < a <= self.tokens@.len(),
        decreases self.tokens@.len() - at, 0nat,
    {
        let start = self.position(at);
        match self.try_sheet_prefix(at) {
            Some((sheet, a)) => {
                return self.qualified(sheet, a, start);
            },
            None => {},
        }
        let word = match self.peek(at) {
            Some(Token::Word(word)) => word,
            _ => {
                return Err(self.error_here(at, ParseErrorKind::UnexpectedToken));
            },
        };
        // A word followed by `(` is a call, whatever it otherwise looks like.
        if self.is_open_paren(at + 1) {
            return match self.argument_list(at + 2, start) {
                Err(e) => Err(e),
                Ok((args, a)) => Ok((Atom::Done(Expr::Call { name: word.clone(), args }), a)),
            };
        }
        self.bare_word(word, at, start)
    }

    #[verifier::rlimit(60)]
    fn argument_list(&self, at: usize, start: usize) -> (r: Result<(Vec<Expr>, usize), ParseError>)
        requires
            self.roomy(),
            at <= self.tokens@.len(),
        ensures
            match r {
                Ok((args, a)) => p_arguments(self.toks(), self.stop(), at as nat, start as nat) == Ok::<
                    (Seq<ExprView>, nat),
                    ParseError,
                >((list_view(args@), a as nat)) && at < a <= self.tokens@.len(),
                Err(e) => p_arguments(self.toks(), self.stop(), at as nat, start as nat) == Err::<
                    (Seq<ExprView>, nat),
                    ParseError,
                >(e),
            },
        decreases self.tokens@.len() - at, 11nat,
    {
        let mut args: Vec<Expr> = Vec::new();
        let s = self.skip_space(at);
        proof {
            assert(list_view(args@) =~= Seq::<ExprView>::empty());
        }
        if self.is_close_paren(s) {
            return Ok((args, s + 1));
        }
        let mut pos = s;
        loop
            invariant
                self.roomy(),
                at <= pos <= self.tokens@.len(),
                p_arguments(self.toks(), self.stop(), at as nat, start as nat) == p_args(
                    self.toks(),
                    self.stop(),
                    list_view(args@),
                    pos as nat,
                    start as nat,
                ),
            decreases self.tokens@.len() - pos,
        {
            let s = self.skip_space(pos);
            // An omitted argument, as in `IF(A1,,0)`, is a blank.
            let (arg, a) = if self.is_comma(s) || self.is_close_paren(s) {
                (Expr::Literal(Literal::Blank), s)
            } else {
                match self.expression(s, 0) {
                    Err(e) => {
                        return Err(e);
                    },
                    Ok(x) => x,
                }
            };
            proof {
                lemma_list_push(args@, arg);
            }
            args.push(arg);
            let s2 = self.skip_space(a);
            match self.peek(s2) {
                Some(Token::Comma) => {
                    pos = s2 + 1;
                },
                Some(Token::CloseParen) => {
                    return Ok((args, s2 + 1));
                },
                Some(_) => {
                    return Err(self.error_here(s2, ParseErrorKind::UnexpectedToken));
                },
                None => {
                    return Err(ParseError { kind: ParseErrorKind::UnclosedBracket, at: start });
                },
            }
        }
    }
}

// ---------------------------------------------------------------------------
// Whole formulas.

/// A formula without its leading `=`, if it has one.
pub open spec fn formula_body(f: Seq<char>) -> Seq<char> {
    if f.len() > 0 && f[0] == '=' {
        f.drop_first()
    } else {
        f
    }
}

/// A whole run of tokens as one expression, with nothing after it but
/// spaces.
pub open spec fn parse_tokens(t: Seq<SpanView>, end: nat) -> Result<ExprView, ParseError> {
    match p_expression(t, end, 0, 0) {
        Err(e) => Err(e),
        Ok((x, a)) => {
            let s = skip_space(t, a);
            if s < t.len() {
                Err(fail(t, end, s, ParseErrorKind::TrailingInput))
            } else {
                Ok(x)
            }
        },
    }
}

/// What a formula parses to. A single leading `=` is accepted and ignored;
/// offsets count from after it.
pub open spec fn parse_formula(f: Seq<char>) -> Result<ExprView, ParseError> {
    let body = formula_body(f);
    match lex(body) {
        Lexed::Failed(e) => Err(ParseError { kind: ParseErrorKind::Lex(e), at: e.at }),
        Lexed::Tokens(t) => parse_tokens(t, utf8_len(body)),
        Lexed::Panics => Err(stuck()),
    }
}

/// The formulas `parse` takes: short enough that every byte offset fits in
/// a `usize` with room to spare, and none that makes the reader slice the
/// text inside a character (a `#` followed by text whose bytes an error
/// spelling would cut).
pub open spec fn parsable(f: Seq<char>) -> bool {
    &&& utf8_len(formula_body(f)) + 8 <= usize::MAX
    &&& !(lex(formula_body(f)) is Panics)
}

/// Parse a formula. A single leading `=` is accepted and ignored.
pub fn parse(formula: &str) -> (r: Result<Expr, ParseError>)
    requires
        parsable(formula@),
    ensures
        match r {
            Ok(e) => parse_formula(formula@) == Ok::<ExprView, ParseError>(expr_view(e)),
            Err(x) => parse_formula(formula@) == Err::<ExprView, ParseError>(x),
        },
{
    let chars = chars_of(formula);
    let body_chars = if chars.len() > 0 && chars[0] == '=' {
        drop_first_char(&chars)
    } else {
        chars
    };
    let body = string_of_chars(&body_chars);
    let end = byte_len(&body_chars);
    let tokens = match tokenize(body.as_str()) {
        Err(e) => {
            return Err(ParseError { kind: ParseErrorKind::Lex(e), at: e.at });
        },
        Ok(tokens) => tokens,
    };
    proof {
        lemma_token_count(body_chars@, 0);
        assert(spans_view(tokens@).len() == tokens@.len());
    }
    let parser = Parser { tokens: &tokens, end };
    let (expr, a) = match parser.expression(0, 0) {
        Err(e) => {
            return Err(e);
        },
        Ok(x) => x,
    };
    let s = parser.skip_space(a);
    if s < tokens.len() {
        return Err(parser.error_here(s, ParseErrorKind::TrailingInput));
    }
    Ok(expr)
}

/// Parse a formula when it is one `parse` takes, and say `None` when it is
/// not: a text too long for its offsets to be counted, or one whose error
/// spelling would be read across the middle of a character.
pub fn try_parse(formula: &str) -> (r: Option<Result<Expr, ParseError>>)
    ensures
        r is None <==> !parsable(formula@),
        r matches Some(x) ==> match x {
            Ok(e) => parse_formula(formula@) == Ok::<ExprView, ParseError>(expr_view(e)),
            Err(e) => parse_formula(formula@) == Err::<ExprView, ParseError>(e),
        },
{
    let chars = chars_of(formula);
    let body_chars = if chars.len() > 0 && chars[0] == '=' {
        drop_first_char(&chars)
    } else {
        chars
    };
    assert(body_chars@ == formula_body(formula@));
    if !crate::lexer::bytes_fit(&body_chars, 8) {
        return None;
    }
    let body = string_of_chars(&body_chars);
    if crate::lexer::lex_cuts(body.as_str()) {
        return None;
    }
    Some(parse(formula))
}

} // verus!
