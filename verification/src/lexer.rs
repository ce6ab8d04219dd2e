//! Turning formula text into tokens.
//!
//! The lexer stays deliberately ignorant. It does not know whether `A1` is a
//! cell or a defined name, nor whether `SUM` is a function; both are just
//! words. Deciding that needs the context of what follows, which is the
//! parser's job.
//!
//! One oddity is worth stating up front: **whitespace is significant**. A
//! space between two references is the intersection operator, so runs of
//! whitespace are emitted as a token rather than skipped.
//!
//! Positions are byte offsets into the formula text, as an editor reports
//! them; the text itself is walked one character at a time.

use vstd::prelude::*;

use crate::coord::digits_end;
use crate::text::{ascii_digit, chars_of, is_ascii_digit, push_char};
use crate::value::{fold_ascii, same_ignoring_ascii_case, CalcError};

verus! {

broadcast use vstd::string::group_string_axioms;

// ---------------------------------------------------------------------------
// Tokens.

#[derive(Clone, PartialEq, Debug)]
pub enum Token {
    /// A number, spelled as written: digits, at most one point, and an
    /// exponent only where digits follow it.
    Number(String),
    /// A quoted string literal, with doubled quotes already collapsed.
    Text(String),
    /// An error value written out in the formula, such as `#N/A`.
    Error(CalcError),
    /// A run of name characters: a function, a defined name, a cell
    /// reference, or an unquoted sheet name.
    Word(String),
    /// A sheet name that needed quoting, with doubled quotes collapsed.
    QuotedName(String),
    Plus,
    Minus,
    Star,
    Slash,
    Caret,
    Percent,
    Ampersand,
    Equal,
    NotEqual,
    Less,
    LessEqual,
    Greater,
    GreaterEqual,
    OpenParen,
    CloseParen,
    OpenBrace,
    CloseBrace,
    Comma,
    Semicolon,
    Colon,
    /// Separates a sheet name from the reference on it.
    Bang,
    /// One or more whitespace characters. Between two references this is the
    /// intersection operator; everywhere else the parser discards it.
    Space,
}

/// A token as a value: its text, where it has one, as characters.
pub enum TokenView {
    Number(Seq<char>),
    Text(Seq<char>),
    Error(CalcError),
    Word(Seq<char>),
    QuotedName(Seq<char>),
    Plus,
    Minus,
    Star,
    Slash,
    Caret,
    Percent,
    Ampersand,
    Equal,
    NotEqual,
    Less,
    LessEqual,
    Greater,
    GreaterEqual,
    OpenParen,
    CloseParen,
    OpenBrace,
    CloseBrace,
    Comma,
    Semicolon,
    Colon,
    Bang,
    Space,
}

impl View for Token {
    type V = TokenView;

    open spec fn view(&self) -> TokenView {
        match self {
            Token::Number(s) => TokenView::Number(s@),
            Token::Text(s) => TokenView::Text(s@),
            Token::Error(e) => TokenView::Error(*e),
            Token::Word(s) => TokenView::Word(s@),
            Token::QuotedName(s) => TokenView::QuotedName(s@),
            Token::Plus => TokenView::Plus,
            Token::Minus => TokenView::Minus,
            Token::Star => TokenView::Star,
            Token::Slash => TokenView::Slash,
            Token::Caret => TokenView::Caret,
            Token::Percent => TokenView::Percent,
            Token::Ampersand => TokenView::Ampersand,
            Token::Equal => TokenView::Equal,
            Token::NotEqual => TokenView::NotEqual,
            Token::Less => TokenView::Less,
            Token::LessEqual => TokenView::LessEqual,
            Token::Greater => TokenView::Greater,
            Token::GreaterEqual => TokenView::GreaterEqual,
            Token::OpenParen => TokenView::OpenParen,
            Token::CloseParen => TokenView::CloseParen,
            Token::OpenBrace => TokenView::OpenBrace,
            Token::CloseBrace => TokenView::CloseBrace,
            Token::Comma => TokenView::Comma,
            Token::Semicolon => TokenView::Semicolon,
            Token::Colon => TokenView::Colon,
            Token::Bang => TokenView::Bang,
            Token::Space => TokenView::Space,
        }
    }
}

/// Whether a token could begin an operand.
pub open spec fn begins_operand(t: TokenView) -> bool {
    match t {
        TokenView::Number(_) | TokenView::Text(_) | TokenView::Error(_) | TokenView::Word(_)
        | TokenView::QuotedName(_) | TokenView::OpenParen | TokenView::OpenBrace => true,
        _ => false,
    }
}

impl Token {
    /// Whether this token could begin an operand.
    ///
    /// Used to decide whether a space is an intersection operator or just
    /// spacing. Signs are excluded on purpose: `=A1 -B1` subtracts, it does
    /// not intersect `A1` with `-B1`.
    pub fn can_begin_operand(&self) -> (b: bool)
        ensures
            b == begins_operand(self@),
    {
        match self {
            Token::Number(_) | Token::Text(_) | Token::Error(_) | Token::Word(_)
            | Token::QuotedName(_) | Token::OpenParen | Token::OpenBrace => true,
            _ => false,
        }
    }

    /// A copy of this token.
    pub fn duplicate(&self) -> (t: Token)
        ensures
            t@ == self@,
    {
        match self {
            Token::Number(s) => Token::Number(s.clone()),
            Token::Text(s) => Token::Text(s.clone()),
            Token::Error(e) => Token::Error(*e),
            Token::Word(s) => Token::Word(s.clone()),
            Token::QuotedName(s) => Token::QuotedName(s.clone()),
            Token::Plus => Token::Plus,
            Token::Minus => Token::Minus,
            Token::Star => Token::Star,
            Token::Slash => Token::Slash,
            Token::Caret => Token::Caret,
            Token::Percent => Token::Percent,
            Token::Ampersand => Token::Ampersand,
            Token::Equal => Token::Equal,
            Token::NotEqual => Token::NotEqual,
            Token::Less => Token::Less,
            Token::LessEqual => Token::LessEqual,
            Token::Greater => Token::Greater,
            Token::GreaterEqual => Token::GreaterEqual,
            Token::OpenParen => Token::OpenParen,
            Token::CloseParen => Token::CloseParen,
            Token::OpenBrace => Token::OpenBrace,
            Token::CloseBrace => Token::CloseBrace,
            Token::Comma => Token::Comma,
            Token::Semicolon => Token::Semicolon,
            Token::Colon => Token::Colon,
            Token::Bang => Token::Bang,
            Token::Space => Token::Space,
        }
    }
}

/// A token together with where it came from, so an error can point at it.
#[derive(Clone, PartialEq, Debug)]
pub struct Spanned {
    pub token: Token,
    pub start: usize,
    pub end: usize,
}

/// A token with the byte offsets of its first character and of the
/// character after it.
pub struct SpanView {
    pub token: TokenView,
    pub start: nat,
    pub end: nat,
}

impl View for Spanned {
    type V = SpanView;

    open spec fn view(&self) -> SpanView {
        SpanView { token: self.token@, start: self.start as nat, end: self.end as nat }
    }
}

/// The values of a run of tokens.
pub open spec fn spans_view(v: Seq<Spanned>) -> Seq<SpanView> {
    Seq::new(v.len(), |i: int| v[i]@)
}

/// Why a formula could not be tokenised.
#[derive(Clone, Copy, PartialEq, Eq, Structural, Debug)]
pub struct LexError {
    pub kind: LexErrorKind,
    /// Byte offset of the character where the trouble starts.
    pub at: usize,
}

#[derive(Clone, Copy, PartialEq, Eq, Structural, Debug)]
pub enum LexErrorKind {
    /// A string literal ran to the end of the formula without closing.
    UnterminatedText,
    /// A quoted sheet name ran to the end of the formula without closing.
    UnterminatedName,
    /// A `#` that does not begin any known error value.
    UnknownError,
    /// A character that cannot appear in a formula.
    UnexpectedCharacter(char),
}

impl LexError {
    /// The description of what went wrong, then the offset in decimal.
    pub open spec fn describe_text(self) -> Seq<char> {
        (match self.kind {
            LexErrorKind::UnterminatedText => "unclosed text at "@,
            LexErrorKind::UnterminatedName => "unclosed sheet name at "@,
            LexErrorKind::UnknownError => "unrecognised error value at "@,
            LexErrorKind::UnexpectedCharacter(c) => "unexpected character '"@ + seq![c] + "' at "@,
        }) + crate::text::decimal(self.at as nat)
    }

    /// What went wrong, for a person: the description and the offset.
    pub fn describe(&self) -> (s: String)
        ensures
            s@ == self.describe_text(),
    {
        let mut out = String::new();
        match self.kind {
            LexErrorKind::UnterminatedText => out.append("unclosed text at "),
            LexErrorKind::UnterminatedName => out.append("unclosed sheet name at "),
            LexErrorKind::UnknownError => out.append("unrecognised error value at "),
            LexErrorKind::UnexpectedCharacter(c) => {
                out.append("unexpected character '");
                push_char(&mut out, c);
                out.append("' at ");
            },
        }
        crate::text::push_decimal(&mut out, self.at as u64);
        out
    }
}

// ---------------------------------------------------------------------------
// Character classes and byte widths.

/// `char::is_whitespace`: the Unicode `White_Space` property.
pub uninterp spec fn whitespace(c: char) -> bool;

/// `char::is_alphabetic`: the Unicode `Alphabetic` property.
pub uninterp spec fn alphabetic(c: char) -> bool;

/// `char::is_alphanumeric`: `Alphabetic` or `Numeric`.
pub uninterp spec fn alphanumeric(c: char) -> bool;

/// `char::is_whitespace`. Its documentation ties it to the Unicode
/// `White_Space` property, whose ASCII members are tab, line feed, vertical
/// tab, form feed, carriage return and space; the contract states that much
/// and leaves the rest of the table to the name.
#[verifier::external_body]
pub(crate) fn is_whitespace(c: char) -> (b: bool)
    ensures
        b == whitespace(c),
        (c as u32) < 128 ==> (b <==> (c == ' ' || (9 <= (c as u32) <= 13))),
{
    c.is_whitespace()
}

/// `char::is_alphabetic`: the Unicode `Alphabetic` property, whose ASCII
/// members are the letters.
#[verifier::external_body]
pub(crate) fn is_alphabetic(c: char) -> (b: bool)
    ensures
        b == alphabetic(c),
        (c as u32) < 128 ==> (b <==> (65 <= (c as u32) <= 90 || 97 <= (c as u32) <= 122)),
{
    c.is_alphabetic()
}

/// `char::is_alphanumeric`: `Alphabetic` or `Numeric`, whose ASCII members
/// are the letters and the digits.
#[verifier::external_body]
fn is_alphanumeric(c: char) -> (b: bool)
    ensures
        b == alphanumeric(c),
        (c as u32) < 128 ==> (b <==> (48 <= (c as u32) <= 57 || 65 <= (c as u32) <= 90 || 97
            <= (c as u32) <= 122)),
{
    c.is_alphanumeric()
}

/// Characters that may begin a word.
pub open spec fn word_start(c: char) -> bool {
    alphabetic(c) || c == '_' || c == '$' || c == '\\'
}

/// Characters that may appear inside a word after its first character.
pub open spec fn word_continues(c: char) -> bool {
    alphanumeric(c) || c == '_' || c == '.' || c == '$' || c == '?' || c == '\\'
}

/// How many bytes UTF-8 spends on a character.
pub open spec fn utf8_width(c: char) -> nat {
    if (c as u32) < 0x80 {
        1
    } else if (c as u32) < 0x800 {
        2
    } else if (c as u32) < 0x10000 {
        3
    } else {
        4
    }
}

/// How many bytes UTF-8 spends on a text.
pub open spec fn utf8_len(s: Seq<char>) -> nat
    decreases s.len(),
{
    if s.len() == 0 {
        0
    } else {
        utf8_len(s.drop_last()) + utf8_width(s.last())
    }
}

/// The byte offset of the character at index `i`.
pub open spec fn offset(s: Seq<char>, i: int) -> nat {
    utf8_len(s.take(i))
}

pub(crate) fn width_of(c: char) -> (w: usize)
    ensures
        w == utf8_width(c),
{
    if (c as u32) < 0x80 {
        1
    } else if (c as u32) < 0x800 {
        2
    } else if (c as u32) < 0x10000 {
        3
    } else {
        4
    }
}

pub proof fn lemma_utf8_len_concat(a: Seq<char>, b: Seq<char>)
    ensures
        utf8_len(a + b) == utf8_len(a) + utf8_len(b),
    decreases b.len(),
{
    if b.len() > 0 {
        lemma_utf8_len_concat(a, b.drop_last());
        assert((a + b).drop_last() =~= a + b.drop_last());
    } else {
        assert(a + b =~= a);
    }
}

proof fn lemma_offset_step(s: Seq<char>, i: int)
    requires
        0 <= i < s.len(),
    ensures
        offset(s, i + 1) == offset(s, i) + utf8_width(s[i]),
{
    assert(s.take(i + 1).drop_last() =~= s.take(i));
}

proof fn lemma_offset_bounded(s: Seq<char>, i: int)
    requires
        0 <= i <= s.len(),
    ensures
        offset(s, i) <= utf8_len(s),
        offset(s, i) + utf8_len(s.skip(i)) == utf8_len(s),
{
    lemma_utf8_len_concat(s.take(i), s.skip(i));
    assert(s.take(i) + s.skip(i) =~= s);
}

proof fn lemma_offset_monotone(s: Seq<char>, i: int, j: int)
    requires
        0 <= i <= j <= s.len(),
    ensures
        offset(s, i) <= offset(s, j),
    decreases j - i,
{
    if i < j {
        lemma_offset_step(s, j - 1);
        lemma_offset_monotone(s, i, j - 1);
    }
}

// ---------------------------------------------------------------------------
// What each token is, character by character.

/// The end of the run of whitespace starting at `i`.
pub open spec fn space_end(s: Seq<char>, i: nat) -> nat
    decreases s.len() - i,
{
    if i < s.len() && whitespace(s[i as int]) {
        space_end(s, i + 1)
    } else {
        i
    }
}

/// The end of the run of word characters starting at `i`.
pub open spec fn word_end(s: Seq<char>, i: nat) -> nat
    decreases s.len() - i,
{
    if i < s.len() && word_continues(s[i as int]) {
        word_end(s, i + 1)
    } else {
        i
    }
}

/// The end of a number starting at `i`: digits, then a point and more
/// digits, then an exponent if and only if digits follow its marker.
pub open spec fn number_end(s: Seq<char>, i: nat) -> nat {
    let a = digits_end(s, i);
    let b = if a < s.len() && s[a as int] == '.' {
        digits_end(s, a + 1)
    } else {
        a
    };
    if b < s.len() && (s[b as int] == 'e' || s[b as int] == 'E') {
        let la: nat = if b + 1 < s.len() && (s[b + 1int] == '+' || s[b + 1int] == '-') {
            b + 2
        } else {
            b + 1
        };
        if la < s.len() && is_ascii_digit(s[la as int]) {
            digits_end(s, la)
        } else {
            b
        }
    } else {
        b
    }
}

/// The body of a quoted item whose text starts at `j` and which closes
/// with `quote`, a doubled quote standing for one: the characters and the
/// index just past the closing quote, or nothing if it never closes.
pub open spec fn quoted_from(s: Seq<char>, j: nat, quote: char) -> Option<(Seq<char>, nat)>
    decreases s.len() - j,
{
    if j >= s.len() {
        None
    } else if s[j as int] == quote {
        if j + 1 < s.len() && s[j + 1int] == quote {
            match quoted_from(s, j + 2, quote) {
                Some((v, k)) => Some((seq![quote] + v, k)),
                None => None,
            }
        } else {
            Some((Seq::empty(), j + 1))
        }
    } else {
        match quoted_from(s, j + 1, quote) {
            Some((v, k)) => Some((seq![s[j as int]] + v, k)),
            None => None,
        }
    }
}

/// How many error spellings there are.
pub open spec fn spelling_count() -> nat {
    10
}

/// The error spellings, longest first so that a prefix match cannot pick a
/// shorter one by accident.
pub open spec fn spelling_text(k: nat) -> Seq<char> {
    if k == 0 {
        seq!['#', 'G', 'E', 'T', 'T', 'I', 'N', 'G', '_', 'D', 'A', 'T', 'A']
    } else if k == 1 {
        seq!['#', 'D', 'I', 'V', '/', '0', '!']
    } else if k == 2 {
        seq!['#', 'V', 'A', 'L', 'U', 'E', '!']
    } else if k == 3 {
        seq!['#', 'S', 'P', 'I', 'L', 'L', '!']
    } else if k == 4 {
        seq!['#', 'N', 'A', 'M', 'E', '?']
    } else if k == 5 {
        seq!['#', 'N', 'U', 'L', 'L', '!']
    } else if k == 6 {
        seq!['#', 'C', 'A', 'L', 'C', '!']
    } else if k == 7 {
        seq!['#', 'R', 'E', 'F', '!']
    } else if k == 8 {
        seq!['#', 'N', 'U', 'M', '!']
    } else {
        seq!['#', 'N', '/', 'A']
    }
}

/// The error each spelling names.
pub open spec fn spelling_error(k: nat) -> CalcError {
    if k == 0 {
        CalcError::Calc
    } else if k == 1 {
        CalcError::Div0
    } else if k == 2 {
        CalcError::Value
    } else if k == 3 {
        CalcError::Spill
    } else if k == 4 {
        CalcError::Name
    } else if k == 5 {
        CalcError::Null
    } else if k == 6 {
        CalcError::Calc
    } else if k == 7 {
        CalcError::Ref
    } else if k == 8 {
        CalcError::Num
    } else {
        CalcError::NotAvailable
    }
}

/// Whether the text from `i` starts with a spelling, ignoring ASCII case.
pub open spec fn spelled_at(s: Seq<char>, i: nat, spelling: Seq<char>) -> bool {
    i + spelling.len() <= s.len() && same_ignoring_ascii_case(
        s.subrange(i as int, (i + spelling.len()) as int),
        spelling,
    )
}

/// Whether the first `n` bytes of the text from `i` end inside a character.
pub open spec fn cuts_char(s: Seq<char>, i: nat, n: nat) -> bool
    decreases s.len() - i,
{
    if n == 0 || i >= s.len() {
        false
    } else if utf8_width(s[i as int]) > n {
        true
    } else {
        cuts_char(s, i + 1, (n - utf8_width(s[i as int])) as nat)
    }
}

/// One step of reading: a token and the index after it, a reason to stop,
/// or a failure of the reader itself.
pub enum Step {
    Emit(TokenView, nat),
    Fail(LexErrorKind),
    /// Slicing the text at a byte offset that is not a character boundary.
    Panic,
}

/// An error value written with `#`, trying the spellings from the `k`-th on.
///
/// Each spelling is compared against as many bytes of the rest of the text
/// as it has; where those bytes end inside a character, the slicing fails.
pub open spec fn error_step(s: Seq<char>, i: nat, k: nat) -> Step
    decreases spelling_count() - k,
{
    if k >= spelling_count() {
        Step::Fail(LexErrorKind::UnknownError)
    } else {
        let spelling = spelling_text(k);
        if utf8_len(s.skip(i as int)) >= spelling.len() && cuts_char(s, i, spelling.len()) {
            Step::Panic
        } else if spelled_at(s, i, spelling) {
            Step::Emit(TokenView::Error(spelling_error(k)), i + spelling.len())
        } else {
            error_step(s, i, k + 1)
        }
    }
}

/// An operator, or a character that cannot appear in a formula.
pub open spec fn operator_step(s: Seq<char>, i: nat) -> Step {
    let c = s[i as int];
    let next: Option<char> = if i + 1 < s.len() {
        Some(s[i + 1int])
    } else {
        None
    };
    if c == '+' {
        Step::Emit(TokenView::Plus, i + 1)
    } else if c == '-' {
        Step::Emit(TokenView::Minus, i + 1)
    } else if c == '*' {
        Step::Emit(TokenView::Star, i + 1)
    } else if c == '/' {
        Step::Emit(TokenView::Slash, i + 1)
    } else if c == '^' {
        Step::Emit(TokenView::Caret, i + 1)
    } else if c == '%' {
        Step::Emit(TokenView::Percent, i + 1)
    } else if c == '&' {
        Step::Emit(TokenView::Ampersand, i + 1)
    } else if c == '=' {
        Step::Emit(TokenView::Equal, i + 1)
    } else if c == '(' {
        Step::Emit(TokenView::OpenParen, i + 1)
    } else if c == ')' {
        Step::Emit(TokenView::CloseParen, i + 1)
    } else if c == '{' {
        Step::Emit(TokenView::OpenBrace, i + 1)
    } else if c == '}' {
        Step::Emit(TokenView::CloseBrace, i + 1)
    } else if c == ',' {
        Step::Emit(TokenView::Comma, i + 1)
    } else if c == ';' {
        Step::Emit(TokenView::Semicolon, i + 1)
    } else if c == ':' {
        Step::Emit(TokenView::Colon, i + 1)
    } else if c == '!' {
        Step::Emit(TokenView::Bang, i + 1)
    } else if c == '<' {
        if next == Some('=') {
            Step::Emit(TokenView::LessEqual, i + 2)
        } else if next == Some('>') {
            Step::Emit(TokenView::NotEqual, i + 2)
        } else {
            Step::Emit(TokenView::Less, i + 1)
        }
    } else if c == '>' {
        if next == Some('=') {
            Step::Emit(TokenView::GreaterEqual, i + 2)
        } else {
            Step::Emit(TokenView::Greater, i + 1)
        }
    } else {
        Step::Fail(LexErrorKind::UnexpectedCharacter(c))
    }
}

/// What the character at `i` begins.
pub open spec fn step(s: Seq<char>, i: nat) -> Step {
    let c = s[i as int];
    if whitespace(c) {
        Step::Emit(TokenView::Space, space_end(s, i))
    } else if c == '"' {
        match quoted_from(s, i + 1, '"') {
            None => Step::Fail(LexErrorKind::UnterminatedText),
            Some((v, j)) => Step::Emit(TokenView::Text(v), j),
        }
    } else if c == '\'' {
        match quoted_from(s, i + 1, '\'') {
            None => Step::Fail(LexErrorKind::UnterminatedName),
            Some((v, j)) => Step::Emit(TokenView::QuotedName(v), j),
        }
    } else if c == '#' {
        error_step(s, i, 0)
    } else if is_ascii_digit(c) || (c == '.' && i + 1 < s.len() && is_ascii_digit(s[i + 1int])) {
        Step::Emit(TokenView::Number(s.subrange(i as int, number_end(s, i) as int)), number_end(s, i))
    } else if word_start(c) {
        Step::Emit(TokenView::Word(s.subrange(i as int, word_end(s, i + 1) as int)), word_end(s, i + 1))
    } else {
        operator_step(s, i)
    }
}

/// The outcome of reading a whole text.
pub enum Lexed {
    Tokens(Seq<SpanView>),
    Failed(LexError),
    Panics,
}

/// Tokens already read, put in front of what the rest of the text reads as.
pub open spec fn after(prefix: Seq<SpanView>, rest: Lexed) -> Lexed {
    match rest {
        Lexed::Tokens(ts) => Lexed::Tokens(prefix + ts),
        other => other,
    }
}

/// What the text from character `i` on reads as.
pub open spec fn lex_from(s: Seq<char>, i: nat) -> Lexed
    decreases s.len() - i,
{
    if i >= s.len() {
        Lexed::Tokens(Seq::empty())
    } else {
        match step(s, i) {
            Step::Emit(t, j) => if i < j <= s.len() {
                after(
                    seq![SpanView { token: t, start: offset(s, i as int), end: offset(s, j as int) }],
                    lex_from(s, j),
                )
            } else {
                Lexed::Panics
            },
            Step::Fail(kind) => Lexed::Failed(LexError { kind, at: offset(s, i as int) as usize }),
            Step::Panic => Lexed::Panics,
        }
    }
}

/// What a whole formula body reads as.
pub open spec fn lex(s: Seq<char>) -> Lexed {
    lex_from(s, 0)
}

// ---------------------------------------------------------------------------
// Reading.

proof fn lemma_space_end(s: Seq<char>, i: nat)
    ensures
        i <= space_end(s, i) <= if i <= s.len() { s.len() } else { i },
    decreases s.len() - i,
{
    if i < s.len() && whitespace(s[i as int]) {
        lemma_space_end(s, i + 1);
    }
}

proof fn lemma_word_end(s: Seq<char>, i: nat)
    ensures
        i <= word_end(s, i) <= if i <= s.len() { s.len() } else { i },
    decreases s.len() - i,
{
    if i < s.len() && word_continues(s[i as int]) {
        lemma_word_end(s, i + 1);
    }
}

proof fn lemma_digits_end(s: Seq<char>, i: nat)
    ensures
        i <= digits_end(s, i) <= if i <= s.len() { s.len() } else { i },
    decreases s.len() - i,
{
    if i < s.len() && is_ascii_digit(s[i as int]) {
        lemma_digits_end(s, i + 1);
    }
}

proof fn lemma_quoted_from(s: Seq<char>, j: nat, quote: char)
    ensures
        quoted_from(s, j, quote) matches Some((v, k)) ==> j < k <= s.len(),
    decreases s.len() - j,
{
    if j < s.len() {
        if s[j as int] == quote {
            if j + 1 < s.len() && s[j + 1int] == quote {
                lemma_quoted_from(s, j + 2, quote);
            }
        } else {
            lemma_quoted_from(s, j + 1, quote);
        }
    }
}

pub(crate) fn digit_run_end(s: &Vec<char>, i: usize) -> (j: usize)
    requires
        i <= s.len(),
    ensures
        j == digits_end(s@, i as nat),
        i <= j <= s.len(),
{
    let mut j = i;
    while j < s.len() && ascii_digit(s[j])
        invariant
            i <= j <= s.len(),
            digits_end(s@, j as nat) == digits_end(s@, i as nat),
        decreases s.len() - j,
    {
        j = j + 1;
    }
    j
}

fn space_run_end(s: &Vec<char>, i: usize) -> (j: usize)
    requires
        i <= s.len(),
    ensures
        j == space_end(s@, i as nat),
        i <= j <= s.len(),
{
    let mut j = i;
    while j < s.len() && is_whitespace(s[j])
        invariant
            i <= j <= s.len(),
            space_end(s@, j as nat) == space_end(s@, i as nat),
        decreases s.len() - j,
    {
        j = j + 1;
    }
    j
}

/// Characters that may begin a word.
fn is_word_start(c: char) -> (b: bool)
    ensures
        b == word_start(c),
{
    is_alphabetic(c) || c == '_' || c == '$' || c == '\\'
}

/// Characters that may appear inside a word after its first character.
fn is_word_continuation(c: char) -> (b: bool)
    ensures
        b == word_continues(c),
{
    is_alphanumeric(c) || c == '_' || c == '.' || c == '$' || c == '?' || c == '\\'
}

fn word_run_end(s: &Vec<char>, i: usize) -> (j: usize)
    requires
        i <= s.len(),
    ensures
        j == word_end(s@, i as nat),
        i <= j <= s.len(),
{
    let mut j = i;
    while j < s.len() && is_word_continuation(s[j])
        invariant
            i <= j <= s.len(),
            word_end(s@, j as nat) == word_end(s@, i as nat),
        decreases s.len() - j,
    {
        j = j + 1;
    }
    j
}

fn is_digit(s: &Vec<char>, i: usize) -> (b: bool)
    ensures
        b == (i < s.len() && is_ascii_digit(s@[i as int])),
{
    i < s.len() && ascii_digit(s[i])
}

fn number_run_end(s: &Vec<char>, i: usize) -> (j: usize)
    requires
        i < s.len(),
    ensures
        j == number_end(s@, i as nat),
        i <= j <= s.len(),
{
    proof {
        lemma_digits_end(s@, i as nat);
    }
    let a = digit_run_end(s, i);
    let b = if a < s.len() && s[a] == '.' {
        proof {
            lemma_digits_end(s@, (a + 1) as nat);
        }
        digit_run_end(s, a + 1)
    } else {
        a
    };
    if b < s.len() && (s[b] == 'e' || s[b] == 'E') {
        let la = if b + 1 < s.len() && (s[b + 1] == '+' || s[b + 1] == '-') {
            b + 2
        } else {
            b + 1
        };
        if is_digit(s, la) {
            proof {
                lemma_digits_end(s@, la as nat);
            }
            digit_run_end(s, la)
        } else {
            b
        }
    } else {
        b
    }
}

/// A quoted item whose text starts at `j`.
fn quoted(s: &Vec<char>, j: usize, quote: char) -> (r: Option<(String, usize)>)
    requires
        j <= s.len(),
    ensures
        match r {
            Some((v, k)) => quoted_from(s@, j as nat, quote) == Some((v@, k as nat)),
            None => quoted_from(s@, j as nat, quote) is None,
        },
{
    let mut value = String::new();
    let mut at = j;
    loop
        invariant
            j <= at <= s.len(),
            match quoted_from(s@, at as nat, quote) {
                Some((v, k)) => quoted_from(s@, j as nat, quote) == Some((value@ + v, k)),
                None => quoted_from(s@, j as nat, quote) is None,
            },
        decreases s.len() - at,
    {
        if at >= s.len() {
            return None;
        }
        let c = s[at];
        if c == quote {
            if at + 1 < s.len() && s[at + 1] == quote {
                let ghost before = value@;
                push_char(&mut value, quote);
                proof {
                    match quoted_from(s@, (at + 2) as nat, quote) {
                        Some((v, k)) => {
                            assert(before + (seq![quote] + v) =~= value@ + v);
                        },
                        None => {},
                    }
                }
                at = at + 2;
            } else {
                assert(value@ + Seq::<char>::empty() =~= value@);
                return Some((value, at + 1));
            }
        } else {
            let ghost before = value@;
            push_char(&mut value, c);
            proof {
                match quoted_from(s@, (at + 1) as nat, quote) {
                    Some((v, k)) => {
                        assert(before + (seq![c] + v) =~= value@ + v);
                    },
                    None => {},
                }
            }
            at = at + 1;
        }
    }
}

fn spelling(k: usize) -> (r: (Vec<char>, CalcError))
    requires
        k < spelling_count(),
    ensures
        r.0@ == spelling_text(k as nat),
        r.1 == spelling_error(k as nat),
{
    if k == 0 {
        (vec!['#', 'G', 'E', 'T', 'T', 'I', 'N', 'G', '_', 'D', 'A', 'T', 'A'], CalcError::Calc)
    } else if k == 1 {
        (vec!['#', 'D', 'I', 'V', '/', '0', '!'], CalcError::Div0)
    } else if k == 2 {
        (vec!['#', 'V', 'A', 'L', 'U', 'E', '!'], CalcError::Value)
    } else if k == 3 {
        (vec!['#', 'S', 'P', 'I', 'L', 'L', '!'], CalcError::Spill)
    } else if k == 4 {
        (vec!['#', 'N', 'A', 'M', 'E', '?'], CalcError::Name)
    } else if k == 5 {
        (vec!['#', 'N', 'U', 'L', 'L', '!'], CalcError::Null)
    } else if k == 6 {
        (vec!['#', 'C', 'A', 'L', 'C', '!'], CalcError::Calc)
    } else if k == 7 {
        (vec!['#', 'R', 'E', 'F', '!'], CalcError::Ref)
    } else if k == 8 {
        (vec!['#', 'N', 'U', 'M', '!'], CalcError::Num)
    } else {
        (vec!['#', 'N', '/', 'A'], CalcError::NotAvailable)
    }
}

fn fold_char(c: char) -> (r: u32)
    ensures
        r == fold_ascii(c),
{
    if 'A' <= c && c <= 'Z' {
        (c as u32) + 32
    } else {
        c as u32
    }
}

fn spelled(s: &Vec<char>, i: usize, word: &Vec<char>) -> (b: bool)
    ensures
        b == spelled_at(s@, i as nat, word@),
{
    if i > s.len() || word.len() > s.len() - i {
        return false;
    }
    let mut k: usize = 0;
    while k < word.len()
        invariant
            i + word.len() <= s.len(),
            k <= word.len(),
            forall|m: int| 0 <= m < k ==> fold_ascii(#[trigger] s@[i + m]) == fold_ascii(word@[m]),
        decreases word.len() - k,
    {
        if fold_char(s[i + k]) != fold_char(word[k]) {
            assert(fold_ascii(s@.subrange(i as int, i + word.len())[k as int]) != fold_ascii(word@[k as int]));
            return false;
        }
        k = k + 1;
    }
    assert forall|m: int| 0 <= m < word@.len() implies fold_ascii(
        #[trigger] s@.subrange(i as int, i + word.len())[m],
    ) == fold_ascii(word@[m]) by {
        assert(s@.subrange(i as int, i + word.len())[m] == s@[i + m]);
    }
    true
}

/// An error value written with `#` at `i`.
fn error_token(s: &Vec<char>, i: usize) -> (r: Option<(CalcError, usize)>)
    requires
        i < s.len(),
        !(error_step(s@, i as nat, 0) is Panic),
    ensures
        match r {
            Some((e, j)) => error_step(s@, i as nat, 0) == Step::Emit(TokenView::Error(e), j as nat),
            None => error_step(s@, i as nat, 0) == Step::Fail(LexErrorKind::UnknownError),
        },
{
    let mut k: usize = 0;
    while k < 10
        invariant
            i < s.len(),
            k <= spelling_count(),
            error_step(s@, i as nat, 0) == error_step(s@, i as nat, k as nat),
            !(error_step(s@, i as nat, 0) is Panic),
        decreases 10 - k,
    {
        let (word, error) = spelling(k);
        if spelled(s, i, &word) {
            return Some((error, i + word.len()));
        }
        k = k + 1;
    }
    None
}

/// An operator at `i`, with the index after it.
fn operator_token(s: &Vec<char>, i: usize) -> (r: Result<(Token, usize), LexErrorKind>)
    requires
        i < s.len(),
    ensures
        match r {
            Ok((t, j)) => operator_step(s@, i as nat) == Step::Emit(t@, j as nat),
            Err(kind) => operator_step(s@, i as nat) == Step::Fail(kind),
        },
{
    let c = s[i];
    let next: Option<char> = if i + 1 < s.len() {
        Some(s[i + 1])
    } else {
        None
    };
    if c == '+' {
        Ok((Token::Plus, i + 1))
    } else if c == '-' {
        Ok((Token::Minus, i + 1))
    } else if c == '*' {
        Ok((Token::Star, i + 1))
    } else if c == '/' {
        Ok((Token::Slash, i + 1))
    } else if c == '^' {
        Ok((Token::Caret, i + 1))
    } else if c == '%' {
        Ok((Token::Percent, i + 1))
    } else if c == '&' {
        Ok((Token::Ampersand, i + 1))
    } else if c == '=' {
        Ok((Token::Equal, i + 1))
    } else if c == '(' {
        Ok((Token::OpenParen, i + 1))
    } else if c == ')' {
        Ok((Token::CloseParen, i + 1))
    } else if c == '{' {
        Ok((Token::OpenBrace, i + 1))
    } else if c == '}' {
        Ok((Token::CloseBrace, i + 1))
    } else if c == ',' {
        Ok((Token::Comma, i + 1))
    } else if c == ';' {
        Ok((Token::Semicolon, i + 1))
    } else if c == ':' {
        Ok((Token::Colon, i + 1))
    } else if c == '!' {
        Ok((Token::Bang, i + 1))
    } else if c == '<' {
        if next == Some('=') {
            Ok((Token::LessEqual, i + 2))
        } else if next == Some('>') {
            Ok((Token::NotEqual, i + 2))
        } else {
            Ok((Token::Less, i + 1))
        }
    } else if c == '>' {
        if next == Some('=') {
            Ok((Token::GreaterEqual, i + 2))
        } else {
            Ok((Token::Greater, i + 1))
        }
    } else {
        Err(LexErrorKind::UnexpectedCharacter(c))
    }
}

fn copy_range(s: &Vec<char>, from: usize, to: usize) -> (r: String)
    requires
        from <= to <= s.len(),
    ensures
        r@ == s@.subrange(from as int, to as int),
{
    let mut out = String::new();
    let mut k = from;
    while k < to
        invariant
            from <= k <= to <= s.len(),
            out@ == s@.subrange(from as int, k as int),
        decreases to - k,
    {
        push_char(&mut out, s[k]);
        k = k + 1;
        assert(out@ =~= s@.subrange(from as int, k as int));
    }
    out
}

/// The token the character at `i` begins.
fn read_step(s: &Vec<char>, i: usize) -> (r: Result<(Token, usize), LexErrorKind>)
    requires
        i < s.len(),
        !(step(s@, i as nat) is Panic),
    ensures
        match r {
            Ok((t, j)) => step(s@, i as nat) == Step::Emit(t@, j as nat) && i < j <= s.len(),
            Err(kind) => step(s@, i as nat) == Step::Fail(kind),
        },
{
    let c = s[i];
    if is_whitespace(c) {
        proof {
            lemma_space_end(s@, (i + 1) as nat);
        }
        let j = space_run_end(s, i + 1);
        return Ok((Token::Space, j));
    }
    if c == '"' || c == '\'' {
        proof {
            lemma_quoted_from(s@, (i + 1) as nat, c);
        }
        return match quoted(s, i + 1, c) {
            Some((v, j)) => if c == '"' {
                Ok((Token::Text(v), j))
            } else {
                Ok((Token::QuotedName(v), j))
            },
            None => if c == '"' {
                Err(LexErrorKind::UnterminatedText)
            } else {
                Err(LexErrorKind::UnterminatedName)
            },
        };
    }
    if c == '#' {
        return match error_token(s, i) {
            Some((e, j)) => {
                proof {
                    lemma_error_step_advances(s@, i as nat, 0);
                }
                Ok((Token::Error(e), j))
            },
            None => Err(LexErrorKind::UnknownError),
        };
    }
    if ascii_digit(c) || (c == '.' && is_digit(s, i + 1)) {
        let j = number_run_end(s, i);
        proof {
            lemma_number_end_advances(s@, i as nat);
        }
        return Ok((Token::Number(copy_range(s, i, j)), j));
    }
    if is_word_start(c) {
        proof {
            lemma_word_end(s@, (i + 1) as nat);
        }
        let j = word_run_end(s, i + 1);
        return Ok((Token::Word(copy_range(s, i, j)), j));
    }
    operator_token(s, i)
}

proof fn lemma_error_step_advances(s: Seq<char>, i: nat, k: nat)
    requires
        error_step(s, i, k) is Emit,
    ensures
        error_step(s, i, k) matches Step::Emit(_, j) && i < j <= s.len(),
    decreases spelling_count() - k,
{
    if k < spelling_count() {
        let spelling = spelling_text(k);
        if !(utf8_len(s.skip(i as int)) >= spelling.len() && cuts_char(s, i, spelling.len()))
            && !spelled_at(s, i, spelling) {
            lemma_error_step_advances(s, i, k + 1);
        }
    }
}

proof fn lemma_number_end_advances(s: Seq<char>, i: nat)
    requires
        i < s.len(),
        is_ascii_digit(s[i as int]) || (s[i as int] == '.' && i + 1 < s.len() && is_ascii_digit(
            s[i + 1int],
        )),
    ensures
        i < number_end(s, i) <= s.len(),
{
    lemma_digits_end(s, i);
    lemma_digits_end(s, i + 1);
    lemma_digits_end(s, i + 2);
    let a = digits_end(s, i);
    if a < s.len() && s[a as int] == '.' {
        lemma_digits_end(s, a + 1);
    }
    let b = if a < s.len() && s[a as int] == '.' {
        digits_end(s, a + 1)
    } else {
        a
    };
    if b < s.len() && (s[b as int] == 'e' || s[b as int] == 'E') {
        let la: nat = if b + 1 < s.len() && (s[b + 1int] == '+' || s[b + 1int] == '-') {
            b + 2
        } else {
            b + 1
        };
        lemma_digits_end(s, la);
    }
}

/// How many bytes a run of characters takes, counted from `from` to `to`,
/// starting at the byte offset of `from`.
fn advance_offset(s: &Vec<char>, from: usize, to: usize, at: usize) -> (r: usize)
    requires
        from <= to <= s.len(),
        at == offset(s@, from as int),
        utf8_len(s@) <= usize::MAX,
    ensures
        r == offset(s@, to as int),
{
    let mut k = from;
    let mut pos = at;
    while k < to
        invariant
            from <= k <= to <= s.len(),
            pos == offset(s@, k as int),
            utf8_len(s@) <= usize::MAX,
        decreases to - k,
    {
        proof {
            lemma_offset_step(s@, k as int);
            lemma_offset_bounded(s@, (k + 1) as int);
        }
        pos = pos + width_of(s[k]);
        k = k + 1;
    }
    pos
}

proof fn lemma_after_assoc(p: Seq<SpanView>, q: Seq<SpanView>, r: Lexed)
    ensures
        after(p, after(q, r)) == after(p + q, r),
{
    match r {
        Lexed::Tokens(ts) => {
            assert(p + (q + ts) =~= (p + q) + ts);
        },
        _ => {},
    }
}

/// Every token takes at least one byte, so there are no more tokens than
/// bytes.
pub proof fn lemma_token_count(s: Seq<char>, i: nat)
    requires
        i <= s.len(),
    ensures
        lex_from(s, i) matches Lexed::Tokens(ts) ==> ts.len() + offset(s, i as int) <= utf8_len(s),
    decreases s.len() - i,
{
    lemma_offset_bounded(s, i as int);
    if i < s.len() {
        match step(s, i) {
            Step::Emit(t, j) => {
                if i < j <= s.len() {
                    lemma_token_count(s, j);
                    lemma_offset_step(s, i as int);
                    lemma_offset_monotone(s, i + 1int, j as int);
                }
            },
            _ => {},
        }
    }
}

/// How many bytes UTF-8 spends on some characters.
pub fn byte_len(s: &Vec<char>) -> (n: usize)
    requires
        utf8_len(s@) <= usize::MAX,
    ensures
        n == utf8_len(s@),
{
    proof {
        assert(s@.take(0) =~= Seq::<char>::empty());
        assert(s@.take(s@.len() as int) =~= s@);
    }
    advance_offset(s, 0, s.len(), 0)
}

/// Tokenise a formula. The leading `=` is not expected here; strip it first.
pub fn tokenize(input: &str) -> (r: Result<Vec<Spanned>, LexError>)
    requires
        utf8_len(input@) <= usize::MAX,
        !(lex(input@) is Panics),
    ensures
        match r {
            Ok(tokens) => lex(input@) == Lexed::Tokens(spans_view(tokens@)),
            Err(e) => lex(input@) == Lexed::Failed(e),
        },
{
    let s = chars_of(input);
    let mut out: Vec<Spanned> = Vec::new();
    let mut i: usize = 0;
    let mut pos: usize = 0;
    proof {
        assert(spans_view(out@) =~= Seq::<SpanView>::empty());
        assert(s@.take(0) =~= Seq::<char>::empty());
        assert(after(Seq::empty(), lex_from(s@, 0)) == lex_from(s@, 0)) by {
            match lex_from(s@, 0) {
                Lexed::Tokens(ts) => {
                    assert(Seq::<SpanView>::empty() + ts =~= ts);
                },
                _ => {},
            }
        }
    }
    while i < s.len()
        invariant
            s@ == input@,
            i <= s.len(),
            pos == offset(s@, i as int),
            utf8_len(s@) <= usize::MAX,
            lex(s@) == after(spans_view(out@), lex_from(s@, i as nat)),
            !(lex(s@) is Panics),
        decreases s.len() - i,
    {
        proof {
            if step(s@, i as nat) is Panic {
                assert(lex_from(s@, i as nat) is Panics);
            }
        }
        match read_step(&s, i) {
            Ok((t, j)) => {
                proof {
                    lemma_offset_monotone(s@, i as int, j as int);
                    lemma_offset_bounded(s@, j as int);
                }
                let end = advance_offset(&s, i, j, pos);
                let ghost old_out = out@;
                let span = Spanned { token: t, start: pos, end };
                out.push(span);
                proof {
                    let piece = seq![span@];
                    assert(spans_view(out@) =~= spans_view(old_out) + piece);
                    lemma_after_assoc(spans_view(old_out), piece, lex_from(s@, j as nat));
                }
                i = j;
                pos = end;
            },
            Err(kind) => {
                return Err(LexError { kind, at: pos });
            },
        }
    }
    proof {
        match lex_from(s@, i as nat) {
            _ => {
                assert(spans_view(out@) + Seq::<SpanView>::empty() =~= spans_view(out@));
            },
        }
    }
    Ok(out)
}

// ---------------------------------------------------------------------------
// Where reading would slice a character.

proof fn lemma_utf8_len_front(t: Seq<char>)
    requires
        t.len() > 0,
    ensures
        utf8_len(t) == utf8_width(t[0]) + utf8_len(t.drop_first()),
    decreases t.len(),
{
    if t.len() == 1 {
        assert(t.drop_last() =~= Seq::<char>::empty());
        assert(t.drop_first() =~= Seq::<char>::empty());
    } else {
        lemma_utf8_len_front(t.drop_last());
        assert(t.drop_last().drop_first() =~= t.drop_first().drop_last());
        assert(t.drop_first().last() == t.last());
        assert(t.drop_last()[0] == t[0]);
    }
}

/// Bytes that end inside a character are bytes the text has.
proof fn lemma_cut_bytes_exist(s: Seq<char>, i: nat, n: nat)
    requires
        cuts_char(s, i, n),
    ensures
        utf8_len(s.skip(i as int)) >= n,
    decreases s.len() - i,
{
    let rest = s.skip(i as int);
    lemma_utf8_len_front(rest);
    assert(rest[0] == s[i as int]);
    if utf8_width(s[i as int]) <= n {
        lemma_cut_bytes_exist(s, i + 1, (n - utf8_width(s[i as int])) as nat);
        assert(rest.drop_first() =~= s.skip(i + 1int));
    }
}

/// Whether the first `n` bytes from `i` end inside a character.
fn cuts(s: &Vec<char>, i: usize, n: usize) -> (b: bool)
    ensures
        b == cuts_char(s@, i as nat, n as nat),
{
    let mut j = i;
    let mut rem = n;
    while rem > 0 && j < s.len()
        invariant
            cuts_char(s@, i as nat, n as nat) == cuts_char(s@, j as nat, rem as nat),
        decreases s.len() - j,
    {
        let w = width_of(s[j]);
        if w > rem {
            return true;
        }
        rem = rem - w;
        j = j + 1;
    }
    false
}

/// Whether reading an error value at `i` would slice a character.
fn error_cuts(s: &Vec<char>, i: usize) -> (b: bool)
    requires
        i < s.len(),
    ensures
        b == (error_step(s@, i as nat, 0) is Panic),
{
    let mut k: usize = 0;
    while k < 10
        invariant
            i < s.len(),
            k <= spelling_count(),
            (error_step(s@, i as nat, 0) is Panic) == (error_step(s@, i as nat, k as nat) is Panic),
        decreases 10 - k,
    {
        let (word, _error) = spelling(k);
        proof {
            if cuts_char(s@, i as nat, word@.len()) {
                lemma_cut_bytes_exist(s@, i as nat, word@.len());
            }
        }
        if cuts(s, i, word.len()) {
            return true;
        }
        if spelled(s, i, &word) {
            return false;
        }
        k = k + 1;
    }
    false
}

/// Whether reading a text would slice a character, which the reader does
/// where an error spelling's bytes end inside one.
pub fn lex_cuts(input: &str) -> (b: bool)
    ensures
        b == (lex(input@) is Panics),
{
    let s = chars_of(input);
    let mut i: usize = 0;
    while i < s.len()
        invariant
            s@ == input@,
            i <= s.len(),
            (lex(s@) is Panics) == (lex_from(s@, i as nat) is Panics),
        decreases s.len() - i,
    {
        let c = s[i];
        let white = is_whitespace(c);
        if !white && c == '#' {
            if error_cuts(&s, i) {
                return true;
            }
        }
        match read_step(&s, i) {
            Ok((_t, j)) => {
                i = j;
            },
            Err(_kind) => {
                return false;
            },
        }
    }
    false
}

/// Whether some characters take, with room for `spare` more, no more bytes
/// than a `usize` counts.
pub(crate) fn bytes_fit(chars: &Vec<char>, spare: usize) -> (b: bool)
    ensures
        b == (utf8_len(chars@) + spare <= usize::MAX),
{
    let limit: usize = usize::MAX - spare;
    let mut total: usize = 0;
    let mut j: usize = 0;
    proof {
        assert(chars@.take(0) =~= Seq::<char>::empty());
    }
    while j < chars.len()
        invariant
            j <= chars@.len(),
            limit == usize::MAX - spare,
            total == utf8_len(chars@.take(j as int)),
            total <= limit,
        decreases chars.len() - j,
    {
        let w = width_of(chars[j]);
        proof {
            assert(chars@.take(j + 1).drop_last() =~= chars@.take(j as int));
            assert(chars@.take(j + 1).last() == chars@[j as int]);
        }
        if w > limit - total {
            proof {
                lemma_utf8_len_prefix(chars@, j + 1);
            }
            return false;
        }
        total = total + w;
        j = j + 1;
    }
    assert(chars@.take(chars@.len() as int) =~= chars@);
    true
}

/// A longer text takes at least as many bytes as its start.
proof fn lemma_utf8_len_prefix(s: Seq<char>, j: int)
    requires
        0 <= j <= s.len(),
    ensures
        utf8_len(s.take(j)) <= utf8_len(s),
    decreases s.len() - j,
{
    if j < s.len() {
        lemma_utf8_len_prefix(s, j + 1);
        assert(s.take(j + 1).drop_last() =~= s.take(j));
    } else {
        assert(s.take(j) =~= s);
    }
}

/// Tokenise a text when it is one `tokenize` takes, and say `None` when it
/// is not: one too long for its offsets to be counted, or one whose error
/// spelling would be read across the middle of a character.
pub fn try_tokenize(input: &str) -> (r: Option<Result<Vec<Spanned>, LexError>>)
    ensures
        r is None <==> !(utf8_len(input@) <= usize::MAX && !(lex(input@) is Panics)),
        r matches Some(x) ==> match x {
            Ok(tokens) => lex(input@) == Lexed::Tokens(spans_view(tokens@)),
            Err(e) => lex(input@) == Lexed::Failed(e),
        },
{
    let chars = chars_of(input);
    if !bytes_fit(&chars, 0) || lex_cuts(input) {
        return None;
    }
    Some(tokenize(input))
}

} // verus!
