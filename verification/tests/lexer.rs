use ferrum::lexer::{lex_cuts, tokenize, try_tokenize, LexErrorKind, Token};
use ferrum::value::CalcError;

/// A token with its number read as the evaluator reads it.
#[derive(Debug, PartialEq)]
enum Tok {
    Number(f64),
    Other(Token),
}

fn tokens(input: &str) -> Vec<Tok> {
    tokenize(input)
        .unwrap()
        .into_iter()
        .map(|s| match s.token {
            Token::Number(n) => Tok::Number(n.parse().unwrap()),
            other => Tok::Other(other),
        })
        .collect()
}

fn word(w: &str) -> Tok {
    Tok::Other(Token::Word(w.to_string()))
}

fn op(t: Token) -> Tok {
    Tok::Other(t)
}

#[test]
fn numbers_cover_the_usual_spellings() {
    assert_eq!(tokens("1"), [Tok::Number(1.0)]);
    assert_eq!(tokens("1.5"), [Tok::Number(1.5)]);
    assert_eq!(tokens(".5"), [Tok::Number(0.5)]);
    assert_eq!(tokens("1e3"), [Tok::Number(1000.0)]);
    assert_eq!(tokens("1E+3"), [Tok::Number(1000.0)]);
    assert_eq!(tokens("1.5e-3"), [Tok::Number(0.0015)]);
}

#[test]
fn an_exponent_marker_without_digits_is_not_part_of_the_number() {
    assert_eq!(tokens("1E"), [Tok::Number(1.0), word("E")]);
}

#[test]
fn text_collapses_doubled_quotes() {
    assert_eq!(tokens(r#""hi""#), [op(Token::Text("hi".to_string()))]);
    assert_eq!(tokens(r#""a""b""#), [op(Token::Text(r#"a"b"#.to_string()))]);
    assert_eq!(tokens(r#""""#), [op(Token::Text(String::new()))]);
}

#[test]
fn unterminated_text_is_an_error_pointing_at_the_quote() {
    let err = tokenize(r#"1+"oops"#).unwrap_err();
    assert_eq!(err.kind, LexErrorKind::UnterminatedText);
    assert_eq!(err.at, 2);
}

#[test]
fn every_error_value_is_recognised() {
    assert_eq!(tokens("#N/A"), [op(Token::Error(CalcError::NotAvailable))]);
    assert_eq!(tokens("#DIV/0!"), [op(Token::Error(CalcError::Div0))]);
    assert_eq!(tokens("#REF!"), [op(Token::Error(CalcError::Ref))]);
    assert_eq!(tokens("#NAME?"), [op(Token::Error(CalcError::Name))]);
    assert_eq!(tokens("#NULL!"), [op(Token::Error(CalcError::Null))]);
    assert_eq!(tokens("#NUM!"), [op(Token::Error(CalcError::Num))]);
    assert_eq!(tokens("#VALUE!"), [op(Token::Error(CalcError::Value))]);
    assert_eq!(tokens("#SPILL!"), [op(Token::Error(CalcError::Spill))]);
}

#[test]
fn an_unknown_hash_word_is_rejected() {
    assert_eq!(tokenize("#NOPE!").unwrap_err().kind, LexErrorKind::UnknownError);
}

#[test]
fn references_keep_their_dollar_markers_in_one_word() {
    assert_eq!(tokens("$A$1"), [word("$A$1")]);
    assert_eq!(tokens("XFD1048576"), [word("XFD1048576")]);
}

#[test]
fn function_names_may_contain_dots_and_underscores() {
    assert_eq!(tokens("NORM.DIST"), [word("NORM.DIST")]);
    assert_eq!(tokens("_xlfn.XLOOKUP"), [word("_xlfn.XLOOKUP")]);
}

#[test]
fn two_character_comparisons_beat_their_prefixes() {
    assert_eq!(tokens("<="), [op(Token::LessEqual)]);
    assert_eq!(tokens(">="), [op(Token::GreaterEqual)]);
    assert_eq!(tokens("<>"), [op(Token::NotEqual)]);
    assert_eq!(tokens("<"), [op(Token::Less)]);
    assert_eq!(tokens(">"), [op(Token::Greater)]);
}

#[test]
fn whitespace_survives_as_a_token() {
    assert_eq!(tokens("A1 B2"), [word("A1"), op(Token::Space), word("B2")]);
    assert_eq!(tokens("A1   B2"), [word("A1"), op(Token::Space), word("B2")]);
}

#[test]
fn a_sign_cannot_begin_an_operand_after_a_space() {
    assert!(!Token::Minus.can_begin_operand());
    assert!(!Token::Plus.can_begin_operand());
    assert!(Token::Word("B1".to_string()).can_begin_operand());
    assert!(Token::Number("1".to_string()).can_begin_operand());
    assert!(Token::OpenParen.can_begin_operand());
}

#[test]
fn quoted_sheet_names_collapse_doubled_quotes() {
    assert_eq!(
        tokens("'My Sheet'!A1"),
        [op(Token::QuotedName("My Sheet".to_string())), op(Token::Bang), word("A1")]
    );
    assert_eq!(
        tokens("'It''s'!A1"),
        [op(Token::QuotedName("It's".to_string())), op(Token::Bang), word("A1")]
    );
}

#[test]
fn spans_point_at_the_original_text() {
    let spans = tokenize("1+23").unwrap();
    assert_eq!((spans[0].start, spans[0].end), (0, 1));
    assert_eq!((spans[1].start, spans[1].end), (1, 2));
    assert_eq!((spans[2].start, spans[2].end), (2, 4));
}

#[test]
fn a_stray_character_is_rejected_with_its_position() {
    let err = tokenize("1 ~ 2").unwrap_err();
    assert_eq!(err.kind, LexErrorKind::UnexpectedCharacter('~'));
    assert_eq!(err.at, 2);
}

#[test]
fn a_whole_formula_tokenises() {
    assert_eq!(
        tokens("SUM(A1:B2,3)*-1%"),
        [
            word("SUM"),
            op(Token::OpenParen),
            word("A1"),
            op(Token::Colon),
            word("B2"),
            op(Token::Comma),
            Tok::Number(3.0),
            op(Token::CloseParen),
            op(Token::Star),
            op(Token::Minus),
            Tok::Number(1.0),
            op(Token::Percent),
        ]
    );
}

#[test]
fn spans_count_bytes_not_characters() {
    let spans = tokenize("\"é\"+1").unwrap();
    assert_eq!((spans[0].start, spans[0].end), (0, 4));
    assert_eq!((spans[1].start, spans[1].end), (4, 5));
    let err = tokenize("\"é\"~").unwrap_err();
    assert_eq!(err.at, 4);
}

#[test]
fn error_spellings_ignore_case() {
    assert_eq!(tokens("#n/a"), [op(Token::Error(CalcError::NotAvailable))]);
    assert_eq!(tokens("#getting_data"), [op(Token::Error(CalcError::Calc))]);
}

#[test]
fn an_error_spelling_cut_inside_a_character_is_refused_beforehand() {
    // "#N/A" is four bytes; here the fourth byte is inside the "é".
    assert!(lex_cuts("#N/\u{e9}"));
    assert!(try_tokenize("#N/\u{e9}").is_none());
    assert!(!lex_cuts("#N/A+1"));
    assert!(!lex_cuts("\u{e9}+1"));
    let tokens = try_tokenize("#N/A").unwrap().unwrap();
    assert_eq!(tokens.len(), 1);
    assert_eq!(tokens[0].token, Token::Error(CalcError::NotAvailable));
    assert_eq!(try_tokenize("#what").unwrap().unwrap_err().kind, LexErrorKind::UnknownError);
}
