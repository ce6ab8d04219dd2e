use ferrum::ast::{Expr, Literal, RefTarget, SheetRef, UnaryOp};
use ferrum::coord::{column_label, ParseRefError};
use ferrum::parser::{parse, try_parse, ParseErrorKind};
use ferrum::value::CalcError;

/// A number as the evaluator reads it, printed the way a cell shows it.
fn number_text(spelling: &str) -> String {
    let value: f64 = spelling.parse().unwrap();
    format!("{value}")
}

/// A compact rendering, so a test can state the tree it expects on one line.
fn sexpr(expr: &Expr) -> String {
    match expr {
        Expr::Literal(Literal::Number(n)) => number_text(n),
        Expr::Literal(Literal::Text(s)) => format!("{s:?}"),
        Expr::Literal(Literal::Logical(b)) => {
            if *b {
                "TRUE".into()
            } else {
                "FALSE".into()
            }
        }
        Expr::Literal(Literal::Blank) => "blank".into(),
        Expr::Literal(Literal::Error(e)) => e.as_str().to_string(),
        Expr::Ref { sheet, target } => {
            let prefix = match sheet {
                None => String::new(),
                Some(SheetRef::One(s)) => format!("{s}!"),
                Some(SheetRef::Span { first, last }) => format!("{first}:{last}!"),
            };
            let body = match target {
                RefTarget::Cell(c) => c.to_a1(),
                RefTarget::Range { start, end } => format!("{}:{}", start.to_a1(), end.to_a1()),
                RefTarget::Columns { first, last } => {
                    format!("{}:{}", column_label(first.index), column_label(last.index))
                }
                RefTarget::Rows { first, last } => format!("{}:{}", first.index + 1, last.index + 1),
                RefTarget::Invalid => "#REF!".into(),
            };
            format!("{prefix}{body}")
        }
        Expr::Name { sheet, name } => match sheet {
            Some(SheetRef::One(s)) => format!("name({s}!{name})"),
            _ => format!("name({name})"),
        },
        Expr::Unary { op, operand } => {
            let sign = match op {
                UnaryOp::Negate => "neg",
                UnaryOp::Plus => "pos",
            };
            format!("({sign} {})", sexpr(operand))
        }
        Expr::Binary { op, left, right } => {
            format!("({} {} {})", op.symbol(), sexpr(left), sexpr(right))
        }
        Expr::Percent(inner) => format!("(% {})", sexpr(inner)),
        Expr::Call { name, args } => {
            let rendered: Vec<_> = args.iter().map(sexpr).collect();
            format!("{name}({})", rendered.join(" "))
        }
        Expr::Array(rows) => {
            let rendered: Vec<String> = rows
                .iter()
                .map(|r| r.iter().map(sexpr).collect::<Vec<_>>().join(" "))
                .collect();
            format!("{{{}}}", rendered.join(" ; "))
        }
        Expr::RangeOp { left, right } => format!("(: {} {})", sexpr(left), sexpr(right)),
        Expr::Intersect { left, right } => format!("(isect {} {})", sexpr(left), sexpr(right)),
        Expr::Union(parts) => {
            let rendered: Vec<_> = parts.iter().map(sexpr).collect();
            format!("(union {})", rendered.join(" "))
        }
    }
}

fn tree(formula: &str) -> String {
    sexpr(&parse(formula).unwrap())
}

#[test]
fn arithmetic_follows_the_usual_precedence() {
    assert_eq!(tree("=1+2*3"), "(+ 1 (* 2 3))");
    assert_eq!(tree("=(1+2)*3"), "(* (+ 1 2) 3)");
    assert_eq!(tree("=1+2-3"), "(- (+ 1 2) 3)");
    assert_eq!(tree("=8/4/2"), "(/ (/ 8 4) 2)");
}

#[test]
fn concatenation_binds_looser_than_arithmetic() {
    assert_eq!(tree(r#"="a"&1+2"#), r#"(& "a" (+ 1 2))"#);
}

#[test]
fn comparison_binds_loosest() {
    assert_eq!(tree("=1+2=3"), "(= (+ 1 2) 3)");
    assert_eq!(tree(r#"=A1&"x"<>"yx""#), r#"(<> (& A1 "x") "yx")"#);
}

#[test]
fn unary_minus_binds_tighter_than_power() {
    assert_eq!(tree("=-2^2"), "(^ (neg 2) 2)");
    assert_eq!(tree("=2^-1"), "(^ 2 (neg 1))");
}

#[test]
fn power_is_left_associative() {
    assert_eq!(tree("=2^3^2"), "(^ (^ 2 3) 2)");
}

#[test]
fn percent_applies_outside_the_sign() {
    assert_eq!(tree("=-2%"), "(% (neg 2))");
    assert_eq!(tree("=50%*2"), "(* (% 50) 2)");
}

#[test]
fn repeated_signs_are_allowed() {
    assert_eq!(tree("=--1"), "(neg (neg 1))");
    assert_eq!(tree("=+-1"), "(pos (neg 1))");
}

#[test]
fn references_collapse_into_a_single_node() {
    assert_eq!(tree("=A1"), "A1");
    assert_eq!(tree("=$A$1"), "$A$1");
    assert_eq!(tree("=A1:B2"), "A1:B2");
    assert_eq!(tree("=B2:A1"), "A1:B2");
}

#[test]
fn whole_columns_and_rows_parse() {
    assert_eq!(tree("=A:A"), "A:A");
    assert_eq!(tree("=B:D"), "B:D");
    assert_eq!(tree("=2:5"), "2:5");
    assert_eq!(tree("=D:B"), "B:D");
}

#[test]
fn a_lone_column_letter_is_a_defined_name() {
    assert_eq!(tree("=A"), "name(A)");
}

#[test]
fn sheet_qualified_references_keep_their_sheet() {
    assert_eq!(tree("=Sheet1!A1"), "Sheet1!A1");
    assert_eq!(tree("=Sheet1!A1:B2"), "Sheet1!A1:B2");
    assert_eq!(tree("='My Sheet'!A1"), "My Sheet!A1");
    assert_eq!(tree("=Sheet1:Sheet3!A1"), "Sheet1:Sheet3!A1");
    assert_eq!(tree("=Sheet1!Total"), "name(Sheet1!Total)");
}

#[test]
fn calls_take_their_arguments() {
    assert_eq!(tree("=SUM(A1:B2,3)"), "SUM(A1:B2 3)");
    assert_eq!(tree("=NOW()"), "NOW()");
    assert_eq!(tree("=IF(A1>0,\"y\",\"n\")"), r#"IF((> A1 0) "y" "n")"#);
}

#[test]
fn an_omitted_argument_is_a_blank() {
    assert_eq!(tree("=IF(A1,,0)"), "IF(A1 blank 0)");
    assert_eq!(tree("=SUM(,1)"), "SUM(blank 1)");
}

#[test]
fn a_word_before_a_paren_is_a_call_even_if_it_reads_as_a_reference() {
    assert_eq!(tree("=LOG10(100)"), "LOG10(100)");
}

#[test]
fn booleans_are_literals_not_names() {
    assert_eq!(tree("=TRUE"), "TRUE");
    assert_eq!(tree("=false"), "FALSE");
}

#[test]
fn a_space_between_references_is_an_intersection() {
    assert_eq!(tree("=A1:A5 A3:B3"), "(isect A1:A5 A3:B3)");
}

#[test]
fn a_space_before_a_sign_is_just_spacing() {
    assert_eq!(tree("=A1 -B1"), "(- A1 B1)");
    assert_eq!(tree("=A1 + B1"), "(+ A1 B1)");
    assert_eq!(tree("= 1 + 2 "), "(+ 1 2)");
}

#[test]
fn commas_inside_a_group_make_a_union() {
    assert_eq!(tree("=(A1:A2,C1:C2)"), "(union A1:A2 C1:C2)");
    assert_eq!(tree("=SUM((A1:A2,C1:C2))"), "SUM((union A1:A2 C1:C2))");
}

#[test]
fn array_literals_keep_their_shape() {
    assert_eq!(tree("={1,2;3,4}"), "{1 2 ; 3 4}");
    assert_eq!(tree("={1;2;3}"), "{1 ; 2 ; 3}");
    assert_eq!(tree("={1,2,3}"), "{1 2 3}");
}

#[test]
fn a_ragged_array_is_rejected() {
    assert_eq!(parse("={1,2;3}").unwrap_err().kind, ParseErrorKind::RaggedArray);
}

#[test]
fn an_error_value_can_be_written_out() {
    assert_eq!(tree("=#N/A"), "#N/A");
    assert_eq!(tree("=IFERROR(A1,#N/A)"), "IFERROR(A1 #N/A)");
    assert_eq!(tree("=#REF!+1"), "(+ #REF! 1)");
}

#[test]
fn a_dynamic_range_stays_an_operator() {
    assert_eq!(tree("=INDEX(A:A,1):B5"), "(: INDEX(A:A 1) B5)");
}

#[test]
fn a_reference_outside_the_grid_is_rejected() {
    assert!(matches!(
        parse("=XFE1").unwrap_err().kind,
        ParseErrorKind::BadReference(ParseRefError::ColumnRange)
    ));
    assert!(matches!(
        parse("=A1048577").unwrap_err().kind,
        ParseErrorKind::BadReference(ParseRefError::RowRange)
    ));
}

#[test]
fn unfinished_formulas_report_where_they_stopped() {
    assert_eq!(parse("=1+").unwrap_err().kind, ParseErrorKind::UnexpectedEnd);
    assert_eq!(parse("=SUM(1").unwrap_err().kind, ParseErrorKind::UnclosedBracket);
    assert_eq!(parse("=(1").unwrap_err().kind, ParseErrorKind::UnclosedBracket);
    assert_eq!(parse("=1 2 3)").unwrap_err().kind, ParseErrorKind::TrailingInput);
}

#[test]
fn the_leading_equals_is_optional() {
    assert_eq!(parse("1+1").unwrap(), parse("=1+1").unwrap());
}

#[test]
fn a_realistic_formula_parses() {
    let expected = [
        "IF((> (isect Sales!A1:A100 B1:B100) 0) ",
        "(/ SUM($A$1:$A$10) 2) ",
        "IFERROR(VLOOKUP(A1 Sheet2!A:C 3 FALSE) \"\"))",
    ]
    .join("");
    assert_eq!(
        tree(
            "=IF(Sales!A1:A100 B1:B100>0,SUM($A$1:$A$10)/2,\
             IFERROR(VLOOKUP(A1,Sheet2!A:C,3,FALSE),\"\"))"
        ),
        expected
    );
}

#[test]
fn errors_carry_a_position_inside_the_text() {
    let err = parse("=1+*2").unwrap_err();
    assert_eq!(err.kind, ParseErrorKind::UnexpectedToken);
    assert_eq!(err.at, 2);
}

#[test]
fn an_error_value_is_not_mistaken_for_a_reference_target() {
    assert_eq!(tree("=Sheet1!#REF!"), "Sheet1!#REF!");
    let _ = CalcError::Ref;
}

#[test]
fn numbers_keep_the_digits_they_were_written_with() {
    assert_eq!(parse("=1.50").unwrap(), parse("=1.50").unwrap());
    match parse("=1.50").unwrap() {
        Expr::Literal(Literal::Number(n)) => assert_eq!(n, "1.50"),
        other => panic!("{other:?}"),
    }
    // A whole number written with a point is still one end of a row range.
    assert_eq!(tree("=2.0:5e0"), "2:5");
    assert_eq!(tree("=1e3"), "1000");
}

#[test]
fn a_row_range_after_a_sheet_is_read_whole() {
    assert_eq!(tree("=Data!2:5"), "Data!2:5");
    assert_eq!(tree("=Data!5:2"), "Data!2:5");
    assert!(matches!(
        parse("=Data!2:1048577").unwrap_err().kind,
        ParseErrorKind::BadReference(ParseRefError::RowRange)
    ));
}

#[test]
fn a_range_after_a_sheet_keeps_its_corners_as_written() {
    assert_eq!(tree("=Sheet1!B2:A1"), "Sheet1!B2:A1");
}

#[test]
fn lexing_errors_become_parse_errors() {
    let err = parse("=1 ~ 2").unwrap_err();
    assert!(matches!(err.kind, ParseErrorKind::Lex(_)));
    assert_eq!(err.at, 2);
    assert_eq!(err.describe(), "unexpected character '~' at 2");
    assert_eq!(parse("=(1").unwrap_err().describe(), "this bracket is never closed (at 0)");
}

#[test]
fn a_row_past_the_grid_is_reported_where_the_reference_starts() {
    let error = parse("=Sheet1!2:0").unwrap_err();
    assert_eq!(error.kind, ParseErrorKind::BadReference(ParseRefError::RowRange));
    assert_eq!(error.at, 7);
    let tried = try_parse("=Sheet1!2:0").unwrap().unwrap_err();
    assert_eq!((tried.kind, tried.at), (ParseErrorKind::BadReference(ParseRefError::RowRange), 7));
}

#[test]
fn a_formula_whose_lexing_would_cut_a_character_is_refused_beforehand() {
    assert!(try_parse("=#N/\u{e9}").is_none());
    assert!(try_parse("=1+1").unwrap().is_ok());
}
