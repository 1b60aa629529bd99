use ribbit::syntax::{
    other_ident_char, parse_expr, parse_ident, parse_int, parse_list, parse_program, parse_var,
    whitespace, Expr, ParseError,
};

fn var(s: &str) -> Expr {
    Expr::Var(s.to_string())
}

#[test]
fn test_parse_basic() {
    let input = "(declare-bv-fun x 32)\n(declare-bv-fun y 32)\n(assert (eq x (bv-and y (to-bv 10))))\n(assert (lt x (to-bv 15)))";

    let expected = vec![
        Expr::List(vec![
            Expr::Var("declare-bv-fun".to_string()),
            Expr::Var("x".to_string()),
            Expr::Int(32),
        ]),
        Expr::List(vec![
            Expr::Var("declare-bv-fun".to_string()),
            Expr::Var("y".to_string()),
            Expr::Int(32),
        ]),
        Expr::List(vec![
            Expr::Var("assert".to_string()),
            Expr::List(vec![
                Expr::Var("eq".to_string()),
                Expr::Var("x".to_string()),
                Expr::List(vec![
                    Expr::Var("bv-and".to_string()),
                    Expr::Var("y".to_string()),
                    Expr::List(vec![
                        Expr::Var("to-bv".to_string()),
                        Expr::Int(10),
                    ]),
                ]),
            ]),
        ]),
        Expr::List(vec![
            Expr::Var("assert".to_string()),
            Expr::List(vec![
                Expr::Var("lt".to_string()),
                Expr::Var("x".to_string()),
                Expr::List(vec![
                    Expr::Var("to-bv".to_string()),
                    Expr::Int(15),
                ]),
            ]),
        ]),
    ];

    let (_, parsed_program) = parse_program(input).expect("program parsed");
    assert_eq!(parsed_program, expected);
}

#[test]
fn whitespace_skips_leading_blanks_only() {
    assert_eq!(whitespace(" \t\r\n x y "), "x y ");
    assert_eq!(whitespace("x"), "x");
    assert_eq!(whitespace("   "), "");
    assert_eq!(whitespace(""), "");
}

#[test]
fn parse_int_reads_signed_numbers() {
    assert_eq!(parse_int(" 42 rest"), Ok(("rest", Expr::Int(42))));
    assert_eq!(parse_int("+5"), Ok(("", Expr::Int(5))));
    assert_eq!(parse_int("-17)"), Ok((")", Expr::Int(-17))));
    assert_eq!(parse_int("007x"), Ok(("x", Expr::Int(7))));
}

#[test]
fn parse_int_limits() {
    assert_eq!(
        parse_int("170141183460469231731687303715884105727"),
        Ok(("", Expr::Int(i128::MAX)))
    );
    assert_eq!(parse_int("170141183460469231731687303715884105728"), Err(ParseError));
    assert_eq!(
        parse_int("-170141183460469231731687303715884105728"),
        Ok(("", Expr::Int(i128::MIN)))
    );
    assert_eq!(parse_int("-170141183460469231731687303715884105729"), Err(ParseError));
}

#[test]
fn parse_int_rejects_non_numbers() {
    assert_eq!(parse_int("x"), Err(ParseError));
    assert_eq!(parse_int("-"), Err(ParseError));
    assert_eq!(parse_int("- 5"), Err(ParseError));
    assert_eq!(parse_int(""), Err(ParseError));
}

#[test]
fn other_ident_char_takes_dash_or_underscore() {
    assert_eq!(other_ident_char("-x"), Ok(("x", "-")));
    assert_eq!(other_ident_char("_"), Ok(("", "_")));
    assert_eq!(other_ident_char("a"), Err(ParseError));
    assert_eq!(other_ident_char(""), Err(ParseError));
}

#[test]
fn parse_ident_reads_identifier_characters() {
    assert_eq!(parse_ident("abc-1_x rest"), Ok((" rest", "abc-1_x")));
    assert_eq!(parse_ident("_9)"), Ok((")", "_9")));
    assert_eq!(parse_ident("1abc"), Err(ParseError));
    assert_eq!(parse_ident(" abc"), Err(ParseError));
}

#[test]
fn parse_var_skips_whitespace_around() {
    assert_eq!(parse_var("  foo  bar"), Ok(("bar", var("foo"))));
    assert_eq!(parse_var("5"), Err(ParseError));
}

#[test]
fn parse_expr_prefers_variables_to_numbers() {
    assert_eq!(parse_expr("-5"), Ok(("", var("-5"))));
    assert_eq!(parse_expr("+5"), Ok(("", Expr::Int(5))));
    assert_eq!(parse_expr("12 x"), Ok(("x", Expr::Int(12))));
    assert_eq!(parse_expr(")"), Err(ParseError));
}

#[test]
fn parse_list_needs_one_element_and_both_parens() {
    assert_eq!(
        parse_list(" ( a 1 ) z"),
        Ok(("z", Expr::List(vec![var("a"), Expr::Int(1)])))
    );
    assert_eq!(
        parse_list("((a))"),
        Ok(("", Expr::List(vec![Expr::List(vec![var("a")])])))
    );
    assert_eq!(parse_list("()"), Err(ParseError));
    assert_eq!(parse_list("(a"), Err(ParseError));
    assert_eq!(parse_list("a"), Err(ParseError));
}

#[test]
fn parse_program_needs_one_expression() {
    assert_eq!(parse_program(""), Err(ParseError));
    assert_eq!(parse_program("   "), Err(ParseError));
    assert_eq!(parse_program("x 3"), Ok(("", vec![var("x"), Expr::Int(3)])));
    assert_eq!(parse_program("(a) )"), Ok((")", vec![Expr::List(vec![var("a")])])));
}

#[test]
fn parsed_expressions_clone_equal() {
    let (_, prog) = parse_program("(assert (eq x (bv-add y (to-bv -3 4))))").expect("parsed");
    let copy = prog.clone();
    assert_eq!(copy, prog);
    let e = Expr::List(vec![var("f"), Expr::Int(7), Expr::List(vec![])]);
    assert_eq!(e.clone(), e);
}
