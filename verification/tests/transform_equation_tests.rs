use equation_tools::utils::transform_equation::{
    euclid_gcd, parse, split_transform_input, tokenize, Expr, Parser, Tok, TransformInput,
};

fn num(s: &str) -> Box<Expr> {
    Box::new(Expr::Num(s.to_string()))
}

fn var(s: &str) -> Box<Expr> {
    Box::new(Expr::Var(s.to_string()))
}

#[test]
fn tokenize_operators_numbers_and_words() {
    let tokens = tokenize("2x^2 + 3.5*(y - 1)/z");
    assert_eq!(
        tokens,
        vec![
            Tok::Number("2".to_string()),
            Tok::Variable("x".to_string()),
            Tok::Pow,
            Tok::Number("2".to_string()),
            Tok::Plus,
            Tok::Number("3.5".to_string()),
            Tok::Mul,
            Tok::LParen,
            Tok::Variable("y".to_string()),
            Tok::Minus,
            Tok::Number("1".to_string()),
            Tok::RParen,
            Tok::Div,
            Tok::Variable("z".to_string()),
            Tok::EOF,
        ]
    );
}

#[test]
fn tokenize_skips_blanks_and_unknown_characters() {
    assert_eq!(tokenize(""), vec![Tok::EOF]);
    assert_eq!(tokenize(" \t\n"), vec![Tok::EOF]);
    assert_eq!(
        tokenize("ab1 #%x"),
        vec![
            Tok::Variable("ab".to_string()),
            Tok::Number("1".to_string()),
            Tok::Variable("x".to_string()),
            Tok::EOF
        ]
    );
}

#[test]
fn parse_respects_precedence() {
    // 1 + 2 * 3 groups as 1 + (2 * 3)
    assert_eq!(parse("1 + 2 * 3"), Expr::Add(num("1"), Box::new(Expr::Mul(num("2"), num("3")))));
    // subtraction groups to the left
    assert_eq!(parse("5 - 2 - 1"), Expr::Sub(Box::new(Expr::Sub(num("5"), num("2"))), num("1")));
}

#[test]
fn parse_power_is_right_associative() {
    assert_eq!(parse("2^3^2"), Expr::Pow(num("2"), Box::new(Expr::Pow(num("3"), num("2")))));
}

#[test]
fn parse_implicit_products() {
    assert_eq!(parse("2x"), Expr::Mul(num("2"), var("x")));
    assert_eq!(
        parse("(a+b)(c+d)"),
        Expr::Mul(Box::new(Expr::Add(var("a"), var("b"))), Box::new(Expr::Add(var("c"), var("d"))))
    );
    assert_eq!(parse("3y^2"), Expr::Mul(num("3"), Box::new(Expr::Pow(var("y"), num("2")))));
    assert_eq!(parse("2(x+1)"), Expr::Mul(num("2"), Box::new(Expr::Add(var("x"), num("1")))));
    assert_eq!(parse("x^2y"), Expr::Pow(var("x"), Box::new(Expr::Mul(num("2"), var("y")))));
}

#[test]
fn parse_negation_and_missing_operands() {
    assert_eq!(parse("-x"), Expr::Neg(var("x")));
    assert_eq!(parse(""), Expr::Num("0".to_string()));
    assert_eq!(parse("2 +"), Expr::Add(num("2"), num("0")));
    assert_eq!(parse("(x"), Expr::Var("x".to_string()));
}

#[test]
fn parser_new_accepts_tokens() {
    let _p = Parser::new(tokenize("x"));
}

#[test]
fn split_transform_input_cases() {
    assert_eq!(split_transform_input("   "), TransformInput::Empty);
    assert_eq!(split_transform_input(" 2x + 1 "), TransformInput::Expression("2x + 1".to_string()));
    assert_eq!(
        split_transform_input(" 2x + 1 = 3 = 4"),
        TransformInput::Equation("2x + 1".to_string(), "3 = 4".to_string())
    );
}

#[test]
fn clone_keeps_trees_and_tokens() {
    let e = parse("3y^2 + (a-b)/c");
    assert_eq!(e.clone(), e);
    let t = tokenize("2x");
    assert_eq!(t.clone(), t);
}

#[test]
fn euclid_gcd_values() {
    assert_eq!(euclid_gcd(12, 18), 6);
    assert_eq!(euclid_gcd(0, 7), 7);
    assert_eq!(euclid_gcd(9, 0), 9);
    assert_eq!(euclid_gcd(0, 0), 0);
    assert_eq!(euclid_gcd(17, 5), 1);
}
