use parsekit::parser::{precedence, Assoc, RPNExpr, ShuntingParser};
use parsekit::tokenizer::{tokenize, MathToken};
use std::collections::HashMap;

/// A token with its number read as a float.
#[derive(Debug, PartialEq)]
enum Tok {
    Unknown(String),
    Number(f64),
    Variable(String),
    Function(String, usize),
    UOp(String),
    BOp(String),
    OParen,
    CParen,
    Comma,
}

fn plain(rpn: &RPNExpr) -> Vec<Tok> {
    rpn.0
        .iter()
        .map(|t| match t {
            MathToken::Unknown(s) => Tok::Unknown(s.clone()),
            MathToken::Number(s) => Tok::Number(s.parse::<f64>().unwrap()),
            MathToken::Variable(s) => Tok::Variable(s.clone()),
            MathToken::Function(s, n) => Tok::Function(s.clone(), *n),
            MathToken::UOp(s) => Tok::UOp(s.clone()),
            MathToken::BOp(s) => Tok::BOp(s.clone()),
            MathToken::OParen => Tok::OParen,
            MathToken::CParen => Tok::CParen,
            MathToken::Comma => Tok::Comma,
        })
        .collect()
}

#[test]
fn test_parse1() {
    let rpn = ShuntingParser::parse_str("3+4*2/-(1-5)^2^3").unwrap();
    let expect = vec![
        Tok::Number(3.0),
        Tok::Number(4.0),
        Tok::Number(2.0),
        Tok::BOp(format!("*")),
        Tok::Number(1.0),
        Tok::Number(5.0),
        Tok::BOp(format!("-")),
        Tok::Number(2.0),
        Tok::Number(3.0),
        Tok::BOp(format!("^")),
        Tok::BOp(format!("^")),
        Tok::UOp(format!("-")),
        Tok::BOp(format!("/")),
        Tok::BOp(format!("+")),
    ];
    assert_eq!(plain(&rpn), expect);
}

#[test]
fn test_parse2() {
    let rpn = ShuntingParser::parse_str("3.4e-2 * sin(x)/(7! % -4) * max(2, x)").unwrap();
    let expect = vec![
        Tok::Number(3.4e-2),
        Tok::Variable(format!("x")),
        Tok::Function(format!("sin"), 1),
        Tok::BOp(format!("*")),
        Tok::Number(7.0),
        Tok::UOp(format!("!")),
        Tok::Number(4.0),
        Tok::UOp(format!("-")),
        Tok::BOp(format!("%")),
        Tok::BOp(format!("/")),
        Tok::Number(2.0),
        Tok::Variable(format!("x")),
        Tok::Function(format!("max"), 2),
        Tok::BOp(format!("*")),
    ];
    assert_eq!(plain(&rpn), expect);
}

#[test]
fn test_parse3() {
    let rpn = ShuntingParser::parse_str("sqrt(-(1-x^2) / (1 + x^2))").unwrap();
    let expect = vec![
        Tok::Number(1.0),
        Tok::Variable(format!("x")),
        Tok::Number(2.0),
        Tok::BOp(format!("^")),
        Tok::BOp(format!("-")),
        Tok::UOp(format!("-")),
        Tok::Number(1.0),
        Tok::Variable(format!("x")),
        Tok::Number(2.0),
        Tok::BOp(format!("^")),
        Tok::BOp(format!("+")),
        Tok::BOp(format!("/")),
        Tok::Function(format!("sqrt"), 1),
    ];
    assert_eq!(plain(&rpn), expect);
}

#[test]
fn bad_parse() {
    let rpn = ShuntingParser::parse_str("sqrt(-(1-x^2) / (1 + x^2)");
    assert_eq!(rpn, Err(format!("Missing Closing Paren")));

    let rpn = ShuntingParser::parse_str("-(1-x^2) / (1 + x^2))");
    assert_eq!(rpn, Err(format!("Missing Opening Paren")));

    let rpn = ShuntingParser::parse_str("max 4, 6, 4)");
    assert_eq!(rpn, Err(format!("Missing Opening Paren")));
}

#[test]
fn check_arity() {
    let rpn = ShuntingParser::parse_str("sin(1)+(max(2, gamma(3.5), gcd(24, 8))+sum(i,0,10))")
        .unwrap();
    let mut expect = HashMap::new();
    expect.insert("sin", 1);
    expect.insert("max", 3);
    expect.insert("gamma", 1);
    expect.insert("gcd", 2);
    expect.insert("sum", 3);

    for token in rpn.0.iter() {
        match *token {
            MathToken::Function(ref func, arity) => {
                let expected_arity = expect.get(&func[..]);
                assert_eq!(*expected_arity.unwrap(), arity);
            }
            _ => (),
        }
    }
}

#[test]
fn bad_token_is_reported_with_its_text() {
    let rpn = ShuntingParser::parse_str("2 + 3i");
    assert_eq!(rpn, Err(format!("Bad token: 3i")));
    let rpn = ShuntingParser::parse_str("2 # 3");
    assert_eq!(rpn, Err(format!("Bad token: #")));
}

#[test]
fn precedence_of_each_operator() {
    assert_eq!(precedence(&MathToken::OParen), (1, Assoc::Left));
    assert_eq!(precedence(&MathToken::BOp(format!("+"))), (2, Assoc::Left));
    assert_eq!(precedence(&MathToken::BOp(format!("-"))), (2, Assoc::Left));
    assert_eq!(precedence(&MathToken::BOp(format!("%"))), (3, Assoc::Left));
    assert_eq!(precedence(&MathToken::UOp(format!("-"))), (5, Assoc::Right));
    assert_eq!(precedence(&MathToken::BOp(format!("^"))), (5, Assoc::Right));
    assert_eq!(precedence(&MathToken::UOp(format!("!"))), (6, Assoc::Left));
    assert_eq!(precedence(&MathToken::Function(format!("f"), 0)), (7, Assoc::Left));
    assert_eq!(precedence(&MathToken::Number(format!("1"))), (99, Assoc::Neither));
    assert_eq!(precedence(&MathToken::BOp(format!("<="))), (99, Assoc::Neither));
}

#[test]
fn operators_without_grouping_are_refused() {
    let tokens = vec![
        MathToken::Number(format!("1")),
        MathToken::BOp(format!("<")),
        MathToken::Number(format!("2")),
        MathToken::BOp(format!("<")),
        MathToken::Number(format!("3")),
    ];
    assert_eq!(ShuntingParser::parse(&tokens), Err(format!("No Associativity")));
}

#[test]
fn tokens_of_an_expression() {
    let tokens = tokenize("-x ** 2 >= f(1.5e3, y)");
    let expect = vec![
        MathToken::UOp(format!("-")),
        MathToken::Variable(format!("x")),
        MathToken::BOp(format!("**")),
        MathToken::Number(format!("2")),
        MathToken::BOp(format!(">=")),
        MathToken::Function(format!("f"), 0),
        MathToken::OParen,
        MathToken::Number(format!("1.5e3")),
        MathToken::Comma,
        MathToken::Variable(format!("y")),
        MathToken::CParen,
    ];
    assert_eq!(tokens, expect);
}
