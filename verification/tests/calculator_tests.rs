use calculator::{Calculator, Error, Operator, Rational, Token};

fn as_f64(r: &Rational) -> f64 {
    r.num as f64 / r.den as f64
}

fn eval(expr: &str) -> f64 {
    as_f64(&Calculator::calculate(expr).unwrap())
}

#[test]
fn test_basic_arithmetic() {
    assert_eq!(eval("2 + 3"), 5.0);
    assert_eq!(eval("10 - 4"), 6.0);
    assert_eq!(eval("3 * 4"), 12.0);
    assert_eq!(eval("15 / 3"), 5.0);
}

#[test]
fn test_operator_precedence() {
    assert_eq!(eval("2 + 3 * 4"), 14.0);
    assert_eq!(eval("10 - 6 / 2"), 7.0);
    assert_eq!(eval("2 * 3 + 4 * 5"), 26.0);
    assert_eq!(eval("20 / 4 - 2 * 2"), 1.0);
}

#[test]
fn test_parentheses() {
    assert_eq!(eval("(2 + 3) * 4"), 20.0);
    assert_eq!(eval("2 * (3 + 4)"), 14.0);
    assert_eq!(eval("(10 - 6) / 2"), 2.0);
    assert_eq!(eval("((2 + 3) * 4) / 5"), 4.0);
}

#[test]
fn test_nested_parentheses() {
    assert_eq!(eval("((2 + 3) * (4 + 1))"), 25.0);
    assert_eq!(eval("(2 * (3 + 4)) - 1"), 13.0);
    assert_eq!(eval("((10 / 2) + 3) * 2"), 16.0);
}

#[test]
fn test_decimal_numbers() {
    assert_eq!(eval("2.5 + 3.7"), 6.2);
    assert_eq!(eval("10.5 / 2.1"), 5.0);
    assert_eq!(eval("3.14 * 2"), 6.28);
    assert_eq!(eval("7.5 - 2.25"), 5.25);
}

#[test]
fn test_whitespace_handling() {
    assert_eq!(eval("  2   +   3  "), 5.0);
    assert_eq!(eval("2+3"), 5.0);
    assert_eq!(eval(" ( 2 + 3 ) * 4 "), 20.0);
    assert_eq!(eval("\t2\n*\t3\n"), 6.0);
}

#[test]
fn test_complex_expressions() {
    assert_eq!(eval("1 + 2 * 3 + 4"), 11.0);
    assert_eq!(eval("(1 + 2) * (3 + 4)"), 21.0);
    assert_eq!(eval("10 + 5 * 2 - 3 / 3"), 19.0);
    assert_eq!(eval("100 / 4 / 5 + 2 * 3"), 11.0);
}

#[test]
fn test_division_by_zero() {
    match Calculator::calculate("5 / 0") {
        Err(Error::DivisionByZero) => (),
        _ => panic!("Expected DivisionByZero error"),
    }

    match Calculator::calculate("10 / (2 - 2)") {
        Err(Error::DivisionByZero) => (),
        _ => panic!("Expected DivisionByZero error"),
    }
}

#[test]
fn test_invalid_tokens() {
    match Calculator::calculate("2 + @") {
        Err(Error::BadToken('@')) => (),
        _ => panic!("Expected BadToken error"),
    }

    match Calculator::calculate("5 & 3") {
        Err(Error::BadToken('&')) => (),
        _ => panic!("Expected BadToken error"),
    }
}

#[test]
fn test_mismatched_parentheses() {
    match Calculator::calculate("(2 + 3") {
        Err(Error::MismatchedParens) => (),
        _ => panic!("Expected MismatchedParens error"),
    }

    match Calculator::calculate("2 + 3)") {
        Err(Error::MismatchedParens) => (),
        _ => panic!("Expected MismatchedParens error"),
    }

    match Calculator::calculate("((2 + 3)") {
        Err(Error::MismatchedParens) => (),
        _ => panic!("Expected MismatchedParens error"),
    }
}

#[test]
fn test_empty_expression() {
    match Calculator::calculate("") {
        Err(Error::InvalidExpression) => (),
        _ => panic!("Expected InvalidExpression error"),
    }
}

#[test]
fn test_operator_precedence_comprehensive() {
    // Test all combinations of operators
    assert_eq!(eval("1 + 2 * 3 - 4 / 2"), 5.0);
    assert_eq!(eval("2 * 3 + 4 * 5 - 6 / 2"), 23.0);
    assert_eq!(eval("10 / 2 + 3 * 4 - 5"), 12.0);
}

#[test]
fn test_large_numbers() {
    assert_eq!(eval("1000000 + 2000000"), 3000000.0);
    assert_eq!(eval("999999 * 2"), 1999998.0);
    assert_eq!(eval("1000000 / 1000"), 1000.0);
}

#[test]
fn test_negative_results() {
    assert_eq!(eval("3 - 5"), -2.0);
    assert_eq!(eval("10 / 2 - 8"), -3.0);
    assert_eq!(eval("(2 - 5) * 3"), -9.0);
}

#[test]
fn test_fractional_results() {
    assert_eq!(eval("1 / 2"), 0.5);
    assert_eq!(eval("3 / 4"), 0.75);
    assert_eq!(eval("7 / 8"), 0.875);
}

#[test]
fn test_parse_function() {
    let tokens = Calculator::parse("2 + 3").unwrap();
    assert_eq!(tokens.len(), 3);

    match &tokens[0] {
        Token::Number(n) => assert_eq!(as_f64(n), 2.0),
        _ => panic!("Expected number token"),
    }

    match &tokens[1] {
        Token::Op(Operator::Add) => (),
        _ => panic!("Expected add operator"),
    }

    match &tokens[2] {
        Token::Number(n) => assert_eq!(as_f64(n), 3.0),
        _ => panic!("Expected number token"),
    }
}

#[test]
fn test_to_postfix_function() {
    let tokens = Calculator::parse("2 + 3 * 4").unwrap();
    let postfix = Calculator::to_postfix(tokens);

    // Should be: 2 3 4 * +
    assert_eq!(postfix.len(), 5);

    match &postfix[0] {
        Token::Number(n) => assert_eq!(as_f64(n), 2.0),
        _ => panic!("Expected number 2"),
    }

    match &postfix[1] {
        Token::Number(n) => assert_eq!(as_f64(n), 3.0),
        _ => panic!("Expected number 3"),
    }

    match &postfix[2] {
        Token::Number(n) => assert_eq!(as_f64(n), 4.0),
        _ => panic!("Expected number 4"),
    }

    match &postfix[3] {
        Token::Op(Operator::Multiply) => (),
        _ => panic!("Expected multiply operator"),
    }

    match &postfix[4] {
        Token::Op(Operator::Add) => (),
        _ => panic!("Expected add operator"),
    }
}

#[test]
fn test_evaluate_function() {
    let postfix = vec![
        Token::Number(Rational::from_int(2)),
        Token::Number(Rational::from_int(3)),
        Token::Number(Rational::from_int(4)),
        Token::Op(Operator::Multiply),
        Token::Op(Operator::Add),
    ];

    let result = Calculator::evaluate(postfix).unwrap();
    assert_eq!(as_f64(&result), 14.0);
}
