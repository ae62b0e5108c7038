use calculator::{Calculator, Error, Operator, Rational, Token};

fn exact(expr: &str) -> (i64, i64) {
    let r = Calculator::calculate(expr).unwrap();
    (r.num, r.den)
}

#[test]
fn whitespace_variants_agree() {
    let a = exact("2+3");
    let b = exact("  2   +   3  ");
    let c = exact("\t2\n+\t3\n");
    assert_eq!(a, b);
    assert_eq!(b, c);
    assert_eq!(a, (5, 1));
}

#[test]
fn precedence_exact_values() {
    assert_eq!(exact("2 + 3 * 4"), (14, 1));
    assert_eq!(exact("(2 + 3) * 4"), (20, 1));
    assert_eq!(exact("10 - 6 / 2"), (14, 2));
}

#[test]
fn left_associative_same_precedence() {
    // 10 - 4 - 3 groups as (10 - 4) - 3, not 10 - (4 - 3)
    assert_eq!(exact("10 - 4 - 3"), (3, 1));
    // 100 / 10 / 5 groups as (100 / 10) / 5
    assert_eq!(exact("100 / 10 / 5"), (100, 50));
}

#[test]
fn results_are_exact_rationals() {
    assert_eq!(exact("1 / 3"), (1, 3));
    assert_eq!(exact("1 / 3 * 3"), (3, 3));
    assert_eq!(exact("2.5 + 3.7"), (620, 100));
}

#[test]
fn division_normalizes_sign_into_numerator() {
    // dividing by a negative value keeps the denominator positive
    assert_eq!(exact("3 / (1 - 3)"), (-3, 2));
    assert_eq!(exact("(2 - 5) / 2"), (-3, 2));
}

#[test]
fn dot_starts_a_literal() {
    assert_eq!(exact(".5 + .5"), (100, 100));
    assert_eq!(exact("5. + 1"), (6, 1));
}

#[test]
fn malformed_literals_are_bad_tokens() {
    match Calculator::calculate("1.2.3") {
        Err(Error::BadToken('1')) => (),
        other => panic!("expected BadToken('1'), got {:?}", other),
    }
    match Calculator::calculate(".") {
        Err(Error::BadToken('.')) => (),
        other => panic!("expected BadToken('.'), got {:?}", other),
    }
    match Calculator::calculate("2 + ..") {
        Err(Error::BadToken('.')) => (),
        other => panic!("expected BadToken('.'), got {:?}", other),
    }
}

#[test]
fn oversized_literal_overflows() {
    // twenty digits cannot be held exactly in 64 bits
    match Calculator::calculate("99999999999999999999") {
        Err(Error::Overflow) => (),
        other => panic!("expected Overflow, got {:?}", other),
    }
    // a denominator of ten to the twentieth cannot either
    match Calculator::calculate("0.00000000000000000001") {
        Err(Error::Overflow) => (),
        other => panic!("expected Overflow, got {:?}", other),
    }
}

#[test]
fn oversized_product_overflows() {
    match Calculator::calculate("9000000000000000000 * 9000000000000000000") {
        Err(Error::Overflow) => (),
        other => panic!("expected Overflow, got {:?}", other),
    }
}

#[test]
fn empty_brackets_are_invalid() {
    match Calculator::calculate("()") {
        Err(Error::InvalidExpression) => (),
        other => panic!("expected InvalidExpression, got {:?}", other),
    }
}

#[test]
fn leftover_operands_are_invalid() {
    match Calculator::calculate("2 3") {
        Err(Error::InvalidExpression) => (),
        other => panic!("expected InvalidExpression, got {:?}", other),
    }
    match Calculator::calculate("2 +") {
        Err(Error::InvalidExpression) => (),
        other => panic!("expected InvalidExpression, got {:?}", other),
    }
}

#[test]
fn evaluate_rejects_brackets() {
    let tokens = vec![Token::Bracket('(')];
    match Calculator::evaluate(tokens) {
        Err(Error::InvalidExpression) => (),
        other => panic!("expected InvalidExpression, got {:?}", other),
    }
}

#[test]
fn evaluate_rejects_empty_input() {
    match Calculator::evaluate(Vec::new()) {
        Err(Error::InvalidExpression) => (),
        other => panic!("expected InvalidExpression, got {:?}", other),
    }
}

#[test]
fn round_trip_matches_calculate() {
    // running the stages by hand agrees with the composed entry point
    let tokens = Calculator::parse("2 + 3 * 4 - 1").unwrap();
    let postfix = Calculator::to_postfix(tokens);
    let staged = Calculator::evaluate(postfix).unwrap();
    let composed = Calculator::calculate("2 + 3 * 4 - 1").unwrap();
    assert_eq!((staged.num, staged.den), (composed.num, composed.den));
    assert_eq!((staged.num, staged.den), (13, 1));
}

#[test]
fn apply_matches_operator_semantics() {
    let a = Rational::from_int(7);
    let b = Rational::new(1, 2);
    let sum = Operator::Add.apply(a, b).unwrap();
    assert_eq!((sum.num, sum.den), (15, 2));
    let diff = Operator::Subtract.apply(a, b).unwrap();
    assert_eq!((diff.num, diff.den), (13, 2));
    let prod = Operator::Multiply.apply(a, b).unwrap();
    assert_eq!((prod.num, prod.den), (7, 2));
    let quot = Operator::Divide.apply(a, b).unwrap();
    assert_eq!((quot.num, quot.den), (14, 1));
    match Operator::Divide.apply(a, Rational::from_int(0)) {
        Err(Error::DivisionByZero) => (),
        other => panic!("expected DivisionByZero, got {:?}", other),
    }
}

#[test]
fn precedence_classes() {
    assert_eq!(Operator::Add.precedence(), 1);
    assert_eq!(Operator::Subtract.precedence(), 1);
    assert_eq!(Operator::Multiply.precedence(), 2);
    assert_eq!(Operator::Divide.precedence(), 2);
}

#[test]
fn stray_brackets_are_dropped_by_the_converter() {
    // a bracket that is neither '(' nor ')' never comes out of the
    // tokenizer; the converter silently drops such a token
    let tokens = vec![Token::Number(Rational::from_int(2)), Token::Bracket('x')];
    let postfix = Calculator::to_postfix(tokens);
    assert_eq!(postfix.len(), 1);
    match &postfix[0] {
        Token::Number(n) => assert_eq!((n.num, n.den), (2, 1)),
        other => panic!("expected the number to survive, got {:?}", other),
    }
}
