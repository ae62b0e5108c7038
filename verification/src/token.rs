//! The shared token representation: operators, exact rational numbers,
//! tokens and the error taxonomy.

use vstd::prelude::*;

verus! {

/// One of the four binary operators of the expression language.
#[derive(Debug, Clone, Copy, PartialEq)]
pub enum Operator {
    Add,
    Subtract,
    Multiply,
    Divide,
}

/// The precedence class of an operator: the multiplicative operators bind
/// tighter than the additive ones, and operators of one class compare equal.
pub open spec fn spec_precedence(op: Operator) -> int {
    match op {
        Operator::Add => 1,
        Operator::Subtract => 1,
        Operator::Multiply => 2,
        Operator::Divide => 2,
    }
}

/// An exact rational number `num / den`.  A well-formed value keeps
/// `den >= 1`, so the sign lives in the numerator alone.  These stand in for
/// the scanned decimal literals and for every intermediate result of
/// evaluation; arithmetic on them is exact, and a result whose numerator or
/// denominator leaves the 64-bit range is reported as an overflow instead of
/// being rounded.
#[derive(Debug, Clone, Copy, PartialEq)]
pub struct Rational {
    pub num: i64,
    pub den: i64,
}

impl Rational {
    /// Well-formedness: the denominator is positive.
    pub open spec fn wf(self) -> bool {
        self.den >= 1
    }

    /// The rational with value `n`.
    pub fn from_int(n: i64) -> (r: Rational)
        ensures
            r == (Rational { num: n, den: 1i64 }),
            r.wf(),
    {
        Rational { num: n, den: 1 }
    }

    /// The rational `num / den`; the denominator must be positive.
    pub fn new(num: i64, den: i64) -> (r: Rational)
        requires
            den >= 1,
        ensures
            r == (Rational { num, den }),
            r.wf(),
    {
        Rational { num, den }
    }
}

/// A scanned token: a numeric literal, an operator, or a bracket.
#[derive(Debug, Clone, Copy, PartialEq)]
pub enum Token {
    Number(Rational),
    Op(Operator),
    Bracket(char),
}

/// Everything that can go wrong when evaluating an expression.
#[derive(Debug, Clone, Copy, PartialEq)]
pub enum Error {
    /// An unrecognized character, or a malformed numeric literal; carries the
    /// character that triggered the failure.
    BadToken(char),
    /// Unbalanced brackets: an unmatched close, or opens still pending at the
    /// end of the input.
    MismatchedParens,
    /// A division whose right operand is exactly zero.
    DivisionByZero,
    /// The token stream does not reduce to exactly one value: empty input,
    /// too few operands for an operator, leftover values, or a bracket token
    /// reaching the evaluator.
    InvalidExpression,
    /// A numerator or denominator left the 64-bit range.
    Overflow,
}

/// A token is well-formed when any number it carries is.
pub open spec fn wf_token(t: Token) -> bool {
    match t {
        Token::Number(v) => v.wf(),
        _ => true,
    }
}

/// Every token of the sequence is well-formed.
pub open spec fn wf_tokens(ts: Seq<Token>) -> bool {
    forall|k: int| 0 <= k < ts.len() ==> wf_token(#[trigger] ts[k])
}

/// Every rational of the sequence is well-formed.
pub open spec fn wf_rationals(vs: Seq<Rational>) -> bool {
    forall|k: int| 0 <= k < vs.len() ==> (#[trigger] vs[k]).wf()
}

/// Does `x` fit in an `i64`?
pub open spec fn in_i64(x: int) -> bool {
    i64::MIN <= x <= i64::MAX
}

/// The rational `n / d` if both parts fit in 64 bits, otherwise an overflow.
pub open spec fn rat_checked(n: int, d: int) -> Result<Rational, Error> {
    if in_i64(n) && in_i64(d) {
        Ok(Rational { num: n as i64, den: d as i64 })
    } else {
        Err(Error::Overflow)
    }
}

/// What applying an operator to two rationals yields: the exact result of
/// the usual cross-multiplication formulas, an overflow where a part of it
/// leaves the 64-bit range, and a division-by-zero error where the right
/// operand of `/` is zero.  Division keeps the denominator positive by
/// moving the divisor's sign into the numerator.
pub open spec fn spec_apply(op: Operator, a: Rational, b: Rational) -> Result<Rational, Error> {
    match op {
        Operator::Add => rat_checked(a.num * b.den + b.num * a.den, a.den * b.den),
        Operator::Subtract => rat_checked(a.num * b.den - b.num * a.den, a.den * b.den),
        Operator::Multiply => rat_checked(a.num * b.num, a.den * b.den),
        Operator::Divide => {
            if b.num == 0 {
                Err(Error::DivisionByZero)
            } else if a.den * b.num < 0 {
                rat_checked(-(a.num * b.den), -(a.den * b.num))
            } else {
                rat_checked(a.num * b.den, a.den * b.num)
            }
        },
    }
}

/// A product of values bounded in magnitude is bounded by the product of the
/// bounds.
proof fn lemma_mul_bound(x: int, y: int, bx: int, by: int)
    requires
        0 <= bx,
        0 <= by,
        -bx <= x <= bx,
        -by <= y <= by,
    ensures
        -(bx * by) <= x * y <= bx * by,
{
    assert(-(bx * by) <= x * y <= bx * by) by (nonlinear_arith)
        requires
            0 <= bx,
            0 <= by,
            -bx <= x <= bx,
            -by <= y <= by,
    ;
}

/// A product of two values at least one is at least one.
proof fn lemma_mul_pos(x: int, y: int)
    requires
        x >= 1,
        y >= 1,
    ensures
        x * y >= 1,
{
    assert(x * y >= 1) by (nonlinear_arith)
        requires
            x >= 1,
            y >= 1,
    ;
}

/// A positive value times a nonzero value is nonzero, with the sign of the
/// second factor.
proof fn lemma_mul_sign(x: int, y: int)
    requires
        x >= 1,
    ensures
        y > 0 ==> x * y >= 1,
        y < 0 ==> x * y <= -1,
{
    assert((y > 0 ==> x * y >= 1) && (y < 0 ==> x * y <= -1)) by (nonlinear_arith)
        requires
            x >= 1,
    ;
}

/// Range-check an exactly computed numerator and denominator and build the
/// rational, or report an overflow.
fn rat_from_parts(n: i128, d: i128) -> (r: Result<Rational, Error>)
    ensures
        r == rat_checked(n as int, d as int),
{
    if i64::MIN as i128 <= n && n <= i64::MAX as i128 && i64::MIN as i128 <= d && d
        <= i64::MAX as i128 {
        Ok(Rational { num: n as i64, den: d as i64 })
    } else {
        Err(Error::Overflow)
    }
}

impl Operator {
    /// The precedence class: `+` and `-` are 1, `*` and `/` are 2.
    pub fn precedence(&self) -> (p: u8)
        ensures
            p as int == spec_precedence(*self),
    {
        match self {
            Operator::Add => 1,
            Operator::Subtract => 1,
            Operator::Multiply => 2,
            Operator::Divide => 2,
        }
    }

    /// Apply the operator to two well-formed rationals.  The result is the
    /// exact rational given by [`spec_apply`]: a division-by-zero or
    /// overflow failure exactly where that specification says so, and a
    /// well-formed value otherwise.
    pub fn apply(&self, left: Rational, right: Rational) -> (r: Result<Rational, Error>)
        requires
            left.wf(),
            right.wf(),
        ensures
            r == spec_apply(*self, left, right),
            r matches Ok(v) ==> v.wf(),
    {
        proof {
            lemma_mul_bound(left.num as int, right.den as int, 0x8000_0000_0000_0000,
                0x7fff_ffff_ffff_ffff);
            lemma_mul_bound(right.num as int, left.den as int, 0x8000_0000_0000_0000,
                0x7fff_ffff_ffff_ffff);
            lemma_mul_bound(left.num as int, right.num as int, 0x8000_0000_0000_0000,
                0x8000_0000_0000_0000);
            lemma_mul_bound(left.den as int, right.den as int, 0x8000_0000_0000_0000,
                0x8000_0000_0000_0000);
            lemma_mul_bound(left.den as int, right.num as int, 0x8000_0000_0000_0000,
                0x8000_0000_0000_0000);
            lemma_mul_pos(left.den as int, right.den as int);
            lemma_mul_sign(left.den as int, right.num as int);
        }
        match self {
            Operator::Add => {
                let n: i128 = (left.num as i128) * (right.den as i128) + (right.num as i128) * (
                left.den as i128);
                let d: i128 = (left.den as i128) * (right.den as i128);
                rat_from_parts(n, d)
            },
            Operator::Subtract => {
                let n: i128 = (left.num as i128) * (right.den as i128) - (right.num as i128) * (
                left.den as i128);
                let d: i128 = (left.den as i128) * (right.den as i128);
                rat_from_parts(n, d)
            },
            Operator::Multiply => {
                let n: i128 = (left.num as i128) * (right.num as i128);
                let d: i128 = (left.den as i128) * (right.den as i128);
                rat_from_parts(n, d)
            },
            Operator::Divide => {
                if right.num == 0 {
                    Err(Error::DivisionByZero)
                } else {
                    let n: i128 = (left.num as i128) * (right.den as i128);
                    let d: i128 = (left.den as i128) * (right.num as i128);
                    if d < 0 {
                        rat_from_parts(-n, -d)
                    } else {
                        rat_from_parts(n, d)
                    }
                }
            },
        }
    }
}

} // verus!
