//! Statements that tie the pipeline's stages together: the converter keeps
//! the operands intact, and evaluating the postfix form of small expression
//! shapes agrees with the standard infix reading.

use vstd::prelude::*;

use crate::eval::{eval_from, spec_evaluate};
use crate::postfix::{drain_stack, pop_ge, pop_to_lparen, shunt, spec_to_postfix};
use crate::token::{spec_apply, spec_precedence, Error, Operator, Rational, Token};

verus! {

/// Is the token a numeric literal?
pub open spec fn is_number_token(t: Token) -> bool {
    t matches Token::Number(_)
}

/// The subsequence of numeric literals of a token sequence, in order.
pub open spec fn numbers_of(ts: Seq<Token>) -> Seq<Token> {
    ts.filter(|t: Token| is_number_token(t))
}

proof fn lemma_numbers_empty()
    ensures
        numbers_of(Seq::<Token>::empty()) == Seq::<Token>::empty(),
{
    reveal_with_fuel(Seq::<_>::filter, 2);
}

proof fn lemma_numbers_push(ts: Seq<Token>, t: Token)
    ensures
        numbers_of(ts.push(t)) == if is_number_token(t) {
            numbers_of(ts).push(t)
        } else {
            numbers_of(ts)
        },
{
    reveal_with_fuel(Seq::<_>::filter, 2);
    assert(ts.push(t).drop_last() =~= ts);
    assert(ts.push(t).last() == t);
}

/// Popping stronger-or-equal operators moves no numbers: it only ever
/// moves operator tokens, and it leaves a number-free stack number-free.
proof fn lemma_pop_ge_numbers(stack: Seq<Token>, out: Seq<Token>, p: int)
    requires
        numbers_of(stack) == Seq::<Token>::empty(),
    ensures
        numbers_of(pop_ge(stack, out, p).0) == Seq::<Token>::empty(),
        numbers_of(pop_ge(stack, out, p).1) == numbers_of(out),
    decreases stack.len(),
{
    if stack.len() > 0 && (stack.last() matches Token::Op(top) && spec_precedence(top) >= p) {
        reveal_with_fuel(Seq::<_>::filter, 2);
        assert(numbers_of(stack.drop_last()) == numbers_of(stack));
        lemma_numbers_push(out, stack.last());
        lemma_pop_ge_numbers(stack.drop_last(), out.push(stack.last()), p);
    }
}

/// Popping down to an opening bracket moves no numbers off a number-free
/// stack.
proof fn lemma_pop_to_lparen_numbers(stack: Seq<Token>, out: Seq<Token>)
    requires
        numbers_of(stack) == Seq::<Token>::empty(),
    ensures
        numbers_of(pop_to_lparen(stack, out).0) == Seq::<Token>::empty(),
        numbers_of(pop_to_lparen(stack, out).1) == numbers_of(out),
    decreases stack.len(),
{
    reveal_with_fuel(Seq::<_>::filter, 2);
    if stack.len() == 0 {
    } else if stack.last() == Token::Bracket('(') {
        assert(numbers_of(stack.drop_last()) == numbers_of(stack));
    } else {
        assert(numbers_of(stack) == if is_number_token(stack.last()) {
            numbers_of(stack.drop_last()).push(stack.last())
        } else {
            numbers_of(stack.drop_last())
        });
        assert(!is_number_token(stack.last()));
        assert(numbers_of(stack.drop_last()) == numbers_of(stack));
        lemma_numbers_push(out, stack.last());
        lemma_pop_to_lparen_numbers(stack.drop_last(), out.push(stack.last()));
    }
}

/// Draining a number-free stack at the end of the input adds no numbers to
/// the queue.
proof fn lemma_drain_numbers(stack: Seq<Token>, out: Seq<Token>)
    requires
        numbers_of(stack) == Seq::<Token>::empty(),
    ensures
        numbers_of(drain_stack(stack, out)) == numbers_of(out),
    decreases stack.len(),
{
    if stack.len() > 0 {
        reveal_with_fuel(Seq::<_>::filter, 2);
        assert(numbers_of(stack) == if is_number_token(stack.last()) {
            numbers_of(stack.drop_last()).push(stack.last())
        } else {
            numbers_of(stack.drop_last())
        });
        assert(!is_number_token(stack.last()));
        assert(numbers_of(stack.drop_last()) == numbers_of(stack));
        lemma_numbers_push(out, stack.last());
        lemma_drain_numbers(stack.drop_last(), out.push(stack.last()));
    }
}

/// The conversion pass keeps exactly the numbers of the output queue plus
/// those still to be read, in order, as long as its stack holds none.
proof fn lemma_shunt_numbers(toks: Seq<Token>, i: int, stack: Seq<Token>, out: Seq<Token>)
    requires
        0 <= i <= toks.len(),
        numbers_of(stack) == Seq::<Token>::empty(),
    ensures
        numbers_of(shunt(toks, i, stack, out)) == numbers_of(out) + numbers_of(
            toks.subrange(i, toks.len() as int),
        ),
    decreases toks.len() - i,
{
    if i >= toks.len() {
        lemma_drain_numbers(stack, out);
        assert(toks.subrange(i, toks.len() as int) =~= Seq::<Token>::empty());
        lemma_numbers_empty();
        assert(numbers_of(out) + Seq::<Token>::empty() =~= numbers_of(out));
    } else {
        let t = toks[i];
        let rest = toks.subrange(i, toks.len() as int);
        let rest2 = toks.subrange(i + 1, toks.len() as int);
        assert(rest.drop_first() =~= rest2);
        assert(rest =~= seq![t] + rest2);
        // peel the first token off the remaining numbers
        lemma_numbers_distributes(seq![t], rest2);
        assert(seq![t].drop_last() =~= Seq::<Token>::empty());
        lemma_numbers_empty();
        reveal_with_fuel(Seq::<_>::filter, 2);
        assert(numbers_of(seq![t]) == if is_number_token(t) {
            Seq::<Token>::empty().push(t)
        } else {
            Seq::<Token>::empty()
        });
        match t {
            Token::Number(_) => {
                lemma_numbers_push(out, t);
                lemma_shunt_numbers(toks, i + 1, stack, out.push(t));
                assert(numbers_of(out).push(t) + numbers_of(rest2) =~= numbers_of(out) + (
                Seq::<Token>::empty().push(t) + numbers_of(rest2)));
            },
            Token::Op(op) => {
                lemma_pop_ge_numbers(stack, out, spec_precedence(op));
                let s2 = pop_ge(stack, out, spec_precedence(op)).0;
                let o2 = pop_ge(stack, out, spec_precedence(op)).1;
                lemma_numbers_push(s2, t);
                lemma_shunt_numbers(toks, i + 1, s2.push(t), o2);
                assert(numbers_of(out) + numbers_of(rest2) =~= numbers_of(out) + (
                Seq::<Token>::empty() + numbers_of(rest2)));
            },
            Token::Bracket(b) => {
                if b == '(' {
                    lemma_numbers_push(stack, t);
                    lemma_shunt_numbers(toks, i + 1, stack.push(t), out);
                } else if b == ')' {
                    lemma_pop_to_lparen_numbers(stack, out);
                    let s2 = pop_to_lparen(stack, out).0;
                    let o2 = pop_to_lparen(stack, out).1;
                    lemma_shunt_numbers(toks, i + 1, s2, o2);
                } else {
                    lemma_shunt_numbers(toks, i + 1, stack, out);
                }
                assert(numbers_of(out) + numbers_of(rest2) =~= numbers_of(out) + (
                Seq::<Token>::empty() + numbers_of(rest2)));
            },
        }
    }
}

/// Filtering for numbers distributes over concatenation.
proof fn lemma_numbers_distributes(a: Seq<Token>, b: Seq<Token>)
    ensures
        numbers_of(a + b) == numbers_of(a) + numbers_of(b),
    decreases b.len(),
{
    reveal_with_fuel(Seq::<_>::filter, 2);
    if b.len() == 0 {
        assert(a + b =~= a);
        lemma_numbers_empty();
        assert(b =~= Seq::<Token>::empty());
        assert(numbers_of(a) + numbers_of(b) =~= numbers_of(a));
    } else {
        assert((a + b).drop_last() =~= a + b.drop_last());
        assert((a + b).last() == b.last());
        lemma_numbers_distributes(a, b.drop_last());
        if is_number_token(b.last()) {
            assert(numbers_of(a + b) == (numbers_of(a) + numbers_of(b.drop_last())).push(
                b.last(),
            ));
            assert((numbers_of(a) + numbers_of(b.drop_last())).push(b.last()) =~= numbers_of(a) + (
            numbers_of(b.drop_last()).push(b.last())));
        }
    }
}

/// The converter neither loses, duplicates nor reorders operands: the
/// numeric literals of the postfix form are exactly those of the infix
/// input, in the same left-to-right order.
pub proof fn lemma_converter_keeps_numbers(ts: Seq<Token>)
    ensures
        numbers_of(spec_to_postfix(ts)) == numbers_of(ts),
{
    lemma_numbers_empty();
    lemma_shunt_numbers(ts, 0, Seq::empty(), Seq::empty());
    assert(ts.subrange(0, ts.len() as int) =~= ts);
    assert(Seq::<Token>::empty() + numbers_of(ts) =~= numbers_of(ts));
}

/// A lone number survives the round trip: converting `[a]` to postfix and
/// evaluating it yields `a` itself.
pub proof fn lemma_round_trip_number(a: Rational)
    ensures
        spec_evaluate(spec_to_postfix(seq![Token::Number(a)])) == Ok::<Rational, Error>(a),
{
    let ts = seq![Token::Number(a)];
    let e: Seq<Token> = Seq::empty();
    let es: Seq<Rational> = Seq::empty();
    assert(ts.len() == 1 && ts[0] == Token::Number(a));
    assert(shunt(ts, 0, e, e) == shunt(ts, 1, e, e.push(ts[0])));
    assert(shunt(ts, 1, e, e.push(ts[0])) == drain_stack(e, e.push(ts[0])));
    assert(drain_stack(e, e.push(ts[0])) == e.push(ts[0]));
    let post = e.push(ts[0]);
    assert(spec_to_postfix(ts) == post);
    assert(eval_from(post, 0, es) == eval_from(post, 1, es.push(a)));
    assert(eval_from(post, 1, es.push(a)) == Ok::<Rational, Error>(a));
}

/// Dividing by a rational whose value is zero fails with `DivisionByZero`,
/// whatever the left operand is.
pub proof fn lemma_division_by_zero(a: Rational, b: Rational)
    requires
        b.num == 0,
    ensures
        spec_apply(Operator::Divide, a, b) == Err::<Rational, Error>(Error::DivisionByZero),
{
}

/// Empty input does not reduce to a value: an empty text tokenizes to no
/// tokens at all, and evaluating their (empty) postfix form fails with
/// `InvalidExpression`.
pub proof fn lemma_empty_input()
    ensures
        crate::spec_calculate(Seq::<char>::empty()) == Err::<Rational, Error>(
            Error::InvalidExpression,
        ),
{
    let e: Seq<Token> = Seq::empty();
    assert(crate::tokenizer::spec_parse(Seq::<char>::empty()) == Ok::<Seq<Token>, Error>(e));
    assert(spec_to_postfix(e) == drain_stack(e, e));
    assert(drain_stack(e, e) == e);
    assert(spec_evaluate(e) == Err::<Rational, Error>(Error::InvalidExpression));
}

/// One binary operation survives the round trip: converting `a op b` to
/// postfix and evaluating it applies the operator to `a` and `b`, with the
/// left operand on the left — including any division-by-zero or overflow
/// failure of the application itself.
pub proof fn lemma_round_trip_single_operation(a: Rational, op: Operator, b: Rational)
    ensures
        spec_evaluate(
            spec_to_postfix(seq![Token::Number(a), Token::Op(op), Token::Number(b)]),
        ) == spec_apply(op, a, b),
{
    let ts = seq![Token::Number(a), Token::Op(op), Token::Number(b)];
    let e: Seq<Token> = Seq::empty();
    let es: Seq<Rational> = Seq::empty();
    assert(ts.len() == 3 && ts[0] == Token::Number(a) && ts[1] == Token::Op(op) && ts[2]
        == Token::Number(b));
    let o1 = e.push(ts[0]);
    let s1 = e.push(ts[1]);
    let o2 = o1.push(ts[2]);
    assert(shunt(ts, 0, e, e) == shunt(ts, 1, e, o1));
    assert(pop_ge(e, o1, spec_precedence(op)) == (e, o1));
    assert(shunt(ts, 1, e, o1) == shunt(ts, 2, s1, o1));
    assert(shunt(ts, 2, s1, o1) == shunt(ts, 3, s1, o2));
    assert(shunt(ts, 3, s1, o2) == drain_stack(s1, o2));
    assert(s1.drop_last() =~= e);
    assert(s1.last() == ts[1]);
    let post = o2.push(ts[1]);
    assert(drain_stack(s1, o2) == drain_stack(e, post));
    assert(drain_stack(e, post) == post);
    assert(spec_to_postfix(ts) == post);

    assert(post.len() == 3 && post[0] == Token::Number(a) && post[1] == Token::Number(b)
        && post[2] == Token::Op(op));
    let st1 = es.push(a);
    let st2 = st1.push(b);
    assert(eval_from(post, 0, es) == eval_from(post, 1, st1));
    assert(eval_from(post, 1, st1) == eval_from(post, 2, st2));
    assert(st2[st2.len() - 2] == a && st2.last() == b);
    match spec_apply(op, a, b) {
        Ok(v) => {
            assert(st2.drop_last().drop_last().push(v) =~= es.push(v));
            assert(eval_from(post, 2, st2) == eval_from(post, 3, es.push(v)));
            assert(eval_from(post, 3, es.push(v)) == Ok::<Rational, Error>(v));
        },
        Err(err) => {
            assert(eval_from(post, 2, st2) == Err::<Rational, Error>(err));
        },
    }
}

/// Left-to-right grouping: in `a op1 b op2 c`, whenever the first operator
/// binds at least as tightly as the second (in particular whenever the two
/// have equal precedence), the first is applied first — `a - b - c` is
/// `(a - b) - c`.
pub proof fn lemma_left_associative(
    a: Rational,
    op1: Operator,
    b: Rational,
    op2: Operator,
    c: Rational,
)
    requires
        spec_precedence(op1) >= spec_precedence(op2),
    ensures
        spec_evaluate(
            spec_to_postfix(
                seq![
                    Token::Number(a),
                    Token::Op(op1),
                    Token::Number(b),
                    Token::Op(op2),
                    Token::Number(c),
                ],
            ),
        ) == (match spec_apply(op1, a, b) {
            Ok(v1) => spec_apply(op2, v1, c),
            Err(err) => Err(err),
        }),
{
    let ts = seq![
        Token::Number(a),
        Token::Op(op1),
        Token::Number(b),
        Token::Op(op2),
        Token::Number(c),
    ];
    let e: Seq<Token> = Seq::empty();
    let es: Seq<Rational> = Seq::empty();
    assert(ts.len() == 5 && ts[0] == Token::Number(a) && ts[1] == Token::Op(op1) && ts[2]
        == Token::Number(b) && ts[3] == Token::Op(op2) && ts[4] == Token::Number(c));
    let o1 = e.push(ts[0]);
    let s1 = e.push(ts[1]);
    let o2 = o1.push(ts[2]);
    assert(shunt(ts, 0, e, e) == shunt(ts, 1, e, o1));
    assert(pop_ge(e, o1, spec_precedence(op1)) == (e, o1));
    assert(shunt(ts, 1, e, o1) == shunt(ts, 2, s1, o1));
    assert(shunt(ts, 2, s1, o1) == shunt(ts, 3, s1, o2));
    // op2 pops op1 from the stack, then takes its place
    assert(s1.last() == ts[1] && s1.drop_last() =~= e);
    let o3 = o2.push(ts[1]);
    assert(pop_ge(s1, o2, spec_precedence(op2)) == pop_ge(e, o3, spec_precedence(op2)));
    assert(pop_ge(e, o3, spec_precedence(op2)) == (e, o3));
    let s2 = e.push(ts[3]);
    assert(shunt(ts, 3, s1, o2) == shunt(ts, 4, s2, o3));
    let o4 = o3.push(ts[4]);
    assert(shunt(ts, 4, s2, o3) == shunt(ts, 5, s2, o4));
    assert(s2.last() == ts[3] && s2.drop_last() =~= e);
    let post = o4.push(ts[3]);
    assert(shunt(ts, 5, s2, o4) == drain_stack(s2, o4));
    assert(drain_stack(s2, o4) == drain_stack(e, post));
    assert(drain_stack(e, post) == post);
    assert(spec_to_postfix(ts) == post);

    // post is [a, b, op1, c, op2]
    assert(post.len() == 5 && post[0] == Token::Number(a) && post[1] == Token::Number(b)
        && post[2] == Token::Op(op1) && post[3] == Token::Number(c) && post[4] == Token::Op(
        op2,
    ));
    let st1 = es.push(a);
    let st2 = st1.push(b);
    assert(eval_from(post, 0, es) == eval_from(post, 1, st1));
    assert(eval_from(post, 1, st1) == eval_from(post, 2, st2));
    assert(st2[st2.len() - 2] == a && st2.last() == b);
    match spec_apply(op1, a, b) {
        Ok(v1) => {
            let st3 = st2.drop_last().drop_last().push(v1);
            assert(st3 =~= es.push(v1));
            let st4 = es.push(v1).push(c);
            assert(eval_from(post, 2, st2) == eval_from(post, 3, es.push(v1)));
            assert(eval_from(post, 3, es.push(v1)) == eval_from(post, 4, st4));
            assert(st4[st4.len() - 2] == v1 && st4.last() == c);
            match spec_apply(op2, v1, c) {
                Ok(v2) => {
                    assert(st4.drop_last().drop_last().push(v2) =~= es.push(v2));
                    assert(eval_from(post, 4, st4) == eval_from(post, 5, es.push(v2)));
                    assert(eval_from(post, 5, es.push(v2)) == Ok::<Rational, Error>(v2));
                },
                Err(err) => {
                    assert(eval_from(post, 4, st4) == Err::<Rational, Error>(err));
                },
            }
        },
        Err(err) => {
            assert(eval_from(post, 2, st2) == Err::<Rational, Error>(err));
        },
    }
}

/// Standard precedence: in `a op1 b op2 c`, when the second operator binds
/// tighter than the first, it is applied first — `2 + 3 * 4` is
/// `2 + (3 * 4)`.
pub proof fn lemma_precedence(a: Rational, op1: Operator, b: Rational, op2: Operator, c: Rational)
    requires
        spec_precedence(op2) > spec_precedence(op1),
    ensures
        spec_evaluate(
            spec_to_postfix(
                seq![
                    Token::Number(a),
                    Token::Op(op1),
                    Token::Number(b),
                    Token::Op(op2),
                    Token::Number(c),
                ],
            ),
        ) == (match spec_apply(op2, b, c) {
            Ok(v2) => spec_apply(op1, a, v2),
            Err(err) => Err(err),
        }),
{
    let ts = seq![
        Token::Number(a),
        Token::Op(op1),
        Token::Number(b),
        Token::Op(op2),
        Token::Number(c),
    ];
    let e: Seq<Token> = Seq::empty();
    let es: Seq<Rational> = Seq::empty();
    assert(ts.len() == 5 && ts[0] == Token::Number(a) && ts[1] == Token::Op(op1) && ts[2]
        == Token::Number(b) && ts[3] == Token::Op(op2) && ts[4] == Token::Number(c));
    let o1 = e.push(ts[0]);
    let s1 = e.push(ts[1]);
    let o2 = o1.push(ts[2]);
    assert(shunt(ts, 0, e, e) == shunt(ts, 1, e, o1));
    assert(pop_ge(e, o1, spec_precedence(op1)) == (e, o1));
    assert(shunt(ts, 1, e, o1) == shunt(ts, 2, s1, o1));
    assert(shunt(ts, 2, s1, o1) == shunt(ts, 3, s1, o2));
    // op2 binds tighter, so op1 stays put and op2 is stacked above it
    assert(s1.last() == ts[1]);
    assert(pop_ge(s1, o2, spec_precedence(op2)) == (s1, o2));
    let s2 = s1.push(ts[3]);
    assert(shunt(ts, 3, s1, o2) == shunt(ts, 4, s2, o2));
    let o3 = o2.push(ts[4]);
    assert(shunt(ts, 4, s2, o2) == shunt(ts, 5, s2, o3));
    assert(s2.last() == ts[3] && s2.drop_last() =~= s1);
    let o4 = o3.push(ts[3]);
    assert(shunt(ts, 5, s2, o3) == drain_stack(s2, o3));
    assert(drain_stack(s2, o3) == drain_stack(s1, o4));
    assert(s1.drop_last() =~= e);
    let post = o4.push(ts[1]);
    assert(drain_stack(s1, o4) == drain_stack(e, post));
    assert(drain_stack(e, post) == post);
    assert(spec_to_postfix(ts) == post);

    // post is [a, b, c, op2, op1]
    assert(post.len() == 5 && post[0] == Token::Number(a) && post[1] == Token::Number(b)
        && post[2] == Token::Number(c) && post[3] == Token::Op(op2) && post[4] == Token::Op(
        op1,
    ));
    let st1 = es.push(a);
    let st2 = st1.push(b);
    let st3 = st2.push(c);
    assert(eval_from(post, 0, es) == eval_from(post, 1, st1));
    assert(eval_from(post, 1, st1) == eval_from(post, 2, st2));
    assert(eval_from(post, 2, st2) == eval_from(post, 3, st3));
    assert(st3[st3.len() - 2] == b && st3.last() == c);
    match spec_apply(op2, b, c) {
        Ok(v2) => {
            let st4 = st3.drop_last().drop_last().push(v2);
            assert(st4 =~= st1.push(v2));
            assert(eval_from(post, 3, st3) == eval_from(post, 4, st1.push(v2)));
            let st5 = st1.push(v2);
            assert(st5[st5.len() - 2] == a && st5.last() == v2);
            match spec_apply(op1, a, v2) {
                Ok(v1) => {
                    assert(st5.drop_last().drop_last().push(v1) =~= es.push(v1));
                    assert(eval_from(post, 4, st5) == eval_from(post, 5, es.push(v1)));
                    assert(eval_from(post, 5, es.push(v1)) == Ok::<Rational, Error>(v1));
                },
                Err(err) => {
                    assert(eval_from(post, 4, st5) == Err::<Rational, Error>(err));
                },
            }
        },
        Err(err) => {
            assert(eval_from(post, 3, st3) == Err::<Rational, Error>(err));
        },
    }
}

/// Brackets around a single operation change nothing: `(a op b)` converts
/// and evaluates exactly as `a op b` does.
pub proof fn lemma_brackets_single_operation(a: Rational, op: Operator, b: Rational)
    ensures
        spec_evaluate(
            spec_to_postfix(
                seq![
                    Token::Bracket('('),
                    Token::Number(a),
                    Token::Op(op),
                    Token::Number(b),
                    Token::Bracket(')'),
                ],
            ),
        ) == spec_apply(op, a, b),
{
    let ts = seq![
        Token::Bracket('('),
        Token::Number(a),
        Token::Op(op),
        Token::Number(b),
        Token::Bracket(')'),
    ];
    let e: Seq<Token> = Seq::empty();
    let es: Seq<Rational> = Seq::empty();
    assert(ts.len() == 5 && ts[0] == Token::Bracket('(') && ts[1] == Token::Number(a) && ts[2]
        == Token::Op(op) && ts[3] == Token::Number(b) && ts[4] == Token::Bracket(')'));
    let s1 = e.push(ts[0]);
    let o1 = e.push(ts[1]);
    assert(shunt(ts, 0, e, e) == shunt(ts, 1, s1, e));
    assert(shunt(ts, 1, s1, e) == shunt(ts, 2, s1, o1));
    // the opening bracket shields the stack below, so nothing pops
    assert(s1.last() == ts[0]);
    assert(pop_ge(s1, o1, spec_precedence(op)) == (s1, o1));
    let s2 = s1.push(ts[2]);
    assert(shunt(ts, 2, s1, o1) == shunt(ts, 3, s2, o1));
    let o2 = o1.push(ts[3]);
    assert(shunt(ts, 3, s2, o1) == shunt(ts, 4, s2, o2));
    // the closing bracket pops the operator, then discards the opening one
    assert(s2.last() == ts[2] && s2.drop_last() =~= s1);
    let post = o2.push(ts[2]);
    assert(pop_to_lparen(s2, o2) == pop_to_lparen(s1, post));
    assert(s1.last() == Token::Bracket('(') && s1.drop_last() =~= e);
    assert(pop_to_lparen(s1, post) == (e, post));
    assert(shunt(ts, 4, s2, o2) == shunt(ts, 5, e, post));
    assert(shunt(ts, 5, e, post) == drain_stack(e, post));
    assert(drain_stack(e, post) == post);
    assert(spec_to_postfix(ts) == post);

    // post is [a, b, op], as for the bare operation
    assert(post.len() == 3 && post[0] == Token::Number(a) && post[1] == Token::Number(b)
        && post[2] == Token::Op(op));
    let st1 = es.push(a);
    let st2 = st1.push(b);
    assert(eval_from(post, 0, es) == eval_from(post, 1, st1));
    assert(eval_from(post, 1, st1) == eval_from(post, 2, st2));
    assert(st2[st2.len() - 2] == a && st2.last() == b);
    match spec_apply(op, a, b) {
        Ok(v) => {
            assert(st2.drop_last().drop_last().push(v) =~= es.push(v));
            assert(eval_from(post, 2, st2) == eval_from(post, 3, es.push(v)));
            assert(eval_from(post, 3, es.push(v)) == Ok::<Rational, Error>(v));
        },
        Err(err) => {
            assert(eval_from(post, 2, st2) == Err::<Rational, Error>(err));
        },
    }
}

} // verus!
