//! Postfix evaluation: a stack machine over exact rationals.

use vstd::prelude::*;

use crate::token::{spec_apply, wf_rationals, wf_token, wf_tokens, Error, Rational, Token};
use crate::Calculator;

verus! {

/// One pass of the stack machine from position `i` with the current operand
/// stack:
///  - a number is pushed;
///  - an operator pops the right then the left operand and pushes the
///    applied result, failing as the application does, or with
///    `InvalidExpression` when fewer than two operands are available;
///  - a bracket token cannot appear in a valid postfix sequence and fails
///    with `InvalidExpression`;
///  - at the end of the input, exactly one remaining operand is the result,
///    anything else is `InvalidExpression` (this covers empty input).
pub open spec fn eval_from(toks: Seq<Token>, i: int, stack: Seq<Rational>) -> Result<
    Rational,
    Error,
>
    decreases toks.len() - i,
{
    if i < 0 || i >= toks.len() {
        if stack.len() == 1 {
            Ok(stack[0])
        } else {
            Err(Error::InvalidExpression)
        }
    } else {
        match toks[i] {
            Token::Number(v) => eval_from(toks, i + 1, stack.push(v)),
            Token::Op(op) => {
                if stack.len() < 2 {
                    Err(Error::InvalidExpression)
                } else {
                    match spec_apply(op, stack[stack.len() - 2], stack.last()) {
                        Ok(v) => eval_from(
                            toks,
                            i + 1,
                            stack.drop_last().drop_last().push(v),
                        ),
                        Err(e) => Err(e),
                    }
                }
            },
            Token::Bracket(_) => Err(Error::InvalidExpression),
        }
    }
}

/// What evaluating a postfix token sequence yields.
pub open spec fn spec_evaluate(toks: Seq<Token>) -> Result<Rational, Error> {
    eval_from(toks, 0, Seq::empty())
}

impl Calculator {
    /// Evaluate a postfix token sequence with an operand stack, exactly as
    /// [`spec_evaluate`] describes.  The tokens must be well-formed (every
    /// number with a positive denominator), which everything this library
    /// produces is.
    pub fn evaluate(tokens: Vec<Token>) -> (res: Result<Rational, Error>)
        requires
            wf_tokens(tokens@),
        ensures
            res == spec_evaluate(tokens@),
            res matches Ok(v) ==> v.wf(),
    {
        let mut stack: Vec<Rational> = Vec::new();
        let n: usize = tokens.len();
        let mut i: usize = 0;

        while i < n
            invariant
                i <= n,
                n == tokens@.len(),
                wf_tokens(tokens@),
                wf_rationals(stack@),
                spec_evaluate(tokens@) == eval_from(tokens@, i as int, stack@),
            decreases n - i,
        {
            let t = tokens[i];
            match t {
                Token::Number(v) => {
                    proof {
                        assert(wf_token(tokens@[i as int]));
                    }
                    stack.push(v);
                },
                Token::Op(op) => {
                    if stack.len() < 2 {
                        return Err(Error::InvalidExpression);
                    }
                    let ghost stack0 = stack@;
                    let right = stack.pop().unwrap();
                    let left = stack.pop().unwrap();
                    proof {
                        assert(left == stack0[stack0.len() - 2]);
                        assert(right == stack0.last());
                        assert(stack@ =~= stack0.drop_last().drop_last());
                    }
                    let applied = op.apply(left, right);
                    match applied {
                        Ok(v) => {
                            stack.push(v);
                        },
                        Err(e) => {
                            return Err(e);
                        },
                    }
                },
                Token::Bracket(_) => {
                    return Err(Error::InvalidExpression);
                },
            }
            i += 1;
        }

        if stack.len() == 1 {
            let v = stack.pop().unwrap();
            Ok(v)
        } else {
            Err(Error::InvalidExpression)
        }
    }
}

} // verus!
