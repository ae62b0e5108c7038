//! An arithmetic expression evaluator: text in, exact numeric result or a
//! precise error out.
//!
//! The pipeline has three stages, each a pure function with its own
//! specification:
//!  1. a tokenizer that scans text into a sequence of tokens,
//!  2. an infix-to-postfix converter (shunting-yard),
//!  3. a postfix evaluator driven by an operand stack.
//!
//! Numbers are exact rationals over 64-bit integers; a result that cannot be
//! represented is reported as [`Error::Overflow`] rather than silently
//! rounded.

use vstd::prelude::*;

pub mod eval;
pub mod laws;
pub mod postfix;
pub mod token;
pub mod tokenizer;

pub use crate::token::{Error, Operator, Rational, Token};

verus! {

/// The expression evaluator; its associated functions form the public
/// pipeline: [`Calculator::parse`], [`Calculator::to_postfix`],
/// [`Calculator::evaluate`] and the composition [`Calculator::calculate`].
pub struct Calculator {}

/// What `Calculator::calculate` returns: the three stages composed, the
/// earliest failing stage deciding the error.
pub open spec fn spec_calculate(s: Seq<char>) -> Result<Rational, Error> {
    match crate::tokenizer::spec_parse(s) {
        Ok(toks) => crate::eval::spec_evaluate(crate::postfix::spec_to_postfix(toks)),
        Err(e) => Err(e),
    }
}

impl Calculator {
    /// Evaluate an expression: tokenize, convert to postfix, evaluate,
    /// short-circuiting on the first failure.
    pub fn calculate(expr: &str) -> (res: Result<Rational, Error>)
        ensures
            res == spec_calculate(expr@),
            res matches Ok(v) ==> v.wf(),
    {
        let tokens = match Self::parse(expr) {
            Ok(t) => t,
            Err(e) => {
                return Err(e);
            },
        };
        let postfix = Self::to_postfix(tokens);
        Self::evaluate(postfix)
    }
}

} // verus!
