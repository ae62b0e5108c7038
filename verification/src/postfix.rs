//! Infix-to-postfix conversion: the shunting-yard algorithm.
//!
//! The converter has no failure path: it assumes its input already passed
//! the tokenizer's bracket validation, and on malformed input it merely
//! yields a malformed postfix sequence (which the evaluator then rejects),
//! never a panic.

use vstd::prelude::*;

use crate::token::{spec_precedence, wf_tokens, Token};
use crate::Calculator;

verus! {

/// Pop operators whose precedence is at least `p` from the top of the stack
/// onto the output queue; yields the remaining stack and the grown queue.
/// Popping stops at a bracket or at a weaker operator.  Equal precedence
/// pops, which gives left-associative grouping.
pub open spec fn pop_ge(stack: Seq<Token>, out: Seq<Token>, p: int) -> (Seq<Token>, Seq<Token>)
    decreases stack.len(),
{
    if stack.len() > 0 && (stack.last() matches Token::Op(top) && spec_precedence(top) >= p) {
        pop_ge(stack.drop_last(), out.push(stack.last()), p)
    } else {
        (stack, out)
    }
}

/// Pop tokens onto the output queue until an opening bracket appears on top
/// of the stack; that bracket is discarded, not emitted.  If the stack runs
/// out first (malformed input), everything has moved to the queue.
pub open spec fn pop_to_lparen(stack: Seq<Token>, out: Seq<Token>) -> (Seq<Token>, Seq<Token>)
    decreases stack.len(),
{
    if stack.len() == 0 {
        (stack, out)
    } else if stack.last() == Token::Bracket('(') {
        (stack.drop_last(), out)
    } else {
        pop_to_lparen(stack.drop_last(), out.push(stack.last()))
    }
}

/// Pop everything remaining on the stack onto the output queue.
pub open spec fn drain_stack(stack: Seq<Token>, out: Seq<Token>) -> Seq<Token>
    decreases stack.len(),
{
    if stack.len() == 0 {
        out
    } else {
        drain_stack(stack.drop_last(), out.push(stack.last()))
    }
}

/// One left-to-right pass of the shunting-yard algorithm from position `i`,
/// with the current operator stack and output queue:
///  - a number goes straight to the queue;
///  - an operator first pops stronger-or-equal operators, then is pushed;
///  - `(` is pushed; `)` pops down to the matching `(`, which is discarded;
///  - any other bracket is dropped;
///  - at the end of the input the stack is drained onto the queue.
pub open spec fn shunt(toks: Seq<Token>, i: int, stack: Seq<Token>, out: Seq<Token>) -> Seq<Token>
    decreases toks.len() - i,
{
    if i < 0 || i >= toks.len() {
        drain_stack(stack, out)
    } else {
        match toks[i] {
            Token::Number(_) => shunt(toks, i + 1, stack, out.push(toks[i])),
            Token::Op(op) => {
                let (s2, o2) = pop_ge(stack, out, spec_precedence(op));
                shunt(toks, i + 1, s2.push(toks[i]), o2)
            },
            Token::Bracket(b) => {
                if b == '(' {
                    shunt(toks, i + 1, stack.push(toks[i]), out)
                } else if b == ')' {
                    let (s2, o2) = pop_to_lparen(stack, out);
                    shunt(toks, i + 1, s2, o2)
                } else {
                    shunt(toks, i + 1, stack, out)
                }
            },
        }
    }
}

/// The postfix (Reverse Polish) form of a token sequence.
pub open spec fn spec_to_postfix(toks: Seq<Token>) -> Seq<Token> {
    shunt(toks, 0, Seq::empty(), Seq::empty())
}

impl Calculator {
    /// Reorder an infix token sequence into postfix (Reverse Polish) order
    /// using an operator stack, exactly as [`spec_to_postfix`] describes.
    /// Well-formedness of the tokens is preserved.
    pub fn to_postfix(tokens: Vec<Token>) -> (out: Vec<Token>)
        ensures
            out@ == spec_to_postfix(tokens@),
            wf_tokens(tokens@) ==> wf_tokens(out@),
    {
        let mut queue: Vec<Token> = Vec::new();
        let mut stack: Vec<Token> = Vec::new();
        let n: usize = tokens.len();
        let mut i: usize = 0;
        proof {
            assert(stack@ =~= Seq::<Token>::empty());
            assert(queue@ =~= Seq::<Token>::empty());
        }

        while i < n
            invariant
                i <= n,
                n == tokens@.len(),
                spec_to_postfix(tokens@) == shunt(tokens@, i as int, stack@, queue@),
                wf_tokens(tokens@) ==> wf_tokens(stack@) && wf_tokens(queue@),
            decreases n - i,
        {
            let ghost st_in = stack@;
            let ghost qu_in = queue@;
            let t = tokens[i];
            proof {
                assert(t == tokens@[i as int]);
            }
            match t {
                Token::Number(_) => {
                    queue.push(t);
                },
                Token::Op(op) => {
                    let p: u8 = op.precedence();
                    loop
                        invariant
                            pop_ge(st_in, qu_in, p as int) == pop_ge(stack@, queue@, p as int),
                            wf_tokens(tokens@) ==> wf_tokens(stack@) && wf_tokens(queue@),
                        ensures
                            pop_ge(st_in, qu_in, p as int) == (stack@, queue@),
                            wf_tokens(tokens@) ==> wf_tokens(stack@) && wf_tokens(queue@),
                        decreases stack@.len(),
                    {
                        if stack.len() == 0 {
                            break ;
                        }
                        let keep: bool = match &stack[stack.len() - 1] {
                            Token::Op(top) => top.precedence() >= p,
                            _ => false,
                        };
                        proof {
                            assert(stack@[stack@.len() - 1] == stack@.last());
                        }
                        if !keep {
                            break ;
                        }
                        let ghost st_b = stack@;
                        let ghost qu_b = queue@;
                        let popped = stack.pop().unwrap();
                        queue.push(popped);
                        proof {
                            assert(popped == st_b.last());
                            assert(stack@ =~= st_b.drop_last());
                            assert(queue@ == qu_b.push(st_b.last()));
                        }
                    }
                    stack.push(t);
                },
                Token::Bracket(b) => {
                    if b == '(' {
                        stack.push(t);
                    } else if b == ')' {
                        loop
                            invariant
                                pop_to_lparen(st_in, qu_in) == pop_to_lparen(stack@, queue@),
                                wf_tokens(tokens@) ==> wf_tokens(stack@) && wf_tokens(queue@),
                            ensures
                                pop_to_lparen(st_in, qu_in) == pop_to_lparen(stack@, queue@),
                                stack@.len() == 0 || stack@.last() == Token::Bracket('('),
                                wf_tokens(tokens@) ==> wf_tokens(stack@) && wf_tokens(queue@),
                            decreases stack@.len(),
                        {
                            if stack.len() == 0 {
                                break ;
                            }
                            let at_lparen: bool = match &stack[stack.len() - 1] {
                                Token::Bracket(c) => *c == '(',
                                _ => false,
                            };
                            proof {
                                assert(stack@[stack@.len() - 1] == stack@.last());
                            }
                            if at_lparen {
                                break ;
                            }
                            let ghost st_b = stack@;
                            let ghost qu_b = queue@;
                            let popped = stack.pop().unwrap();
                            queue.push(popped);
                            proof {
                                assert(popped == st_b.last());
                                assert(stack@ =~= st_b.drop_last());
                                assert(queue@ == qu_b.push(st_b.last()));
                            }
                        }
                        if stack.len() > 0 {
                            let ghost st_b = stack@;
                            let _ = stack.pop();
                            proof {
                                assert(stack@ =~= st_b.drop_last());
                            }
                        }
                        proof {
                            assert(pop_to_lparen(st_in, qu_in) == (stack@, queue@));
                        }
                    }
                    // any other bracket is dropped, matching the specification
                },
            }
            i += 1;
            proof {
                assert(shunt(tokens@, i - 1, st_in, qu_in) == shunt(
                    tokens@,
                    i as int,
                    stack@,
                    queue@,
                ));
            }
        }

        let ghost stack1 = stack@;
        let ghost queue1 = queue@;
        proof {
            assert(shunt(tokens@, n as int, stack1, queue1) == drain_stack(stack1, queue1));
        }
        while stack.len() > 0
            invariant
                drain_stack(stack1, queue1) == drain_stack(stack@, queue@),
                wf_tokens(tokens@) ==> wf_tokens(stack@) && wf_tokens(queue@),
            decreases stack@.len(),
        {
            let ghost st_b = stack@;
            let ghost qu_b = queue@;
            let popped = stack.pop().unwrap();
            queue.push(popped);
            proof {
                assert(popped == st_b.last());
                assert(stack@ =~= st_b.drop_last());
                assert(queue@ == qu_b.push(st_b.last()));
            }
        }

        queue
    }
}

} // verus!
