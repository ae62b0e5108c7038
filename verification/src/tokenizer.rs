//! The tokenizer: scans raw text left to right into a sequence of tokens,
//! skipping whitespace, scanning maximal digit-and-dot runs as decimal
//! literals, and tracking bracket balance.

use vstd::prelude::*;
use vstd::string::StrSliceExecFns;

use crate::token::{wf_tokens, Error, Operator, Rational, Token};
use crate::Calculator;

verus! {

/// Whitespace that the scanner skips: space, tab, newline.
pub open spec fn is_space(c: char) -> bool {
    c == ' ' || c == '\t' || c == '\n'
}

/// An ASCII decimal digit.
pub open spec fn is_digit(c: char) -> bool {
    48 <= c as u32 && c as u32 <= 57
}

/// The numeric value of an ASCII digit.
pub open spec fn digit_val(c: char) -> int {
    c as u32 - 48
}

/// A character that may stand inside a numeric literal: a digit or a dot.
pub open spec fn is_num_char(c: char) -> bool {
    is_digit(c) || c == '.'
}

/// The end of the maximal run of number characters starting at `i`: the
/// first position at or after `i` holding no digit and no dot.
pub open spec fn run_end(s: Seq<char>, i: int) -> int
    decreases s.len() - i,
{
    if 0 <= i < s.len() && is_num_char(s[i]) {
        run_end(s, i + 1)
    } else {
        i
    }
}

/// How many digits a run holds.
pub open spec fn digits_in(r: Seq<char>) -> int
    decreases r.len(),
{
    if r.len() == 0 {
        0
    } else {
        digits_in(r.drop_last()) + if is_digit(r.last()) {
            1int
        } else {
            0int
        }
    }
}

/// How many dots a run holds.
pub open spec fn dots_in(r: Seq<char>) -> int
    decreases r.len(),
{
    if r.len() == 0 {
        0
    } else {
        dots_in(r.drop_last()) + if r.last() == '.' {
            1int
        } else {
            0int
        }
    }
}

/// The integer formed by all digits of a run, dots ignored: the mantissa of
/// the decimal literal.
pub open spec fn mant_of(r: Seq<char>) -> int
    decreases r.len(),
{
    if r.len() == 0 {
        0
    } else if is_digit(r.last()) {
        10 * mant_of(r.drop_last()) + digit_val(r.last())
    } else {
        mant_of(r.drop_last())
    }
}

/// The denominator of the decimal literal: ten to the number of digits
/// after the dot (one, when there is no dot).
pub open spec fn den_of(r: Seq<char>) -> int
    decreases r.len(),
{
    if r.len() == 0 {
        1
    } else if r.last() == '.' {
        1
    } else if is_digit(r.last()) && dots_in(r.drop_last()) > 0 {
        10 * den_of(r.drop_last())
    } else {
        den_of(r.drop_last())
    }
}

/// A run is a valid decimal literal when it holds at least one digit and at
/// most one dot.
pub open spec fn valid_run(r: Seq<char>) -> bool {
    digits_in(r) >= 1 && dots_in(r) <= 1
}

/// Both parts of the literal's exact value fit in 64 bits.
pub open spec fn number_fits(r: Seq<char>) -> bool {
    mant_of(r) <= i64::MAX && den_of(r) <= i64::MAX
}

/// The number token a valid, fitting run scans to.
pub open spec fn run_token(r: Seq<char>) -> Token {
    Token::Number(Rational { num: mant_of(r) as i64, den: den_of(r) as i64 })
}

/// Counts are bounded by the run's length, the mantissa is non-negative and
/// the denominator positive.
proof fn lemma_run_measures(r: Seq<char>)
    ensures
        0 <= digits_in(r) <= r.len(),
        0 <= dots_in(r) <= r.len(),
        0 <= mant_of(r),
        1 <= den_of(r),
    decreases r.len(),
{
    if r.len() > 0 {
        lemma_run_measures(r.drop_last());
    }
}

/// The run's end lies between its start and the end of the text.
pub proof fn lemma_run_end_bounds(s: Seq<char>, i: int)
    requires
        0 <= i <= s.len(),
    ensures
        i <= run_end(s, i) <= s.len(),
    decreases s.len() - i,
{
    if i < s.len() && is_num_char(s[i]) {
        lemma_run_end_bounds(s, i + 1);
    }
}

/// The scanner from position `i`, with `depth` unclosed opening brackets and
/// the tokens produced so far:
///  - whitespace is skipped;
///  - brackets are emitted while the balance is tracked, an unmatched close
///    failing at once and pending opens failing at the end of the input;
///  - the four operator characters are emitted as operator tokens;
///  - a digit or dot starts a maximal run of digits and dots, which must
///    form a valid decimal literal (`BadToken` carrying the run's first
///    character otherwise) whose exact value fits in 64 bits (`Overflow`
///    otherwise);
///  - any other character fails with `BadToken`.
pub open spec fn scan_from(s: Seq<char>, i: int, depth: int, acc: Seq<Token>) -> Result<
    Seq<Token>,
    Error,
>
    decreases s.len() - i,
{
    if i < 0 || i >= s.len() {
        if depth > 0 {
            Err(Error::MismatchedParens)
        } else {
            Ok(acc)
        }
    } else if is_space(s[i]) {
        scan_from(s, i + 1, depth, acc)
    } else if s[i] == '(' {
        scan_from(s, i + 1, depth + 1, acc.push(Token::Bracket('(')))
    } else if s[i] == ')' {
        if depth <= 0 {
            Err(Error::MismatchedParens)
        } else {
            scan_from(s, i + 1, depth - 1, acc.push(Token::Bracket(')')))
        }
    } else if s[i] == '+' {
        scan_from(s, i + 1, depth, acc.push(Token::Op(Operator::Add)))
    } else if s[i] == '-' {
        scan_from(s, i + 1, depth, acc.push(Token::Op(Operator::Subtract)))
    } else if s[i] == '*' {
        scan_from(s, i + 1, depth, acc.push(Token::Op(Operator::Multiply)))
    } else if s[i] == '/' {
        scan_from(s, i + 1, depth, acc.push(Token::Op(Operator::Divide)))
    } else if is_num_char(s[i]) {
        let r = s.subrange(i, run_end(s, i));
        if !valid_run(r) {
            Err(Error::BadToken(s[i]))
        } else if !number_fits(r) {
            Err(Error::Overflow)
        } else {
            proof {
                lemma_run_end_bounds(s, i + 1);
            }
            scan_from(s, run_end(s, i), depth, acc.push(run_token(r)))
        }
    } else {
        Err(Error::BadToken(s[i]))
    }
}

/// What scanning a whole text yields.
pub open spec fn spec_parse(s: Seq<char>) -> Result<Seq<Token>, Error> {
    scan_from(s, 0, 0, Seq::empty())
}

/// Is the character at position `j` a digit or a dot?
fn num_char_at(chars: &Vec<char>, j: usize) -> (b: bool)
    requires
        j < chars@.len(),
    ensures
        b == is_num_char(chars@[j as int]),
{
    let c = chars[j];
    let u: u32 = c as u32;
    (48 <= u && u <= 57) || c == '.'
}

impl Calculator {
    /// Scan `expr` into its token sequence, exactly as [`spec_parse`]
    /// describes; every number token produced is well-formed.
    pub fn parse(expr: &str) -> (res: Result<Vec<Token>, Error>)
        ensures
            res matches Ok(toks) ==> spec_parse(expr@) == Ok::<Seq<Token>, Error>(toks@)
                && wf_tokens(toks@),
            res matches Err(e) ==> spec_parse(expr@) == Err::<Seq<Token>, Error>(e),
    {
        let ghost s: Seq<char> = expr@;
        let n: usize = expr.unicode_len();
        let mut chars: Vec<char> = Vec::new();
        let mut k: usize = 0;
        proof {
            assert(chars@ =~= s.subrange(0, 0));
        }
        while k < n
            invariant
                s == expr@,
                n == s.len(),
                k <= n,
                chars@ == s.subrange(0, k as int),
            decreases n - k,
        {
            let ghost ch0 = chars@;
            chars.push(expr.get_char(k));
            k += 1;
            proof {
                assert(chars@ == ch0.push(s[k - 1]));
                assert(chars@ =~= s.subrange(0, k as int));
            }
        }
        proof {
            assert(chars@ =~= s);
        }

        let mut tokens: Vec<Token> = Vec::new();
        let mut depth: usize = 0;
        let mut i: usize = 0;
        proof {
            assert(tokens@ =~= Seq::<Token>::empty());
        }

        while i < n
            invariant
                s == expr@,
                n == s.len(),
                chars@ == s,
                i <= n,
                depth <= i,
                wf_tokens(tokens@),
                spec_parse(s) == scan_from(s, i as int, depth as int, tokens@),
            decreases n - i,
        {
            let ghost i_in: int = i as int;
            let ghost d_in: int = depth as int;
            let ghost tk_in = tokens@;
            let c = chars[i];
            proof {
                assert(c == s[i as int]);
            }
            if c == ' ' || c == '\t' || c == '\n' {
                i += 1;
                proof {
                    assert(scan_from(s, i_in, d_in, tk_in) == scan_from(
                        s,
                        i as int,
                        depth as int,
                        tokens@,
                    ));
                }
            } else if c == '(' {
                tokens.push(Token::Bracket('('));
                depth += 1;
                i += 1;
                proof {
                    assert(scan_from(s, i_in, d_in, tk_in) == scan_from(
                        s,
                        i as int,
                        depth as int,
                        tokens@,
                    ));
                }
            } else if c == ')' {
                if depth == 0 {
                    proof {
                        assert(scan_from(s, i_in, d_in, tk_in) == Err::<Seq<Token>, Error>(
                            Error::MismatchedParens,
                        ));
                    }
                    return Err(Error::MismatchedParens);
                }
                tokens.push(Token::Bracket(')'));
                depth -= 1;
                i += 1;
                proof {
                    assert(scan_from(s, i_in, d_in, tk_in) == scan_from(
                        s,
                        i as int,
                        depth as int,
                        tokens@,
                    ));
                }
            } else if c == '+' {
                tokens.push(Token::Op(Operator::Add));
                i += 1;
                proof {
                    assert(scan_from(s, i_in, d_in, tk_in) == scan_from(
                        s,
                        i as int,
                        depth as int,
                        tokens@,
                    ));
                }
            } else if c == '-' {
                tokens.push(Token::Op(Operator::Subtract));
                i += 1;
                proof {
                    assert(scan_from(s, i_in, d_in, tk_in) == scan_from(
                        s,
                        i as int,
                        depth as int,
                        tokens@,
                    ));
                }
            } else if c == '*' {
                tokens.push(Token::Op(Operator::Multiply));
                i += 1;
                proof {
                    assert(scan_from(s, i_in, d_in, tk_in) == scan_from(
                        s,
                        i as int,
                        depth as int,
                        tokens@,
                    ));
                }
            } else if c == '/' {
                tokens.push(Token::Op(Operator::Divide));
                i += 1;
                proof {
                    assert(scan_from(s, i_in, d_in, tk_in) == scan_from(
                        s,
                        i as int,
                        depth as int,
                        tokens@,
                    ));
                }
            } else if num_char_at(&chars, i) {
                let start: usize = i;
                let mut j: usize = i;
                let mut mant: u128 = 0;
                let mut den: u128 = 1;
                let mut ndigits: usize = 0;
                let mut ndots: usize = 0;

                while j < n && num_char_at(&chars, j)
                    invariant
                        n == s.len(),
                        chars@ == s,
                        start <= j <= n,
                        start < n,
                        is_num_char(s[start as int]),
                        ndigits as int == digits_in(s.subrange(start as int, j as int)),
                        ndots as int == dots_in(s.subrange(start as int, j as int)),
                        mant_of(s.subrange(start as int, j as int)) > i64::MAX <==> mant
                            > i64::MAX as u128,
                        mant_of(s.subrange(start as int, j as int)) <= i64::MAX ==> mant as int
                            == mant_of(s.subrange(start as int, j as int)),
                        den_of(s.subrange(start as int, j as int)) > i64::MAX <==> den
                            > i64::MAX as u128,
                        den_of(s.subrange(start as int, j as int)) <= i64::MAX ==> den as int
                            == den_of(s.subrange(start as int, j as int)),
                        run_end(s, start as int) == run_end(s, j as int),
                    decreases n - j,
                {
                    let ghost r = s.subrange(start as int, j as int);
                    proof {
                        lemma_run_measures(r);
                    }
                    let cj = chars[j];
                    let u: u32 = cj as u32;
                    if cj == '.' {
                        ndots += 1;
                        den = 1;
                    } else {
                        let d: u128 = (u - 48) as u128;
                        ndigits += 1;
                        if mant <= i64::MAX as u128 {
                            mant = mant * 10 + d;
                        }
                        if ndots > 0 && den <= i64::MAX as u128 {
                            den = den * 10;
                        }
                    }
                    j += 1;
                    proof {
                        let r2 = s.subrange(start as int, j as int);
                        assert(r2 =~= r.push(s[j - 1]));
                        assert(r2.drop_last() =~= r);
                        lemma_run_measures(r2);
                    }
                }

                proof {
                    assert(run_end(s, j as int) == j as int);
                    assert(s.subrange(start as int, j as int) =~= s.subrange(
                        start as int,
                        run_end(s, start as int),
                    ));
                    lemma_run_measures(s.subrange(start as int, j as int));
                }

                let ghost r = s.subrange(i_in, run_end(s, i_in));
                proof {
                    assert(r =~= s.subrange(start as int, j as int));
                }

                if ndigits == 0 || ndots >= 2 {
                    proof {
                        assert(!valid_run(r));
                        assert(scan_from(s, i_in, d_in, tk_in) == Err::<Seq<Token>, Error>(
                            Error::BadToken(s[i_in]),
                        ));
                    }
                    return Err(Error::BadToken(c));
                }
                if mant > i64::MAX as u128 || den > i64::MAX as u128 {
                    proof {
                        assert(valid_run(r));
                        assert(!number_fits(r));
                        assert(scan_from(s, i_in, d_in, tk_in) == Err::<Seq<Token>, Error>(
                            Error::Overflow,
                        ));
                    }
                    return Err(Error::Overflow);
                }
                let v = Rational { num: mant as i64, den: den as i64 };
                tokens.push(Token::Number(v));
                i = j;
                proof {
                    assert(v.num as int == mant_of(r));
                    assert(v.den as int == den_of(r));
                    assert(Token::Number(v) == run_token(r));
                    assert(v.wf());
                    assert(scan_from(s, i_in, d_in, tk_in) == scan_from(
                        s,
                        i as int,
                        depth as int,
                        tokens@,
                    ));
                }
            } else {
                proof {
                    assert(scan_from(s, i_in, d_in, tk_in) == Err::<Seq<Token>, Error>(
                        Error::BadToken(s[i_in]),
                    ));
                }
                return Err(Error::BadToken(c));
            }
        }

        proof {
            assert(scan_from(s, i as int, depth as int, tokens@) == if depth > 0 {
                Err::<Seq<Token>, Error>(Error::MismatchedParens)
            } else {
                Ok::<Seq<Token>, Error>(tokens@)
            });
        }
        if depth > 0 {
            return Err(Error::MismatchedParens);
        }
        Ok(tokens)
    }
}

} // verus!
