//! A safe arithmetic expression evaluator.
//!
//! User-typed text is turned into a numeric value through a closed pipeline:
//! a tokenizer, a recursive-descent parser honouring the usual precedence
//! rules, and an evaluator over exact rational numbers.  Malformed input,
//! division by zero and out-of-range results are reported as typed errors;
//! no input is ever executed as code and no verified function here panics.

use vstd::prelude::*;

pub mod ast;
pub mod error;
pub mod eval;
pub mod parser;
pub mod rational;
pub mod render;
pub mod token;

use crate::error::{EvalError, Expected};
use crate::eval::{eval, spec_eval};
use crate::parser::{parse, spec_parse_expr};
use crate::rational::Rational;
use crate::token::{spec_tokenize, tokenize, TokenKind};

verus! {

/// The result of [`evaluate`] as a mathematical function of the input text:
/// tokenize, parse one whole expression, demand that only the `End` sentinel
/// follows it, and evaluate the tree.
pub open spec fn spec_evaluate(s: Seq<char>) -> Result<Rational, EvalError> {
    match spec_tokenize(s) {
        Err(e) => Err(e),
        Ok(toks) => match spec_parse_expr(toks, 0) {
            Err(e) => Err(e),
            Ok(ep) => {
                let p = ep.1;
                if 0 <= p < toks.len() && toks[p].kind is End {
                    spec_eval(ep.0)
                } else if 0 <= p < toks.len() {
                    Err(EvalError::UnexpectedToken(toks[p].pos, toks[p].kind, Expected::End))
                } else {
                    Err(EvalError::UnexpectedEndOfInput)
                }
            },
        },
    }
}

/// Evaluates an arithmetic expression over digits, `.`, `+`, `-`, `*`, `/`,
/// parentheses and whitespace to an exact rational in lowest terms, or
/// reports the first fault as a typed error; the result is exactly
/// [`spec_evaluate`]`(input@)` — a function of the text alone.
pub fn evaluate(input: &str) -> (r: Result<Rational, EvalError>)
    ensures
        r == spec_evaluate(input@),
        (r matches Ok(v) ==> v.wf()),
{
    let toks = match tokenize(input) {
        Err(e) => {
            return Err(e);
        },
        Ok(v) => v,
    };
    let (tree, p) = match parse(&toks) {
        Err(e) => {
            return Err(e);
        },
        Ok(v) => v,
    };
    if p < toks.len() {
        let t = toks[p];
        match t.kind {
            TokenKind::End => eval(&tree),
            k => Err(EvalError::UnexpectedToken(t.pos, k, Expected::End)),
        }
    } else {
        Err(EvalError::UnexpectedEndOfInput)
    }
}

/// Evaluation is pure: the result of [`evaluate`] is a function of the input
/// text alone, so two evaluations of the same string are identical.
pub proof fn lemma_evaluate_deterministic(
    s: Seq<char>,
    r1: Result<Rational, EvalError>,
    r2: Result<Rational, EvalError>,
)
    requires
        r1 == spec_evaluate(s),
        r2 == spec_evaluate(s),
    ensures
        r1 == r2,
{
}

} // verus!
