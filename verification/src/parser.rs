//! Recursive-descent parsing of the token stream into an expression tree.
//!
//! The grammar, with the usual precedence and left associativity:
//!
//! ```text
//! expression := term (('+' | '-') term)*
//! term       := factor (('*' | '/') factor)*
//! factor     := '-' factor | primary
//! primary    := NUMBER | '(' expression ')'
//! ```
//!
//! The `spec_parse_*` functions are the mathematical description of the
//! descent: each takes the token sequence and a start position and returns
//! the parsed tree together with the position of the first token after it,
//! or the first error met.  The executable functions are proved to return
//! exactly those values, and to consume at least one token on success.

use vstd::prelude::*;

use crate::ast::{BinOp, Expr};
use crate::error::{EvalError, Expected};
use crate::token::{advance_to, tokens_wf, Token, TokenKind};

verus! {

/// A primary expression: a numeric literal or a parenthesized expression.
/// Running out of tokens is `UnexpectedEndOfInput`; any other token here,
/// or a missing `)`, is `UnexpectedToken`.
pub open spec fn spec_parse_primary(toks: Seq<Token>, pos: int) -> Result<(Expr, int), EvalError>
    decreases toks.len() - pos, 0int,
{
    let len = toks.len() as int;
    if pos < 0 || pos >= len {
        Err(EvalError::UnexpectedEndOfInput)
    } else {
        match toks[pos].kind {
            TokenKind::Number(q) => Ok((Expr::Literal(q), pos + 1)),
            TokenKind::LParen => match spec_parse_expr(toks, pos + 1) {
                Err(e) => Err(e),
                Ok(ep) => {
                    let p = ep.1;
                    if 0 <= p < len && toks[p].kind is RParen {
                        Ok((ep.0, p + 1))
                    } else if 0 <= p < len && !(toks[p].kind is End) {
                        Err(EvalError::UnexpectedToken(
                            toks[p].pos,
                            toks[p].kind,
                            Expected::CloseParen,
                        ))
                    } else {
                        Err(EvalError::UnexpectedEndOfInput)
                    }
                },
            },
            TokenKind::End => Err(EvalError::UnexpectedEndOfInput),
            k => Err(EvalError::UnexpectedToken(toks[pos].pos, k, Expected::Primary)),
        }
    }
}

/// A factor: any number of unary minus signs in front of a primary.
pub open spec fn spec_parse_factor(toks: Seq<Token>, pos: int) -> Result<(Expr, int), EvalError>
    decreases toks.len() - pos, 1int,
{
    let len = toks.len() as int;
    if pos < 0 || pos >= len {
        Err(EvalError::UnexpectedEndOfInput)
    } else if toks[pos].kind is Minus {
        match spec_parse_factor(toks, pos + 1) {
            Err(e) => Err(e),
            Ok(ep) => Ok((Expr::Neg(Box::new(ep.0)), ep.1)),
        }
    } else {
        spec_parse_primary(toks, pos)
    }
}

/// The left-associative continuation of a term: as long as `*` or `/`
/// follows, parse another factor and fold it into `lhs`.
pub open spec fn spec_parse_term_rest(toks: Seq<Token>, lhs: Expr, pos: int) -> Result<
    (Expr, int),
    EvalError,
>
    decreases toks.len() - pos, 2int,
{
    let len = toks.len() as int;
    if pos < 0 || pos >= len {
        Ok((lhs, pos))
    } else {
        let k = toks[pos].kind;
        if k is Star || k is Slash {
            match spec_parse_factor(toks, pos + 1) {
                Err(e) => Err(e),
                Ok(ep) => {
                    let op = if k is Star {
                        BinOp::Mul
                    } else {
                        BinOp::Div
                    };
                    spec_parse_term_rest(
                        toks,
                        Expr::Bin(op, Box::new(lhs), Box::new(ep.0)),
                        advance_to(pos, ep.1, len),
                    )
                },
            }
        } else {
            Ok((lhs, pos))
        }
    }
}

/// A term: a factor followed by any number of `*` or `/` factors.
pub open spec fn spec_parse_term(toks: Seq<Token>, pos: int) -> Result<(Expr, int), EvalError>
    decreases toks.len() - pos, 3int,
{
    let len = toks.len() as int;
    if pos < 0 || pos >= len {
        Err(EvalError::UnexpectedEndOfInput)
    } else {
        match spec_parse_factor(toks, pos) {
            Err(e) => Err(e),
            Ok(ep) => spec_parse_term_rest(toks, ep.0, advance_to(pos, ep.1, len)),
        }
    }
}

/// The left-associative continuation of an expression: as long as `+` or
/// `-` follows, parse another term and fold it into `lhs`.
pub open spec fn spec_parse_expr_rest(toks: Seq<Token>, lhs: Expr, pos: int) -> Result<
    (Expr, int),
    EvalError,
>
    decreases toks.len() - pos, 4int,
{
    let len = toks.len() as int;
    if pos < 0 || pos >= len {
        Ok((lhs, pos))
    } else {
        let k = toks[pos].kind;
        if k is Plus || k is Minus {
            match spec_parse_term(toks, pos + 1) {
                Err(e) => Err(e),
                Ok(ep) => {
                    let op = if k is Plus {
                        BinOp::Add
                    } else {
                        BinOp::Sub
                    };
                    spec_parse_expr_rest(
                        toks,
                        Expr::Bin(op, Box::new(lhs), Box::new(ep.0)),
                        advance_to(pos, ep.1, len),
                    )
                },
            }
        } else {
            Ok((lhs, pos))
        }
    }
}

/// An expression: a term followed by any number of `+` or `-` terms.
pub open spec fn spec_parse_expr(toks: Seq<Token>, pos: int) -> Result<(Expr, int), EvalError>
    decreases toks.len() - pos, 5int,
{
    let len = toks.len() as int;
    if pos < 0 || pos >= len {
        Err(EvalError::UnexpectedEndOfInput)
    } else {
        match spec_parse_term(toks, pos) {
            Err(e) => Err(e),
            Ok(ep) => spec_parse_expr_rest(toks, ep.0, advance_to(pos, ep.1, len)),
        }
    }
}

/// Unfolding: a term continuation stops where no `*` or `/` follows.
proof fn lemma_term_rest_stop(toks: Seq<Token>, lhs: Expr, pos: int)
    requires
        0 <= pos,
        pos >= toks.len() || !(toks[pos].kind is Star || toks[pos].kind is Slash),
    ensures
        spec_parse_term_rest(toks, lhs, pos) == Ok::<(Expr, int), EvalError>((lhs, pos)),
{
}

/// Unfolding: one step of a term continuation at a `*` or `/`.
proof fn lemma_term_rest_step(toks: Seq<Token>, lhs: Expr, pos: int)
    requires
        0 <= pos < toks.len(),
        toks[pos].kind is Star || toks[pos].kind is Slash,
    ensures
        (spec_parse_factor(toks, pos + 1) matches Err(e) ==> spec_parse_term_rest(toks, lhs, pos)
            == Err::<(Expr, int), EvalError>(e)),
        (spec_parse_factor(toks, pos + 1) matches Ok(ep) ==> spec_parse_term_rest(toks, lhs, pos)
            == spec_parse_term_rest(
            toks,
            Expr::Bin(
                if toks[pos].kind is Star {
                    BinOp::Mul
                } else {
                    BinOp::Div
                },
                Box::new(lhs),
                Box::new(ep.0),
            ),
            advance_to(pos, ep.1, toks.len() as int),
        )),
{
}

/// Unfolding: an expression continuation stops where no `+` or `-` follows.
proof fn lemma_expr_rest_stop(toks: Seq<Token>, lhs: Expr, pos: int)
    requires
        0 <= pos,
        pos >= toks.len() || !(toks[pos].kind is Plus || toks[pos].kind is Minus),
    ensures
        spec_parse_expr_rest(toks, lhs, pos) == Ok::<(Expr, int), EvalError>((lhs, pos)),
{
}

/// Unfolding: one step of an expression continuation at a `+` or `-`.
proof fn lemma_expr_rest_step(toks: Seq<Token>, lhs: Expr, pos: int)
    requires
        0 <= pos < toks.len(),
        toks[pos].kind is Plus || toks[pos].kind is Minus,
    ensures
        (spec_parse_term(toks, pos + 1) matches Err(e) ==> spec_parse_expr_rest(toks, lhs, pos)
            == Err::<(Expr, int), EvalError>(e)),
        (spec_parse_term(toks, pos + 1) matches Ok(ep) ==> spec_parse_expr_rest(toks, lhs, pos)
            == spec_parse_expr_rest(
            toks,
            Expr::Bin(
                if toks[pos].kind is Plus {
                    BinOp::Add
                } else {
                    BinOp::Sub
                },
                Box::new(lhs),
                Box::new(ep.0),
            ),
            advance_to(pos, ep.1, toks.len() as int),
        )),
{
}

/// Parses a primary expression; returns exactly
/// [`spec_parse_primary`]`(toks@, pos)`.
pub fn parse_primary(toks: &Vec<Token>, pos: usize) -> (r: Result<(Expr, usize), EvalError>)
    requires
        pos <= toks@.len(),
        tokens_wf(toks@),
    ensures
        (r matches Ok(ep) ==> spec_parse_primary(toks@, pos as int) == Ok::<
            (Expr, int),
            EvalError,
        >((ep.0, ep.1 as int)) && pos < ep.1 <= toks@.len() && ep.0.wf()),
        (r matches Err(e) ==> spec_parse_primary(toks@, pos as int) == Err::<
            (Expr, int),
            EvalError,
        >(e)),
    decreases toks@.len() - pos, 0int,
{
    if pos >= toks.len() {
        return Err(EvalError::UnexpectedEndOfInput);
    }
    let t = toks[pos];
    match t.kind {
        TokenKind::Number(q) => Ok((Expr::Literal(q), pos + 1)),
        TokenKind::LParen => match parse_expr(toks, pos + 1) {
            Err(e) => Err(e),
            Ok((e, p)) => {
                if p < toks.len() {
                    let t2 = toks[p];
                    match t2.kind {
                        TokenKind::RParen => Ok((e, p + 1)),
                        TokenKind::End => Err(EvalError::UnexpectedEndOfInput),
                        k => Err(EvalError::UnexpectedToken(t2.pos, k, Expected::CloseParen)),
                    }
                } else {
                    Err(EvalError::UnexpectedEndOfInput)
                }
            },
        },
        TokenKind::End => Err(EvalError::UnexpectedEndOfInput),
        k => Err(EvalError::UnexpectedToken(t.pos, k, Expected::Primary)),
    }
}

/// Parses a factor; returns exactly [`spec_parse_factor`]`(toks@, pos)`.
pub fn parse_factor(toks: &Vec<Token>, pos: usize) -> (r: Result<(Expr, usize), EvalError>)
    requires
        pos <= toks@.len(),
        tokens_wf(toks@),
    ensures
        (r matches Ok(ep) ==> spec_parse_factor(toks@, pos as int) == Ok::<
            (Expr, int),
            EvalError,
        >((ep.0, ep.1 as int)) && pos < ep.1 <= toks@.len() && ep.0.wf()),
        (r matches Err(e) ==> spec_parse_factor(toks@, pos as int) == Err::<
            (Expr, int),
            EvalError,
        >(e)),
    decreases toks@.len() - pos, 1int,
{
    if pos >= toks.len() {
        return Err(EvalError::UnexpectedEndOfInput);
    }
    let t = toks[pos];
    if matches!(t.kind, TokenKind::Minus) {
        match parse_factor(toks, pos + 1) {
            Err(e) => Err(e),
            Ok((e, p)) => Ok((Expr::Neg(Box::new(e)), p)),
        }
    } else {
        parse_primary(toks, pos)
    }
}

/// Parses a term; returns exactly [`spec_parse_term`]`(toks@, pos)`.
pub fn parse_term(toks: &Vec<Token>, pos: usize) -> (r: Result<(Expr, usize), EvalError>)
    requires
        pos <= toks@.len(),
        tokens_wf(toks@),
    ensures
        (r matches Ok(ep) ==> spec_parse_term(toks@, pos as int) == Ok::<(Expr, int), EvalError>(
            (ep.0, ep.1 as int),
        ) && pos < ep.1 <= toks@.len() && ep.0.wf()),
        (r matches Err(e) ==> spec_parse_term(toks@, pos as int) == Err::<(Expr, int), EvalError>(
            e,
        )),
    decreases toks@.len() - pos, 3int,
{
    if pos >= toks.len() {
        return Err(EvalError::UnexpectedEndOfInput);
    }
    let mut acc: Expr;
    let mut cur: usize;
    match parse_factor(toks, pos) {
        Err(e) => {
            return Err(e);
        },
        Ok((e, p)) => {
            acc = e;
            cur = p;
        },
    }
    proof {
        assert(advance_to(pos as int, cur as int, toks@.len() as int) == cur as int);
    }
    loop
        invariant
            tokens_wf(toks@),
            pos < cur <= toks@.len(),
            acc.wf(),
            spec_parse_term(toks@, pos as int) == spec_parse_term_rest(toks@, acc, cur as int),
        decreases toks@.len() - cur,
    {
        if cur >= toks.len() {
            proof {
                lemma_term_rest_stop(toks@, acc, cur as int);
            }
            return Ok((acc, cur));
        }
        let t = toks[cur];
        let is_star = matches!(t.kind, TokenKind::Star);
        let is_slash = matches!(t.kind, TokenKind::Slash);
        if !is_star && !is_slash {
            proof {
                lemma_term_rest_stop(toks@, acc, cur as int);
            }
            return Ok((acc, cur));
        }
        proof {
            lemma_term_rest_step(toks@, acc, cur as int);
        }
        match parse_factor(toks, cur + 1) {
            Err(e) => {
                return Err(e);
            },
            Ok((e, p)) => {
                let op = if is_star {
                    BinOp::Mul
                } else {
                    BinOp::Div
                };
                proof {
                    assert(advance_to(cur as int, p as int, toks@.len() as int) == p as int);
                }
                acc = Expr::Bin(op, Box::new(acc), Box::new(e));
                cur = p;
            },
        }
    }
}

/// Parses an expression; returns exactly [`spec_parse_expr`]`(toks@, pos)`.
pub fn parse_expr(toks: &Vec<Token>, pos: usize) -> (r: Result<(Expr, usize), EvalError>)
    requires
        pos <= toks@.len(),
        tokens_wf(toks@),
    ensures
        (r matches Ok(ep) ==> spec_parse_expr(toks@, pos as int) == Ok::<(Expr, int), EvalError>(
            (ep.0, ep.1 as int),
        ) && pos < ep.1 <= toks@.len() && ep.0.wf()),
        (r matches Err(e) ==> spec_parse_expr(toks@, pos as int) == Err::<(Expr, int), EvalError>(
            e,
        )),
    decreases toks@.len() - pos, 5int,
{
    if pos >= toks.len() {
        return Err(EvalError::UnexpectedEndOfInput);
    }
    let mut acc: Expr;
    let mut cur: usize;
    match parse_term(toks, pos) {
        Err(e) => {
            return Err(e);
        },
        Ok((e, p)) => {
            acc = e;
            cur = p;
        },
    }
    proof {
        assert(advance_to(pos as int, cur as int, toks@.len() as int) == cur as int);
    }
    loop
        invariant
            tokens_wf(toks@),
            pos < cur <= toks@.len(),
            acc.wf(),
            spec_parse_expr(toks@, pos as int) == spec_parse_expr_rest(toks@, acc, cur as int),
        decreases toks@.len() - cur,
    {
        if cur >= toks.len() {
            proof {
                lemma_expr_rest_stop(toks@, acc, cur as int);
            }
            return Ok((acc, cur));
        }
        let t = toks[cur];
        let is_plus = matches!(t.kind, TokenKind::Plus);
        let is_minus = matches!(t.kind, TokenKind::Minus);
        if !is_plus && !is_minus {
            proof {
                lemma_expr_rest_stop(toks@, acc, cur as int);
            }
            return Ok((acc, cur));
        }
        proof {
            lemma_expr_rest_step(toks@, acc, cur as int);
        }
        match parse_term(toks, cur + 1) {
            Err(e) => {
                return Err(e);
            },
            Ok((e, p)) => {
                let op = if is_plus {
                    BinOp::Add
                } else {
                    BinOp::Sub
                };
                proof {
                    assert(advance_to(cur as int, p as int, toks@.len() as int) == p as int);
                }
                acc = Expr::Bin(op, Box::new(acc), Box::new(e));
                cur = p;
            },
        }
    }
}

/// Parses one whole expression from the front of the token sequence and
/// returns it with the position of the first token it did not consume; the
/// caller decides whether anything other than the `End` sentinel may stand
/// there.
pub fn parse(toks: &Vec<Token>) -> (r: Result<(Expr, usize), EvalError>)
    requires
        tokens_wf(toks@),
    ensures
        (r matches Ok(ep) ==> spec_parse_expr(toks@, 0) == Ok::<(Expr, int), EvalError>(
            (ep.0, ep.1 as int),
        ) && ep.1 <= toks@.len() && ep.0.wf()),
        (r matches Err(e) ==> spec_parse_expr(toks@, 0) == Err::<(Expr, int), EvalError>(e)),
{
    parse_expr(toks, 0)
}

} // verus!
