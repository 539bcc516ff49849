//! Stage-by-stage tests: the tokenizer's sequences and positions, the
//! parser's trees, and the evaluator on hand-built trees.

use calc_core::ast::{BinOp, Expr};
use calc_core::error::EvalError;
use calc_core::eval::eval;
use calc_core::parser::parse;
use calc_core::rational::Rational;
use calc_core::token::{tokenize, Token, TokenKind};

fn whole(n: u128) -> Rational {
    Rational { neg: false, num: n, den: 1 }
}

fn lit(n: u128) -> Expr {
    Expr::Literal(whole(n))
}

fn bin(op: BinOp, l: Expr, r: Expr) -> Expr {
    Expr::Bin(op, Box::new(l), Box::new(r))
}

#[test]
fn tokenize_reports_kinds_and_offsets() {
    let toks = tokenize("2+3*4").unwrap();
    let expected = vec![
        Token { kind: TokenKind::Number(whole(2)), pos: 0 },
        Token { kind: TokenKind::Plus, pos: 1 },
        Token { kind: TokenKind::Number(whole(3)), pos: 2 },
        Token { kind: TokenKind::Star, pos: 3 },
        Token { kind: TokenKind::Number(whole(4)), pos: 4 },
        Token { kind: TokenKind::End, pos: 5 },
    ];
    assert_eq!(toks, expected);
}

#[test]
fn tokenize_skips_whitespace_but_keeps_offsets() {
    let toks = tokenize(" ( 12 ) ").unwrap();
    let expected = vec![
        Token { kind: TokenKind::LParen, pos: 1 },
        Token { kind: TokenKind::Number(whole(12)), pos: 3 },
        Token { kind: TokenKind::RParen, pos: 6 },
        Token { kind: TokenKind::End, pos: 8 },
    ];
    assert_eq!(toks, expected);
}

#[test]
fn tokenize_reduces_decimal_literals() {
    let toks = tokenize("3.14").unwrap();
    assert_eq!(
        toks,
        vec![
            Token { kind: TokenKind::Number(Rational { neg: false, num: 157, den: 50 }), pos: 0 },
            Token { kind: TokenKind::End, pos: 4 },
        ]
    );
}

#[test]
fn tokenize_empty_input_is_just_the_sentinel() {
    assert_eq!(tokenize("").unwrap(), vec![Token { kind: TokenKind::End, pos: 0 }]);
}

#[test]
fn tokenize_equivalent_token_sequences_modulo_whitespace() {
    let a: Vec<TokenKind> = tokenize("(2+3)*4").unwrap().into_iter().map(|t| t.kind).collect();
    let b: Vec<TokenKind> = tokenize(" ( 2 + 3 ) * 4 ").unwrap().into_iter().map(|t| t.kind).collect();
    assert_eq!(a, b);
}

#[test]
fn tokenize_rejects_unknown_byte() {
    assert_eq!(tokenize("1 ? 2"), Err(EvalError::UnexpectedCharacter(2, '?')));
}

#[test]
fn parse_builds_precedence_tree() {
    let toks = tokenize("2+3*4").unwrap();
    let (tree, stopped) = parse(&toks).unwrap();
    assert_eq!(tree, bin(BinOp::Add, lit(2), bin(BinOp::Mul, lit(3), lit(4))));
    assert_eq!(stopped, 5);
}

#[test]
fn parse_is_left_associative() {
    let toks = tokenize("10-3-4").unwrap();
    let (tree, _) = parse(&toks).unwrap();
    assert_eq!(tree, bin(BinOp::Sub, bin(BinOp::Sub, lit(10), lit(3)), lit(4)));
}

#[test]
fn parse_unary_minus_binds_tighter_than_product() {
    let toks = tokenize("-2*3").unwrap();
    let (tree, _) = parse(&toks).unwrap();
    assert_eq!(
        tree,
        bin(BinOp::Mul, Expr::Neg(Box::new(lit(2))), lit(3))
    );
}

#[test]
fn parse_stops_before_dangling_tokens() {
    let toks = tokenize("2 3").unwrap();
    let (tree, stopped) = parse(&toks).unwrap();
    assert_eq!(tree, lit(2));
    assert_eq!(stopped, 1);
}

#[test]
fn eval_hand_built_tree() {
    let tree = bin(BinOp::Div, bin(BinOp::Add, lit(7), lit(3)), lit(4));
    assert_eq!(eval(&tree), Ok(Rational { neg: false, num: 5, den: 2 }));
}

#[test]
fn eval_reports_division_by_zero() {
    let tree = bin(BinOp::Div, lit(1), bin(BinOp::Sub, lit(2), lit(2)));
    assert_eq!(eval(&tree), Err(EvalError::DivisionByZero));
}

#[test]
fn eval_left_fault_wins() {
    // Both children fail; the left subtree's fault is reported.
    let zero_div = bin(BinOp::Div, lit(1), lit(0));
    let tree = bin(
        BinOp::Add,
        bin(BinOp::Mul, Expr::Literal(whole(u128::MAX)), lit(2)),
        zero_div,
    );
    assert_eq!(eval(&tree), Err(EvalError::NumericOverflow));
}
