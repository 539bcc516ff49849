//! Round-trip tests: re-tokenizing the canonical string form of a parsed
//! tree yields its canonical token sequence, and the canonical form keeps
//! the tree's value.

use calc_core::ast::Expr;
use calc_core::error::EvalError;
use calc_core::eval::eval;
use calc_core::evaluate;
use calc_core::parser::parse;
use calc_core::rational::Rational;
use calc_core::render::render;
use calc_core::token::{tokenize, TokenKind};

fn whole(n: u128) -> Rational {
    Rational { neg: false, num: n, den: 1 }
}

fn parse_str(s: &str) -> Expr {
    let toks = tokenize(s).unwrap();
    parse(&toks).unwrap().0
}

fn render_str(e: &Expr) -> String {
    render(e).into_iter().collect()
}

fn kinds(s: &str) -> Vec<TokenKind> {
    tokenize(s).unwrap().into_iter().map(|t| t.kind).collect()
}

#[test]
fn canonical_form_of_precedence_tree() {
    let tree = parse_str("2+3*4");
    let text = render_str(&tree);
    assert_eq!(text, "( 2 + ( 3 * 4 ) ) ");
    assert_eq!(
        kinds(&text),
        vec![
            TokenKind::LParen,
            TokenKind::Number(whole(2)),
            TokenKind::Plus,
            TokenKind::LParen,
            TokenKind::Number(whole(3)),
            TokenKind::Star,
            TokenKind::Number(whole(4)),
            TokenKind::RParen,
            TokenKind::RParen,
            TokenKind::End,
        ]
    );
}

#[test]
fn canonical_form_of_decimal_literal() {
    let tree = parse_str("3.14");
    let text = render_str(&tree);
    assert_eq!(text, "( 157 / 50 ) ");
    assert_eq!(
        kinds(&text),
        vec![
            TokenKind::LParen,
            TokenKind::Number(whole(157)),
            TokenKind::Slash,
            TokenKind::Number(whole(50)),
            TokenKind::RParen,
            TokenKind::End,
        ]
    );
}

#[test]
fn canonical_form_of_negative_literal() {
    let tree = Expr::Literal(Rational { neg: true, num: 3, den: 2 });
    let text = render_str(&tree);
    assert_eq!(text, "( - 3 / 2 ) ");
    assert_eq!(
        kinds(&text),
        vec![
            TokenKind::LParen,
            TokenKind::Minus,
            TokenKind::Number(whole(3)),
            TokenKind::Slash,
            TokenKind::Number(whole(2)),
            TokenKind::RParen,
            TokenKind::End,
        ]
    );
}

#[test]
fn canonical_form_keeps_the_value() {
    for s in ["2+3*4", "(2+3)*4", "-2*3", "2*-3", "10-3-4", "8/4/2", "3.14+0.86", "1/3", "-(2+3)"] {
        let tree = parse_str(s);
        let expected = eval(&tree);
        let text = render_str(&tree);
        assert_eq!(evaluate(&text), expected, "value changed for {:?}", s);
        assert_eq!(evaluate(&text), evaluate(s), "value differs from source for {:?}", s);
    }
}

#[test]
fn canonical_form_retokenizes_even_when_evaluation_fails() {
    // Rendering is about syntax: a tree whose evaluation faults still has a
    // canonical form with the same tokens and the same fault.
    let tree = parse_str("1/0");
    let text = render_str(&tree);
    assert_eq!(text, "( 1 / 0 ) ");
    assert_eq!(evaluate(&text), Err(EvalError::DivisionByZero));
}
