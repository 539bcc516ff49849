//! End-to-end tests of the evaluation facade: results, precedence,
//! boundaries, error taxonomy, and the numeric model's edges.

use calc_core::error::{EvalError, Expected};
use calc_core::evaluate;
use calc_core::rational::Rational;
use calc_core::token::TokenKind;

fn rat(neg: bool, num: u128, den: u128) -> Rational {
    Rational { neg, num, den }
}

fn whole(n: u128) -> Rational {
    rat(false, n, 1)
}

fn neg_whole(n: u128) -> Rational {
    rat(true, n, 1)
}

#[test]
fn empty_input_is_unexpected_end() {
    assert_eq!(evaluate(""), Err(EvalError::UnexpectedEndOfInput));
}

#[test]
fn division_by_zero_literal() {
    assert_eq!(evaluate("1/0"), Err(EvalError::DivisionByZero));
}

#[test]
fn division_when_divisor_evaluates_to_zero() {
    assert_eq!(evaluate("1/(2-2)"), Err(EvalError::DivisionByZero));
    assert_eq!(evaluate("5/0.0"), Err(EvalError::DivisionByZero));
}

#[test]
fn trailing_operator_is_unexpected_end() {
    assert_eq!(evaluate("2+"), Err(EvalError::UnexpectedEndOfInput));
}

#[test]
fn operator_after_operator_is_unexpected_token() {
    assert_eq!(
        evaluate("2+*3"),
        Err(EvalError::UnexpectedToken(2, TokenKind::Star, Expected::Primary))
    );
}

#[test]
fn multiplication_binds_tighter_than_addition() {
    assert_eq!(evaluate("2+3*4"), Ok(whole(14)));
}

#[test]
fn parentheses_override_precedence() {
    assert_eq!(evaluate("(2+3)*4"), Ok(whole(20)));
}

#[test]
fn unary_minus_before_product() {
    assert_eq!(evaluate("-2*3"), Ok(neg_whole(6)));
}

#[test]
fn unary_minus_after_operator() {
    assert_eq!(evaluate("2*-3"), Ok(neg_whole(6)));
}

#[test]
fn evaluation_is_idempotent() {
    for s in ["2+3*4", "", "1/0", "  (1 + 2) / -3 ", "0.1+0.2"] {
        assert_eq!(evaluate(s), evaluate(s));
    }
}

#[test]
fn subtraction_is_left_associative() {
    assert_eq!(evaluate("10-3-4"), Ok(whole(3)));
}

#[test]
fn division_is_left_associative() {
    assert_eq!(evaluate("8/4/2"), Ok(whole(1)));
}

#[test]
fn decimals_are_exact_rationals() {
    assert_eq!(evaluate("3.14"), Ok(rat(false, 157, 50)));
    assert_eq!(evaluate("0.5*4"), Ok(whole(2)));
    assert_eq!(evaluate("0.1+0.2"), Ok(rat(false, 3, 10)));
}

#[test]
fn division_results_are_in_lowest_terms() {
    assert_eq!(evaluate("2/4"), Ok(rat(false, 1, 2)));
    assert_eq!(evaluate("1/3"), Ok(rat(false, 1, 3)));
    assert_eq!(evaluate("-6/4"), Ok(rat(true, 3, 2)));
}

#[test]
fn whitespace_is_skipped() {
    assert_eq!(evaluate("  1 +\t2\n"), Ok(whole(3)));
    assert_eq!(evaluate(" ( 2 + 3 ) * 4 "), Ok(whole(20)));
}

#[test]
fn nested_parentheses_and_double_negation() {
    assert_eq!(evaluate("((2))"), Ok(whole(2)));
    assert_eq!(evaluate("-(2+3)"), Ok(neg_whole(5)));
    assert_eq!(evaluate("--2"), Ok(whole(2)));
}

#[test]
fn negative_zero_is_plain_zero() {
    assert_eq!(evaluate("-0"), Ok(whole(0)));
    assert_eq!(evaluate("0/5"), Ok(whole(0)));
}

#[test]
fn dangling_tokens_are_rejected() {
    assert_eq!(
        evaluate("2 3"),
        Err(EvalError::UnexpectedToken(2, TokenKind::Number(whole(3)), Expected::End))
    );
    assert_eq!(
        evaluate("2)"),
        Err(EvalError::UnexpectedToken(1, TokenKind::RParen, Expected::End))
    );
}

#[test]
fn unclosed_parenthesis_is_unexpected_end() {
    assert_eq!(evaluate("(2+3"), Err(EvalError::UnexpectedEndOfInput));
}

#[test]
fn empty_parentheses_are_rejected() {
    assert_eq!(
        evaluate("()"),
        Err(EvalError::UnexpectedToken(1, TokenKind::RParen, Expected::Primary))
    );
}

#[test]
fn close_paren_expected() {
    assert_eq!(
        evaluate("(2+3 4"),
        Err(EvalError::UnexpectedToken(5, TokenKind::Number(whole(4)), Expected::CloseParen))
    );
}

#[test]
fn unknown_characters_are_reported_with_offset() {
    assert_eq!(evaluate("2a"), Err(EvalError::UnexpectedCharacter(1, 'a')));
    assert_eq!(evaluate("#"), Err(EvalError::UnexpectedCharacter(0, '#')));
}

#[test]
fn malformed_decimals_are_rejected() {
    assert_eq!(evaluate("1.2.3"), Err(EvalError::UnexpectedCharacter(3, '.')));
    assert_eq!(evaluate("3."), Err(EvalError::UnexpectedCharacter(1, '.')));
    assert_eq!(evaluate(".5"), Err(EvalError::UnexpectedCharacter(0, '.')));
}

#[test]
fn literal_out_of_range_overflows() {
    // One above u128::MAX.
    assert_eq!(
        evaluate("340282366920938463463374607431768211456"),
        Err(EvalError::NumericOverflow)
    );
    // u128::MAX itself is representable.
    assert_eq!(
        evaluate("340282366920938463463374607431768211455"),
        Ok(whole(u128::MAX))
    );
}

#[test]
fn product_out_of_range_overflows() {
    // 2^64 * 2^64 == 2^128, one past the representable magnitudes.
    assert_eq!(
        evaluate("18446744073709551616*18446744073709551616"),
        Err(EvalError::NumericOverflow)
    );
}

#[test]
fn sum_out_of_range_overflows() {
    assert_eq!(
        evaluate("340282366920938463463374607431768211455+1"),
        Err(EvalError::NumericOverflow)
    );
}

#[test]
fn long_fraction_overflows_denominator() {
    // 41 fractional digits ask for a denominator of 10^41 > u128::MAX.
    assert_eq!(
        evaluate("0.00000000000000000000000000000000000000001"),
        Err(EvalError::NumericOverflow)
    );
}

#[test]
fn mixed_expression() {
    assert_eq!(evaluate("1+2*3-4/2"), Ok(whole(5)));
    assert_eq!(evaluate("(1+2)*(3-4)/3"), Ok(neg_whole(1)));
}
