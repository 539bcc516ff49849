//! Evaluation of an expression tree to an exact rational value.

use vstd::prelude::*;

use crate::ast::{BinOp, Expr};
use crate::error::EvalError;
use crate::rational::{spec_add, spec_div, spec_mul, spec_negate, spec_sub, Rational};

verus! {

/// The value of an expression tree: literals evaluate to themselves,
/// negation flips the sign, and each binary node combines its children with
/// checked rational arithmetic — `DivisionByZero` on a zero divisor,
/// `NumericOverflow` past the representable range, the left subtree's fault
/// reported before the right one's.
pub open spec fn spec_eval(e: Expr) -> Result<Rational, EvalError>
    decreases e,
{
    match e {
        Expr::Literal(q) => Ok(q),
        Expr::Neg(inner) => match spec_eval(*inner) {
            Err(err) => Err(err),
            Ok(v) => Ok(spec_negate(v)),
        },
        Expr::Bin(op, l, r) => match spec_eval(*l) {
            Err(err) => Err(err),
            Ok(lv) => match spec_eval(*r) {
                Err(err) => Err(err),
                Ok(rv) => match op {
                    BinOp::Add => spec_add(lv, rv),
                    BinOp::Sub => spec_sub(lv, rv),
                    BinOp::Mul => spec_mul(lv, rv),
                    BinOp::Div => spec_div(lv, rv),
                },
            },
        },
    }
}

/// Walks the tree and computes its value; returns exactly
/// [`spec_eval`]`(*e)`.
pub fn eval(e: &Expr) -> (r: Result<Rational, EvalError>)
    requires
        e.wf(),
    ensures
        r == spec_eval(*e),
        (r matches Ok(v) ==> v.wf()),
    decreases *e,
{
    match e {
        Expr::Literal(q) => Ok(*q),
        Expr::Neg(inner) => match eval(&**inner) {
            Err(err) => Err(err),
            Ok(v) => Ok(v.negate()),
        },
        Expr::Bin(op, l, r) => {
            let lv = match eval(&**l) {
                Err(err) => {
                    return Err(err);
                },
                Ok(v) => v,
            };
            let rv = match eval(&**r) {
                Err(err) => {
                    return Err(err);
                },
                Ok(v) => v,
            };
            match *op {
                BinOp::Add => lv.add(rv),
                BinOp::Sub => lv.sub(rv),
                BinOp::Mul => lv.mul(rv),
                BinOp::Div => lv.div(rv),
            }
        },
    }
}

} // verus!
