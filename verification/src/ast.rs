//! The abstract syntax tree of a parsed expression.
//!
//! Each node owns its children outright; the tree is acyclic and has no
//! shared sub-nodes, so plain `Box` ownership suffices.

use vstd::prelude::*;

use crate::rational::Rational;

verus! {

/// A binary arithmetic operator.
#[derive(Clone, Copy, Debug, PartialEq, Eq, Structural)]
pub enum BinOp {
    /// `+`
    Add,
    /// `-`
    Sub,
    /// `*`
    Mul,
    /// `/`
    Div,
}

/// One node of the expression tree.
#[derive(Debug, PartialEq, Eq)]
pub enum Expr {
    /// A numeric literal, in lowest terms.
    Literal(Rational),
    /// Unary negation.
    Neg(Box<Expr>),
    /// A binary operation on two sub-expressions.
    Bin(BinOp, Box<Expr>, Box<Expr>),
}

impl Expr {
    /// Validity: every literal in the tree is in lowest-terms form.
    pub open spec fn wf(self) -> bool
        decreases self,
    {
        match self {
            Expr::Literal(q) => q.wf(),
            Expr::Neg(e) => (*e).wf(),
            Expr::Bin(_, l, r) => (*l).wf() && (*r).wf(),
        }
    }
}

} // verus!
