//! Exact rational arithmetic in sign-and-magnitude form.
//!
//! A [`Rational`] is `(-1 if neg else 1) * num / den`.  Magnitudes live in
//! `u128`; every operation first combines the operands with checked
//! arithmetic and then divides numerator and denominator by their greatest
//! common divisor, so results are kept in lowest terms.  An intermediate or
//! final magnitude above `u128::MAX` is reported as
//! [`EvalError::NumericOverflow`]; nothing wraps around silently.

use vstd::prelude::*;

use vstd::arithmetic::div_mod::{lemma_fundamental_div_mod, lemma_mod_multiples_vanish};

use crate::error::EvalError;

verus! {

/// An exact rational number: `num / den`, negative when `neg` is set.
#[derive(Clone, Copy, Debug, PartialEq, Eq, Structural)]
pub struct Rational {
    /// True for values strictly below zero; zero always has `neg == false`.
    pub neg: bool,
    /// Magnitude of the numerator.
    pub num: u128,
    /// Denominator; always at least 1.
    pub den: u128,
}

/// Greatest common divisor by Euclid's algorithm; `spec_gcd(a, 0) == a`.
pub open spec fn spec_gcd(a: nat, b: nat) -> nat
    decreases b,
{
    if b == 0 {
        a
    } else {
        spec_gcd(b, a % b)
    }
}

/// For a positive second argument the greatest common divisor is at least 1
/// and at most that argument.
pub proof fn lemma_gcd_bounds(a: nat, b: nat)
    requires
        1 <= b,
    ensures
        1 <= spec_gcd(a, b) <= b,
    decreases b,
{
    let r = a % b;
    if r == 0 {
        assert(spec_gcd(a, b) == spec_gcd(b, 0));
    } else {
        lemma_gcd_bounds(b, r);
        assert(spec_gcd(a, b) == spec_gcd(b, r));
    }
}

/// The greatest common divisor divides both of its arguments.
pub proof fn lemma_gcd_divides(a: nat, b: nat)
    requires
        1 <= b,
    ensures
        a % spec_gcd(a, b) == 0,
        b % spec_gcd(a, b) == 0,
    decreases b,
{
    let g = spec_gcd(a, b);
    let r = a % b;
    lemma_gcd_bounds(a, b);
    if r == 0 {
        assert(spec_gcd(a, b) == spec_gcd(b, 0));
    } else {
        lemma_gcd_divides(b, r);
        assert(spec_gcd(a, b) == spec_gcd(b, r));
        lemma_fundamental_div_mod(a as int, b as int);
        lemma_fundamental_div_mod(b as int, g as int);
        let q = a as int / b as int;
        let k = b as int / g as int;
        assert(a as int == g as int * (k * q) + r as int) by (nonlinear_arith)
            requires
                a as int == b as int * q + r as int,
                b as int == g as int * k,
        ;
        lemma_mod_multiples_vanish(k * q, r as int, g as int);
    }
}

/// The rational `num / den` brought to lowest terms, with the sign dropped
/// on a zero numerator.
pub open spec fn spec_reduced(neg: bool, num: nat, den: nat) -> Rational
    recommends
        1 <= den,
{
    let g = spec_gcd(num, den);
    let n = num / g;
    let d = den / g;
    Rational { neg: if n == 0 { false } else { neg }, num: n as u128, den: d as u128 }
}

/// Reduction keeps the value: the reduced pair stands for the same
/// fraction, the denominator stays positive, and the sign is kept exactly
/// on non-zero values.
pub proof fn lemma_reduced_value(neg: bool, num: nat, den: nat)
    requires
        1 <= den,
        num <= u128::MAX,
        den <= u128::MAX,
    ensures
        ({
            let c = spec_reduced(neg, num, den);
            &&& c.num as int * den as int == num as int * (c.den as int)
            &&& 1 <= c.den
            &&& (c.num == 0 <==> num == 0)
            &&& c.neg == (neg && num > 0)
        }),
{
    let g = spec_gcd(num, den);
    lemma_gcd_bounds(num, den);
    lemma_gcd_divides(num, den);
    lemma_fundamental_div_mod(num as int, g as int);
    lemma_fundamental_div_mod(den as int, g as int);
    let kn = num as int / g as int;
    let kd = den as int / g as int;
    assert(num as int == g as int * kn);
    assert(den as int == g as int * kd);
    assert(kn * (den as int) == num as int * kd) by (nonlinear_arith)
        requires
            num as int == g as int * kn,
            den as int == g as int * kd,
    ;
    assert(kn <= num as int && kd <= den as int && 1 <= kd && (kn == 0 <==> num == 0)) by (
    nonlinear_arith)
        requires
            num as int == g as int * kn,
            den as int == g as int * kd,
            1 <= g as int,
            0 <= kn,
            0 <= kd,
            1 <= den as int,
            0 <= num as int,
    ;
}

/// The negation of `a`: the sign is flipped unless the value is zero.
pub open spec fn spec_negate(a: Rational) -> Rational {
    Rational { neg: if a.num == 0 { false } else { !a.neg }, num: a.num, den: a.den }
}

/// The sum of `a` and `b` over a common denominator, in lowest terms, or
/// `NumericOverflow` when an intermediate magnitude exceeds `u128::MAX`.
pub open spec fn spec_add(a: Rational, b: Rational) -> Result<Rational, EvalError> {
    let n1 = a.num * b.den;
    let n2 = b.num * a.den;
    let d = a.den * b.den;
    if n1 > u128::MAX || n2 > u128::MAX || d > u128::MAX {
        Err(EvalError::NumericOverflow)
    } else if a.neg == b.neg {
        if n1 + n2 > u128::MAX {
            Err(EvalError::NumericOverflow)
        } else {
            Ok(spec_reduced(a.neg, (n1 + n2) as nat, d as nat))
        }
    } else if n1 >= n2 {
        Ok(spec_reduced(a.neg, (n1 - n2) as nat, d as nat))
    } else {
        Ok(spec_reduced(b.neg, (n2 - n1) as nat, d as nat))
    }
}

/// The difference of `a` and `b`: `a + (-b)`.
pub open spec fn spec_sub(a: Rational, b: Rational) -> Result<Rational, EvalError> {
    spec_add(a, spec_negate(b))
}

/// The product of `a` and `b`, in lowest terms, or `NumericOverflow` when a
/// magnitude exceeds `u128::MAX`.
pub open spec fn spec_mul(a: Rational, b: Rational) -> Result<Rational, EvalError> {
    let n = a.num * b.num;
    let d = a.den * b.den;
    if n > u128::MAX || d > u128::MAX {
        Err(EvalError::NumericOverflow)
    } else {
        Ok(spec_reduced(a.neg != b.neg, n as nat, d as nat))
    }
}

/// The quotient of `a` and `b`: `DivisionByZero` when `b` is exactly zero,
/// otherwise the cross product in lowest terms, or `NumericOverflow` when a
/// magnitude exceeds `u128::MAX`.
pub open spec fn spec_div(a: Rational, b: Rational) -> Result<Rational, EvalError> {
    if b.num == 0 {
        Err(EvalError::DivisionByZero)
    } else {
        let n = a.num * b.den;
        let d = a.den * b.num;
        if n > u128::MAX || d > u128::MAX {
            Err(EvalError::NumericOverflow)
        } else {
            Ok(spec_reduced(a.neg != b.neg, n as nat, d as nat))
        }
    }
}

/// The signed numerator of `a`: the value of `a` is `signed_num(a) / a.den`.
pub open spec fn signed_num(a: Rational) -> int {
    if a.neg {
        -(a.num as int)
    } else {
        a.num as int
    }
}

/// Addition computes the true sum: cross-multiplied against the common
/// denominator, a successful result equals `a + b`.
pub proof fn lemma_add_value(a: Rational, b: Rational)
    requires
        a.wf(),
        b.wf(),
        spec_add(a, b) is Ok,
    ensures
        ({
            let c = spec_add(a, b)->Ok_0;
            signed_num(c) * (a.den as int * b.den as int) == (signed_num(a) * b.den + signed_num(b)
                * a.den) * c.den
        }),
{
    let c = spec_add(a, b)->Ok_0;
    let n1 = a.num as int * b.den as int;
    let n2 = b.num as int * a.den as int;
    let d = a.den as int * b.den as int;
    assert(1 <= d) by (nonlinear_arith)
        requires
            d == a.den as int * b.den as int,
            1 <= a.den as int,
            1 <= b.den as int,
    ;
    assert(signed_num(a) * b.den == (if a.neg {
        -n1
    } else {
        n1
    }) && signed_num(b) * a.den == (if b.neg {
        -n2
    } else {
        n2
    })) by (nonlinear_arith)
        requires
            n1 == a.num as int * b.den as int,
            n2 == b.num as int * a.den as int,
            signed_num(a) == (if a.neg {
                -(a.num as int)
            } else {
                a.num as int
            }),
            signed_num(b) == (if b.neg {
                -(b.num as int)
            } else {
                b.num as int
            }),
    ;
    if a.neg == b.neg {
        let m = (n1 + n2) as nat;
        lemma_reduced_value(a.neg, m, d as nat);
        assert(signed_num(c) * d == (signed_num(a) * b.den + signed_num(b) * a.den) * c.den) by (
        nonlinear_arith)
            requires
                c == spec_reduced(a.neg, m, d as nat),
                c.num as int * d == m as int * (c.den as int),
                c.neg == (a.neg && m > 0),
                (c.num == 0 <==> m == 0),
                signed_num(c) == (if c.neg {
                    -(c.num as int)
                } else {
                    c.num as int
                }),
                m as int == n1 + n2,
                signed_num(a) * b.den == (if a.neg {
                    -n1
                } else {
                    n1
                }),
                signed_num(b) * a.den == (if b.neg {
                    -n2
                } else {
                    n2
                }),
                a.neg == b.neg,
                0 <= n1,
                0 <= n2,
                0 <= c.num as int,
                1 <= c.den as int,
        ;
    } else if n1 >= n2 {
        let m = (n1 - n2) as nat;
        lemma_reduced_value(a.neg, m, d as nat);
        assert(signed_num(c) * d == (signed_num(a) * b.den + signed_num(b) * a.den) * c.den) by (
        nonlinear_arith)
            requires
                c == spec_reduced(a.neg, m, d as nat),
                c.num as int * d == m as int * (c.den as int),
                c.neg == (a.neg && m > 0),
                (c.num == 0 <==> m == 0),
                signed_num(c) == (if c.neg {
                    -(c.num as int)
                } else {
                    c.num as int
                }),
                m as int == n1 - n2,
                signed_num(a) * b.den == (if a.neg {
                    -n1
                } else {
                    n1
                }),
                signed_num(b) * a.den == (if b.neg {
                    -n2
                } else {
                    n2
                }),
                a.neg != b.neg,
                0 <= n2 <= n1,
                0 <= c.num as int,
                1 <= c.den as int,
        ;
    } else {
        let m = (n2 - n1) as nat;
        lemma_reduced_value(b.neg, m, d as nat);
        assert(signed_num(c) * d == (signed_num(a) * b.den + signed_num(b) * a.den) * c.den) by (
        nonlinear_arith)
            requires
                c == spec_reduced(b.neg, m, d as nat),
                c.num as int * d == m as int * (c.den as int),
                c.neg == (b.neg && m > 0),
                (c.num == 0 <==> m == 0),
                signed_num(c) == (if c.neg {
                    -(c.num as int)
                } else {
                    c.num as int
                }),
                m as int == n2 - n1,
                signed_num(a) * b.den == (if a.neg {
                    -n1
                } else {
                    n1
                }),
                signed_num(b) * a.den == (if b.neg {
                    -n2
                } else {
                    n2
                }),
                a.neg != b.neg,
                0 <= n1 < n2,
                0 <= c.num as int,
                1 <= c.den as int,
        ;
    }
}

/// Negation computes the true opposite value.
pub proof fn lemma_negate_value(a: Rational)
    requires
        a.wf(),
    ensures
        signed_num(spec_negate(a)) == -signed_num(a),
        spec_negate(a).den == a.den,
        spec_negate(a).wf(),
{
}

/// Subtraction computes the true difference: it is addition of the
/// opposite.
pub proof fn lemma_sub_value(a: Rational, b: Rational)
    requires
        a.wf(),
        b.wf(),
        spec_sub(a, b) is Ok,
    ensures
        ({
            let c = spec_sub(a, b)->Ok_0;
            signed_num(c) * (a.den as int * b.den as int) == (signed_num(a) * b.den - signed_num(b)
                * a.den) * c.den
        }),
{
    lemma_negate_value(b);
    lemma_add_value(a, spec_negate(b));
    let nb = spec_negate(b);
    let c = spec_sub(a, b)->Ok_0;
    assert((signed_num(a) * nb.den + signed_num(nb) * a.den) * c.den == (signed_num(a) * b.den
        - signed_num(b) * a.den) * c.den) by (nonlinear_arith)
        requires
            nb.den == b.den,
            signed_num(nb) == -signed_num(b),
    ;
}

/// Multiplication computes the true product.
pub proof fn lemma_mul_value(a: Rational, b: Rational)
    requires
        a.wf(),
        b.wf(),
        spec_mul(a, b) is Ok,
    ensures
        ({
            let c = spec_mul(a, b)->Ok_0;
            signed_num(c) * (a.den as int * b.den as int) == (signed_num(a) * signed_num(b))
                * c.den
        }),
{
    let c = spec_mul(a, b)->Ok_0;
    let n = a.num as int * b.num as int;
    let d = a.den as int * b.den as int;
    assert(1 <= d) by (nonlinear_arith)
        requires
            d == a.den as int * b.den as int,
            1 <= a.den as int,
            1 <= b.den as int,
    ;
    lemma_reduced_value(a.neg != b.neg, n as nat, d as nat);
    assert(signed_num(c) * d == (signed_num(a) * signed_num(b)) * c.den) by (nonlinear_arith)
        requires
            c == spec_reduced(a.neg != b.neg, n as nat, d as nat),
            c.num as int * d == n * (c.den as int),
            c.neg == ((a.neg != b.neg) && n > 0),
            (c.num == 0 <==> n == 0),
            signed_num(c) == (if c.neg {
                -(c.num as int)
            } else {
                c.num as int
            }),
            n == a.num as int * b.num as int,
            signed_num(a) == (if a.neg {
                -(a.num as int)
            } else {
                a.num as int
            }),
            signed_num(b) == (if b.neg {
                -(b.num as int)
            } else {
                b.num as int
            }),
            0 <= n,
            0 <= c.num as int,
            1 <= c.den as int,
    ;
}

/// Division computes the true quotient: multiplied back by the divisor, a
/// successful result equals the dividend.
pub proof fn lemma_div_value(a: Rational, b: Rational)
    requires
        a.wf(),
        b.wf(),
        spec_div(a, b) is Ok,
    ensures
        ({
            let c = spec_div(a, b)->Ok_0;
            signed_num(c) * (a.den as int) * signed_num(b) == signed_num(a) * (b.den as int)
                * c.den
        }),
{
    let c = spec_div(a, b)->Ok_0;
    let n = a.num as int * b.den as int;
    let d = a.den as int * b.num as int;
    assert(1 <= d) by (nonlinear_arith)
        requires
            d == a.den as int * b.num as int,
            1 <= a.den as int,
            1 <= b.num as int,
    ;
    lemma_reduced_value(a.neg != b.neg, n as nat, d as nat);
    assert(signed_num(c) * (a.den as int) * signed_num(b) == signed_num(a) * (b.den as int)
        * c.den) by (nonlinear_arith)
        requires
            c == spec_reduced(a.neg != b.neg, n as nat, d as nat),
            c.num as int * d == n * (c.den as int),
            c.neg == ((a.neg != b.neg) && n > 0),
            (c.num == 0 <==> n == 0),
            signed_num(c) == (if c.neg {
                -(c.num as int)
            } else {
                c.num as int
            }),
            n == a.num as int * b.den as int,
            d == a.den as int * b.num as int,
            signed_num(a) == (if a.neg {
                -(a.num as int)
            } else {
                a.num as int
            }),
            signed_num(b) == (if b.neg {
                -(b.num as int)
            } else {
                b.num as int
            }),
            0 <= n,
            0 <= c.num as int,
            1 <= c.den as int,
            1 <= b.num as int,
    ;
}

impl Rational {
    /// Validity: the denominator is positive and zero carries no sign.
    pub open spec fn wf(self) -> bool {
        1 <= self.den && (self.num == 0 ==> !self.neg)
    }

    /// Negation; never fails.
    pub fn negate(self) -> (r: Rational)
        ensures
            r == spec_negate(self),
            self.wf() ==> r.wf(),
    {
        Rational { neg: if self.num == 0 { false } else { !self.neg }, num: self.num, den: self.den }
    }

    /// Checked addition in lowest terms.
    pub fn add(self, rhs: Rational) -> (r: Result<Rational, EvalError>)
        requires
            self.wf(),
            rhs.wf(),
        ensures
            r == spec_add(self, rhs),
            (r matches Ok(v) ==> v.wf()),
    {
        let n1 = match self.num.checked_mul(rhs.den) {
            Some(v) => v,
            None => {
                return Err(EvalError::NumericOverflow);
            },
        };
        let n2 = match rhs.num.checked_mul(self.den) {
            Some(v) => v,
            None => {
                return Err(EvalError::NumericOverflow);
            },
        };
        let d = match self.den.checked_mul(rhs.den) {
            Some(v) => v,
            None => {
                return Err(EvalError::NumericOverflow);
            },
        };
        proof {
            assert((self.den as int) * (rhs.den as int) >= 1) by (nonlinear_arith)
                requires
                    self.den as int >= 1,
                    rhs.den as int >= 1,
            ;
        }
        if self.neg == rhs.neg {
            let m = match n1.checked_add(n2) {
                Some(v) => v,
                None => {
                    return Err(EvalError::NumericOverflow);
                },
            };
            Ok(reduced(self.neg, m, d))
        } else if n1 >= n2 {
            Ok(reduced(self.neg, n1 - n2, d))
        } else {
            Ok(reduced(rhs.neg, n2 - n1, d))
        }
    }

    /// Checked subtraction in lowest terms: `self + (-rhs)`.
    pub fn sub(self, rhs: Rational) -> (r: Result<Rational, EvalError>)
        requires
            self.wf(),
            rhs.wf(),
        ensures
            r == spec_sub(self, rhs),
            (r matches Ok(v) ==> v.wf()),
    {
        self.add(rhs.negate())
    }

    /// Checked multiplication in lowest terms.
    pub fn mul(self, rhs: Rational) -> (r: Result<Rational, EvalError>)
        requires
            self.wf(),
            rhs.wf(),
        ensures
            r == spec_mul(self, rhs),
            (r matches Ok(v) ==> v.wf()),
    {
        let n = match self.num.checked_mul(rhs.num) {
            Some(v) => v,
            None => {
                return Err(EvalError::NumericOverflow);
            },
        };
        let d = match self.den.checked_mul(rhs.den) {
            Some(v) => v,
            None => {
                return Err(EvalError::NumericOverflow);
            },
        };
        proof {
            assert((self.den as int) * (rhs.den as int) >= 1) by (nonlinear_arith)
                requires
                    self.den as int >= 1,
                    rhs.den as int >= 1,
            ;
        }
        Ok(reduced(self.neg != rhs.neg, n, d))
    }

    /// Checked division in lowest terms; fails on a zero divisor.
    pub fn div(self, rhs: Rational) -> (r: Result<Rational, EvalError>)
        requires
            self.wf(),
            rhs.wf(),
        ensures
            r == spec_div(self, rhs),
            (r matches Ok(v) ==> v.wf()),
    {
        if rhs.num == 0 {
            return Err(EvalError::DivisionByZero);
        }
        let n = match self.num.checked_mul(rhs.den) {
            Some(v) => v,
            None => {
                return Err(EvalError::NumericOverflow);
            },
        };
        let d = match self.den.checked_mul(rhs.num) {
            Some(v) => v,
            None => {
                return Err(EvalError::NumericOverflow);
            },
        };
        proof {
            assert((self.den as int) * (rhs.num as int) >= 1) by (nonlinear_arith)
                requires
                    self.den as int >= 1,
                    rhs.num as int >= 1,
            ;
        }
        Ok(reduced(self.neg != rhs.neg, n, d))
    }
}

/// Greatest common divisor of two machine words.
pub(crate) fn gcd(a: u128, b: u128) -> (g: u128)
    ensures
        g == spec_gcd(a as nat, b as nat),
{
    let mut x = a;
    let mut y = b;
    while y != 0
        invariant
            spec_gcd(x as nat, y as nat) == spec_gcd(a as nat, b as nat),
        decreases y,
    {
        let r = x % y;
        x = y;
        y = r;
    }
    x
}

/// The rational `num / den` in lowest terms, as [`spec_reduced`] describes.
pub(crate) fn reduced(neg: bool, num: u128, den: u128) -> (r: Rational)
    requires
        1 <= den,
    ensures
        r == spec_reduced(neg, num as nat, den as nat),
        r.wf(),
{
    proof {
        lemma_gcd_bounds(num as nat, den as nat);
    }
    let g = gcd(num, den);
    let n = num / g;
    let d = den / g;
    proof {
        assert(den as int / g as int >= 1) by (nonlinear_arith)
            requires
                1 <= g as int <= den as int,
        ;
    }
    Rational { neg: if n == 0 { false } else { neg }, num: n, den: d }
}

} // verus!
