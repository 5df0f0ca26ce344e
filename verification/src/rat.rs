//! Exact rational coordinates.
//!
//! Geometry coordinates and constraint coefficients are rationals kept as an
//! `i64` numerator over a positive `i64` denominator.  All operations are
//! exact: results are reduced by the greatest common divisor and an operation
//! whose reduced result does not fit in `i64` reports `None` instead of
//! rounding.  Specifications speak of the value as the pair
//! `(numerator, denominator)` over unbounded integers; two pairs denote the
//! same rational when they cross-multiply equally.
use vstd::prelude::*;

verus! {

use vstd::arithmetic::div_mod::lemma_fundamental_div_mod;
use vstd::arithmetic::div_mod::lemma_div_multiples_vanish;

/// `d` divides `x`.
pub open spec fn divides(d: int, x: int) -> bool {
    exists|k: int| x == #[trigger] (d * k)
}

/// A rational value as a pair of unbounded integers, numerator first.
/// The denominator is positive for every well-formed `Rat`.
pub type Q = (int, int);

pub open spec fn q_wf(a: Q) -> bool {
    a.1 > 0
}

/// The rational `i`.
pub open spec fn q_int(i: int) -> Q {
    (i, 1)
}

/// Exact sum of two rationals.
pub open spec fn q_add(a: Q, b: Q) -> Q {
    (a.0 * b.1 + b.0 * a.1, a.1 * b.1)
}

/// Exact product of two rationals.
pub open spec fn q_mul(a: Q, b: Q) -> Q {
    (a.0 * b.0, a.1 * b.1)
}

pub open spec fn q_neg(a: Q) -> Q {
    (-a.0, a.1)
}

pub open spec fn q_sub(a: Q, b: Q) -> Q {
    q_add(a, q_neg(b))
}

/// Quotient of two rationals; meaningful when `b` is non-zero.
pub open spec fn q_div(a: Q, b: Q) -> Q {
    (a.0 * b.1, a.1 * b.0)
}

/// `a` and `b` denote the same rational (cross-multiplication).
pub open spec fn q_eq(a: Q, b: Q) -> bool {
    a.0 * b.1 == b.0 * a.1
}

/// `a <= b` as rationals; meaningful when both denominators are positive.
pub open spec fn q_le(a: Q, b: Q) -> bool {
    a.0 * b.1 <= b.0 * a.1
}

pub open spec fn q_is_zero(a: Q) -> bool {
    a.0 == 0
}

pub proof fn lemma_q_eq_refl(a: Q)
    ensures
        q_eq(a, a),
{
}

pub proof fn lemma_q_eq_sym(a: Q, b: Q)
    requires
        q_eq(a, b),
    ensures
        q_eq(b, a),
{
}

pub proof fn lemma_q_eq_trans(a: Q, b: Q, c: Q)
    by (nonlinear_arith)
    requires
        q_wf(a),
        q_wf(b),
        q_wf(c),
        q_eq(a, b),
        q_eq(b, c),
    ensures
        q_eq(a, c),
{
}

pub proof fn lemma_q_add_congr(a: Q, a2: Q, b: Q, b2: Q)
    requires
        q_wf(a),
        q_wf(a2),
        q_wf(b),
        q_wf(b2),
        q_eq(a, a2),
        q_eq(b, b2),
    ensures
        q_eq(q_add(a, b), q_add(a2, b2)),
{
    vstd::arithmetic::mul::lemma_mul_is_distributive_add_other_way(
        a2.1 * b2.1,
        a.0 * b.1,
        b.0 * a.1,
    );
    vstd::arithmetic::mul::lemma_mul_is_distributive_add_other_way(
        a.1 * b.1,
        a2.0 * b2.1,
        b2.0 * a2.1,
    );
    assert((a.0 * b.1) * (a2.1 * b2.1) == (a.0 * a2.1) * (b.1 * b2.1)) by (nonlinear_arith);
    assert((b.0 * a.1) * (a2.1 * b2.1) == (b.0 * b2.1) * (a.1 * a2.1)) by (nonlinear_arith);
    assert((a2.0 * b2.1) * (a.1 * b.1) == (a2.0 * a.1) * (b2.1 * b.1)) by (nonlinear_arith);
    assert((b2.0 * a2.1) * (a.1 * b.1) == (b2.0 * b.1) * (a2.1 * a.1)) by (nonlinear_arith);
    assert(b.1 * b2.1 == b2.1 * b.1) by (nonlinear_arith);
    assert(a.1 * a2.1 == a2.1 * a.1) by (nonlinear_arith);
}

pub proof fn lemma_q_mul_congr(a: Q, a2: Q, b: Q, b2: Q)
    requires
        q_wf(a),
        q_wf(a2),
        q_wf(b),
        q_wf(b2),
        q_eq(a, a2),
        q_eq(b, b2),
    ensures
        q_eq(q_mul(a, b), q_mul(a2, b2)),
{
    assert((a.0 * b.0) * (a2.1 * b2.1) == (a.0 * a2.1) * (b.0 * b2.1)) by (nonlinear_arith);
    assert((a2.0 * b2.0) * (a.1 * b.1) == (a2.0 * a.1) * (b2.0 * b.1)) by (nonlinear_arith);
}

pub proof fn lemma_q_add_comm(a: Q, b: Q)
    by (nonlinear_arith)
    ensures
        q_add(a, b) == q_add(b, a),
{
}

pub proof fn lemma_q_add_assoc(a: Q, b: Q, c: Q)
    by (nonlinear_arith)
    requires
        q_wf(a),
        q_wf(b),
        q_wf(c),
    ensures
        q_eq(q_add(q_add(a, b), c), q_add(a, q_add(b, c))),
{
}

pub proof fn lemma_q_add_zero(a: Q)
    by (nonlinear_arith)
    requires
        q_wf(a),
    ensures
        q_eq(q_add(a, (0int, 1int)), a),
        q_eq(q_add((0int, 1int), a), a),
{
}

/// Multiplication distributes over addition, up to rational equality.
#[verifier::rlimit(100)]
pub proof fn lemma_q_mul_distrib(f: Q, a: Q, b: Q)
    requires
        q_wf(f),
        q_wf(a),
        q_wf(b),
    ensures
        q_eq(q_mul(f, q_add(a, b)), q_add(q_mul(f, a), q_mul(f, b))),
{
    assert(f.0 * (a.0 * b.1 + b.0 * a.1) == f.0 * (a.0 * b.1) + f.0 * (b.0 * a.1))
        by (nonlinear_arith);
    assert((f.0 * (a.0 * b.1) + f.0 * (b.0 * a.1)) * ((f.1 * a.1) * (f.1 * b.1)) == (f.0 * (a.0
        * b.1)) * ((f.1 * a.1) * (f.1 * b.1)) + (f.0 * (b.0 * a.1)) * ((f.1 * a.1) * (f.1 * b.1)))
        by (nonlinear_arith);
    assert((f.0 * (a.0 * b.1)) * ((f.1 * a.1) * (f.1 * b.1)) == ((f.0 * a.0) * (f.1 * b.1)) * (f.1
        * (a.1 * b.1))) by (nonlinear_arith);
    assert((f.0 * (b.0 * a.1)) * ((f.1 * a.1) * (f.1 * b.1)) == ((f.0 * b.0) * (f.1 * a.1)) * (f.1
        * (a.1 * b.1))) by (nonlinear_arith);
    assert(((f.0 * a.0) * (f.1 * b.1) + (f.0 * b.0) * (f.1 * a.1)) * (f.1 * (a.1 * b.1)) == ((f.0
        * a.0) * (f.1 * b.1)) * (f.1 * (a.1 * b.1)) + ((f.0 * b.0) * (f.1 * a.1)) * (f.1 * (a.1
        * b.1))) by (nonlinear_arith);
}

pub proof fn lemma_q_mul_comm(a: Q, b: Q)
    by (nonlinear_arith)
    ensures
        q_mul(a, b) == q_mul(b, a),
{
}

pub proof fn lemma_q_mul_assoc(a: Q, b: Q, c: Q)
    by (nonlinear_arith)
    ensures
        q_mul(q_mul(a, b), c) == q_mul(a, q_mul(b, c)),
{
}

pub proof fn lemma_q_add_wf(a: Q, b: Q)
    by (nonlinear_arith)
    requires
        q_wf(a),
        q_wf(b),
    ensures
        q_wf(q_add(a, b)),
        q_wf(q_mul(a, b)),
{
}

/// A term with a zero coefficient contributes nothing.
pub proof fn lemma_q_mul_zero_left(a: Q, b: Q)
    by (nonlinear_arith)
    requires
        a.0 == 0,
    ensures
        q_mul(a, b).0 == 0,
        q_wf(b) && q_wf(a) ==> q_eq(q_mul(a, b), (0int, 1int)),
{
}

/// Exchange the middle operands of a four-way sum.
pub proof fn lemma_q_add_exchange(a: Q, b: Q, c: Q, d: Q)
    requires
        q_wf(a),
        q_wf(b),
        q_wf(c),
        q_wf(d),
    ensures
        q_eq(q_add(q_add(a, b), q_add(c, d)), q_add(q_add(a, c), q_add(b, d))),
{
    let ab: Q = q_add(a, b);
    let cd: Q = q_add(c, d);
    let bc: Q = q_add(b, c);
    let bd: Q = q_add(b, d);
    let ac: Q = q_add(a, c);
    let x0: Q = q_add(ab, cd);
    let x1: Q = q_add(a, q_add(b, cd));
    let x2: Q = q_add(a, q_add(bc, d));
    let x3: Q = q_add(a, q_add(c, bd));
    let x4: Q = q_add(ac, bd);
    lemma_q_add_wf(a, b);
    lemma_q_add_wf(c, d);
    lemma_q_add_wf(b, c);
    lemma_q_add_wf(b, d);
    lemma_q_add_wf(a, c);
    lemma_q_add_wf(b, cd);
    lemma_q_add_wf(bc, d);
    lemma_q_add_wf(c, bd);
    lemma_q_add_wf(ab, cd);
    lemma_q_add_wf(a, q_add(b, cd));
    lemma_q_add_wf(a, q_add(bc, d));
    lemma_q_add_wf(a, q_add(c, bd));
    lemma_q_add_wf(ac, bd);
    // x0 ~ x1
    lemma_q_add_assoc(a, b, cd);
    // x1 ~ x2, since (b + c) + d ~ b + (c + d)
    lemma_q_add_assoc(b, c, d);
    lemma_q_eq_sym(q_add(bc, d), q_add(b, cd));
    lemma_q_add_congr(a, a, q_add(b, cd), q_add(bc, d));
    lemma_q_eq_trans(x0, x1, x2);
    // x2 == a + ((c + b) + d) structurally
    lemma_q_add_comm(b, c);
    // x2 ~ x3, since (c + b) + d ~ c + (b + d)
    lemma_q_add_assoc(c, b, d);
    lemma_q_add_congr(a, a, q_add(q_add(c, b), d), q_add(c, bd));
    lemma_q_eq_trans(x0, x2, x3);
    // x3 ~ x4
    lemma_q_add_assoc(a, c, bd);
    lemma_q_eq_sym(x4, x3);
    lemma_q_eq_trans(x0, x3, x4);
}

/// `q_le` respects rational equality on both sides.
pub proof fn lemma_q_le_congr(a: Q, a2: Q, b: Q, b2: Q)
    by (nonlinear_arith)
    requires
        q_wf(a),
        q_wf(a2),
        q_wf(b),
        q_wf(b2),
        q_eq(a, a2),
        q_eq(b, b2),
    ensures
        q_le(a, b) <==> q_le(a2, b2),
{
}

/// Mutual `q_le` is rational equality.
pub proof fn lemma_q_le_antisym(a: Q, b: Q)
    by (nonlinear_arith)
    requires
        q_wf(a),
        q_wf(b),
        q_le(a, b),
        q_le(b, a),
    ensures
        q_eq(a, b),
{
}

/// `q_le` is transitive over well-formed rationals.
pub proof fn lemma_q_le_trans(a: Q, b: Q, c: Q)
    by (nonlinear_arith)
    requires
        q_wf(a),
        q_wf(b),
        q_wf(c),
        q_le(a, b),
        q_le(b, c),
    ensures
        q_le(a, c),
{
}

/// Swap the second and third operands of a left-nested sum.
pub proof fn lemma_q_add_swap_right(a: Q, b: Q, c: Q)
    requires
        q_wf(a),
        q_wf(b),
        q_wf(c),
    ensures
        q_eq(q_add(q_add(a, b), c), q_add(q_add(a, c), b)),
{
    let x0: Q = q_add(q_add(a, b), c);
    let x1: Q = q_add(a, q_add(b, c));
    let x2: Q = q_add(a, q_add(c, b));
    let x3: Q = q_add(q_add(a, c), b);
    lemma_q_add_wf(a, b);
    lemma_q_add_wf(b, c);
    lemma_q_add_wf(a, c);
    lemma_q_add_wf(q_add(a, b), c);
    lemma_q_add_wf(a, q_add(b, c));
    lemma_q_add_wf(q_add(a, c), b);
    lemma_q_add_assoc(a, b, c);
    lemma_q_add_comm(b, c);
    assert(x1 == x2);
    lemma_q_add_assoc(a, c, b);
    lemma_q_eq_sym(q_add(q_add(a, c), b), q_add(a, q_add(c, b)));
    lemma_q_eq_trans(x0, x2, x3);
}

/// Distributivity with the sum on the left of the product.
pub proof fn lemma_q_mul_distrib_right(a: Q, b: Q, x: Q)
    requires
        q_wf(a),
        q_wf(b),
        q_wf(x),
    ensures
        q_eq(q_mul(q_add(a, b), x), q_add(q_mul(a, x), q_mul(b, x))),
{
    lemma_q_mul_comm(q_add(a, b), x);
    lemma_q_mul_distrib(x, a, b);
    lemma_q_mul_comm(x, a);
    lemma_q_mul_comm(x, b);
}

/// An exact rational number: `num / den` with `den > 0`.
///
/// Structural equality is equality of the stored pair; two `Rat`s of equal
/// value may still differ structurally when not reduced alike, so verified
/// code compares values with `eq_rat` or over `q_eq` of the views.
#[derive(Clone, Copy, Debug, PartialEq, Eq, Structural)]
pub struct Rat {
    pub num: i64,
    pub den: i64,
}

impl Rat {
    /// The mathematical value, as a numerator/denominator pair.
    pub open spec fn q(self) -> Q {
        (self.num as int, self.den as int)
    }

    pub open spec fn wf(self) -> bool {
        self.den > 0
    }

    /// The rational `n`.
    pub fn from_i64(n: i64) -> (r: Rat)
        ensures
            r.wf(),
            r.q() == q_int(n as int),
    {
        Rat { num: n, den: 1 }
    }

    pub fn zero() -> (r: Rat)
        ensures
            r.wf(),
            r.q() == q_int(0),
    {
        Rat { num: 0, den: 1 }
    }

    /// `num / den` as a reduced rational; `None` when `den` is zero or the
    /// reduced pair does not fit.
    pub fn new(num: i64, den: i64) -> (r: Option<Rat>)
        ensures
            den != 0 && num > i64::MIN && den > i64::MIN ==> r is Some,
            r is Some ==> r.unwrap().wf() && q_eq(r.unwrap().q(), (num as int, den as int)),
    {
        if den == 0 {
            None
        } else {
            normalize(num as i128, den as i128)
        }
    }

    pub fn is_zero(&self) -> (r: bool)
        ensures
            r == q_is_zero(self.q()),
    {
        self.num == 0
    }

    /// Value equality of two rationals.
    pub fn eq_rat(&self, other: &Rat) -> (r: bool)
        ensures
            r == q_eq(self.q(), other.q()),
    {
        proof {
            lemma_i64_prod_fits(self.num as int, other.den as int);
            lemma_i64_prod_fits(other.num as int, self.den as int);
        }
        (self.num as i128) * (other.den as i128) == (other.num as i128) * (self.den as i128)
    }

    /// `self <= other` as rational values.
    pub fn le(&self, other: &Rat) -> (r: bool)
        requires
            self.wf(),
            other.wf(),
        ensures
            r == q_le(self.q(), other.q()),
    {
        proof {
            lemma_i64_prod_fits(self.num as int, other.den as int);
            lemma_i64_prod_fits(other.num as int, self.den as int);
        }
        (self.num as i128) * (other.den as i128) <= (other.num as i128) * (self.den as i128)
    }

    /// `|self| <= bound` as rational values.
    pub fn abs_le(&self, bound: &Rat) -> (r: bool)
        requires
            self.wf(),
            bound.wf(),
        ensures
            r == (q_le(q_neg(bound.q()), self.q()) && q_le(self.q(), bound.q())),
    {
        proof {
            lemma_i64_prod_fits(self.num as int, bound.den as int);
            lemma_i64_prod_fits(bound.num as int, self.den as int);
        }
        proof {
            lemma_neg_mul(bound.num as int, self.den as int);
        }
        let lhs: i128 = (self.num as i128) * (bound.den as i128);
        let rhs: i128 = (bound.num as i128) * (self.den as i128);
        -rhs <= lhs && lhs <= rhs
    }

    /// Exact sum; `None` when the reduced result does not fit in `i64`.
    /// Two integers whose sum fits always add.
    pub fn add(&self, other: &Rat) -> (r: Option<Rat>)
        requires
            self.wf(),
            other.wf(),
        ensures
            r is Some ==> r.unwrap().wf() && q_eq(r.unwrap().q(), q_add(self.q(), other.q())),
            self.den == 1 && other.den == 1 && -0x7fff_ffff_ffff_ffff <= self.num + other.num
                <= 0x7fff_ffff_ffff_ffff ==> r is Some && r.unwrap().den == 1 && r.unwrap().num
                as int == self.num + other.num,
    {
        proof {
            lemma_i64_prod_fits(self.num as int, other.den as int);
            lemma_i64_prod_fits(other.num as int, self.den as int);
            lemma_i64_prod_fits(self.den as int, other.den as int);
        }
        let n1: i128 = (self.num as i128) * (other.den as i128);
        let n2: i128 = (other.num as i128) * (self.den as i128);
        proof {
            if self.den == 1 && other.den == 1 {
                assert(n1 as int == self.num as int && n2 as int == other.num as int)
                    by (nonlinear_arith)
                    requires
                        n1 as int == (self.num as int) * (other.den as int),
                        n2 as int == (other.num as int) * (self.den as int),
                        self.den == 1,
                        other.den == 1,
                ;
            }
        }
        match n1.checked_add(n2) {
            None => None,
            Some(n) => {
                let d: i128 = (self.den as i128) * (other.den as i128);
                proof {
                    lemma_pos_prod(self.den as int, other.den as int);
                    if self.den == 1 && other.den == 1 {
                        assert(d == 1) by (nonlinear_arith)
                            requires
                                d as int == (self.den as int) * (other.den as int),
                                self.den == 1,
                                other.den == 1,
                        ;
                    }
                }
                normalize(n, d)
            },
        }
    }

    /// Exact difference; `None` when the reduced result does not fit.
    /// Two integers whose difference fits always subtract.
    pub fn sub(&self, other: &Rat) -> (r: Option<Rat>)
        requires
            self.wf(),
            other.wf(),
        ensures
            r is Some ==> r.unwrap().wf() && q_eq(r.unwrap().q(), q_sub(self.q(), other.q())),
            self.den == 1 && other.den == 1 && -0x7fff_ffff_ffff_ffff <= self.num - other.num
                <= 0x7fff_ffff_ffff_ffff ==> r is Some && r.unwrap().den == 1 && r.unwrap().num
                as int == self.num - other.num,
    {
        proof {
            lemma_i64_prod_fits(self.num as int, other.den as int);
            lemma_i64_prod_fits(other.num as int, self.den as int);
            lemma_i64_prod_fits(self.den as int, other.den as int);
        }
        let n1: i128 = (self.num as i128) * (other.den as i128);
        let n2: i128 = (other.num as i128) * (self.den as i128);
        proof {
            if self.den == 1 && other.den == 1 {
                assert(n1 as int == self.num as int && n2 as int == other.num as int)
                    by (nonlinear_arith)
                    requires
                        n1 as int == (self.num as int) * (other.den as int),
                        n2 as int == (other.num as int) * (self.den as int),
                        self.den == 1,
                        other.den == 1,
                ;
            }
        }
        match n1.checked_sub(n2) {
            None => None,
            Some(n) => {
                let d: i128 = (self.den as i128) * (other.den as i128);
                proof {
                    lemma_pos_prod(self.den as int, other.den as int);
                    lemma_neg_mul(other.num as int, self.den as int);
                    if self.den == 1 && other.den == 1 {
                        assert(d == 1) by (nonlinear_arith)
                            requires
                                d as int == (self.den as int) * (other.den as int),
                                self.den == 1,
                                other.den == 1,
                        ;
                    }
                }
                normalize(n, d)
            },
        }
    }

    /// Exact negation; `None` only for the one unrepresentable magnitude.
    pub fn neg(&self) -> (r: Option<Rat>)
        requires
            self.wf(),
        ensures
            r is Some ==> r.unwrap().wf() && q_eq(r.unwrap().q(), q_neg(self.q())),
            self.num > i64::MIN ==> r is Some,
            self.num > i64::MIN && self.den == 1 ==> r is Some && r.unwrap().den == 1
                && r.unwrap().num as int == -(self.num as int),
    {
        proof {
        }
        normalize(-(self.num as i128), self.den as i128)
    }

    /// Exact product; `None` when the reduced result does not fit.
    /// Two integers whose product fits always multiply.
    pub fn mul(&self, other: &Rat) -> (r: Option<Rat>)
        requires
            self.wf(),
            other.wf(),
        ensures
            r is Some ==> r.unwrap().wf() && q_eq(r.unwrap().q(), q_mul(self.q(), other.q())),
            self.den == 1 && other.den == 1 && -0x7fff_ffff_ffff_ffff <= self.num * other.num
                <= 0x7fff_ffff_ffff_ffff ==> r is Some && r.unwrap().den == 1 && r.unwrap().num
                as int == self.num * other.num,
    {
        proof {
            lemma_i64_prod_fits(self.num as int, other.num as int);
            lemma_i64_prod_fits(self.den as int, other.den as int);
        }
        let n: i128 = (self.num as i128) * (other.num as i128);
        let d: i128 = (self.den as i128) * (other.den as i128);
        proof {
            lemma_pos_prod(self.den as int, other.den as int);
            if self.den == 1 && other.den == 1 {
                assert(d == 1) by (nonlinear_arith)
                    requires
                        d as int == (self.den as int) * (other.den as int),
                        self.den == 1,
                        other.den == 1,
                ;
            }
        }
        normalize(n, d)
    }

    /// Exact quotient; `None` when the reduced result does not fit.
    /// The quotient of two representable integers always exists.
    pub fn div(&self, other: &Rat) -> (r: Option<Rat>)
        requires
            self.wf(),
            other.wf(),
            other.q().0 != 0,
        ensures
            r is Some ==> r.unwrap().wf() && q_eq(r.unwrap().q(), q_div(self.q(), other.q())),
            self.den == 1 && other.den == 1 && self.num > i64::MIN && other.num > i64::MIN
                ==> r is Some,
            self.den == 1 && other.den == 1 && (other.num == 1 || other.num == -1) && self.num
                > i64::MIN ==> r is Some && r.unwrap().den == 1 && r.unwrap().num as int
                == self.num * other.num,
    {
        proof {
            lemma_i64_prod_fits(self.num as int, other.den as int);
            lemma_i64_prod_fits(self.den as int, other.num as int);
        }
        let n: i128 = (self.num as i128) * (other.den as i128);
        let d: i128 = (self.den as i128) * (other.num as i128);
        proof {
            lemma_nonzero_prod(self.den as int, other.num as int);
            if self.den == 1 && other.den == 1 {
                assert(n as int == self.num as int && d as int == other.num as int)
                    by (nonlinear_arith)
                    requires
                        n as int == (self.num as int) * (other.den as int),
                        d as int == (self.den as int) * (other.num as int),
                        self.den == 1,
                        other.den == 1,
                ;
                if other.num == 1 || other.num == -1 {
                    assert(self.num * other.num == self.num as int || self.num * other.num
                        == -(self.num as int)) by (nonlinear_arith)
                        requires
                            other.num == 1 || other.num == -1,
                    ;
                }
            }
        }
        normalize(n, d)
    }
}

/// The product of two positive integers is positive.
proof fn lemma_pos_prod(x: int, y: int)
    by (nonlinear_arith)
    requires
        x > 0,
        y > 0,
    ensures
        x * y > 0,
{
}

/// Negation moves through a product.
proof fn lemma_neg_mul(x: int, y: int)
    by (nonlinear_arith)
    ensures
        -(x * y) == (-x) * y,
        x * (-y) == -(x * y),
{
}

/// The product of two non-zero integers is non-zero.
proof fn lemma_nonzero_prod(x: int, y: int)
    by (nonlinear_arith)
    requires
        x != 0,
        y != 0,
    ensures
        x * y != 0,
{
}

/// The product of two `i64`-ranged integers fits comfortably in `i128`.
proof fn lemma_i64_prod_fits(x: int, y: int)
    by (nonlinear_arith)
    requires
        -0x8000_0000_0000_0000 <= x <= 0x7fff_ffff_ffff_ffff,
        -0x8000_0000_0000_0000 <= y <= 0x7fff_ffff_ffff_ffff,
    ensures
        -0x4000_0000_0000_0000_0000_0000_0000_0000 < x * y
            <= 0x4000_0000_0000_0000_0000_0000_0000_0000,
{
}

/// Greatest-common-divisor style reduction witness: returns a positive `g`
/// dividing both arguments (Euclid's algorithm).
fn gcd_u128(a: u128, b: u128) -> (g: u128)
    requires
        a > 0 || b > 0,
    ensures
        g >= 1,
        divides(g as int, a as int),
        divides(g as int, b as int),
{
    let mut x: u128 = a;
    let mut y: u128 = b;
    while y != 0
        invariant
            x > 0 || y > 0,
            forall|c: int|
                c >= 1 && divides(c, x as int) && divides(c, y as int) ==> divides(c, a as int)
                    && divides(c, b as int),
        decreases y,
    {
        let r: u128 = x % y;
        proof {
            assert forall|c: int|
                c >= 1 && divides(c, y as int) && divides(c, r as int) implies divides(
                c,
                x as int,
            ) && divides(c, y as int) by {
                let k1 = choose|k: int| y as int == #[trigger] (c * k);
                let k2 = choose|k: int| r as int == #[trigger] (c * k);
                lemma_fundamental_div_mod(x as int, y as int);
                assert(x as int == c * (k1 * ((x as int) / (y as int)) + k2))
                    by (nonlinear_arith)
                    requires
                        y as int == c * k1,
                        r as int == c * k2,
                        x as int == (y as int) * ((x as int) / (y as int)) + (x as int) % (
                        y as int),
                        r as int == (x as int) % (y as int),
                ;
            }
        }
        x = y;
        y = r;
    }
    proof {
        assert(x as int == (x as int) * 1);
        assert(y as int == (x as int) * 0);
    }
    x
}

/// Reduce `n / d` (with `d != 0`) to a well-formed `Rat`; `None` when the
/// reduced pair does not fit in `i64`.
fn normalize(n: i128, d: i128) -> (r: Option<Rat>)
    requires
        d != 0,
        n > i128::MIN,
        d > i128::MIN,
    ensures
        r is Some ==> r.unwrap().wf() && q_eq(r.unwrap().q(), (n as int, d as int)),
        -0x7fff_ffff_ffff_ffff <= n <= 0x7fff_ffff_ffff_ffff && -0x7fff_ffff_ffff_ffff <= d
            <= 0x7fff_ffff_ffff_ffff ==> r is Some,
        d == 1 && -0x7fff_ffff_ffff_ffff <= n <= 0x7fff_ffff_ffff_ffff ==> r is Some
            && r.unwrap().den == 1 && r.unwrap().num as int == n as int,
        d == -1 && -0x7fff_ffff_ffff_ffff <= n <= 0x7fff_ffff_ffff_ffff ==> r is Some
            && r.unwrap().den == 1 && r.unwrap().num as int == -(n as int),
{
    let (n2, d2): (i128, i128) = if d < 0 {
        (-n, -d)
    } else {
        (n, d)
    };
    let neg: bool = n2 < 0;
    let na: u128 = if n2 < 0 {
        (-n2) as u128
    } else {
        n2 as u128
    };
    let da: u128 = d2 as u128;
    let g: u128 = gcd_u128(na, da);
    let ng: u128 = na / g;
    let dg: u128 = da / g;
    proof {
        let k1 = choose|k: int| na as int == #[trigger] ((g as int) * k);
        let k2 = choose|k: int| da as int == #[trigger] ((g as int) * k);
        lemma_div_multiples_vanish(k1, g as int);
        lemma_div_multiples_vanish(k2, g as int);
        assert(ng as int == k1);
        assert(dg as int == k2);
        assert(na as int == (g as int) * (ng as int));
        assert(da as int == (g as int) * (dg as int));
        assert(dg >= 1) by (nonlinear_arith)
            requires
                da as int == (g as int) * (dg as int),
                da > 0,
                g >= 1,
        ;
        if d2 == 1 {
            assert(g == 1 && dg == 1) by (nonlinear_arith)
                requires
                    da as int == (g as int) * (dg as int),
                    da == 1,
                    g >= 1,
                    dg >= 1,
            ;
            assert(ng as int == na as int) by (nonlinear_arith)
                requires
                    na as int == (g as int) * (ng as int),
                    g == 1,
            ;
        }
        if na > 0 {
            vstd::arithmetic::div_mod::lemma_div_nonincreasing(na as int, g as int);
        }
        vstd::arithmetic::div_mod::lemma_div_nonincreasing(da as int, g as int);
    }
    if ng > 0x7fff_ffff_ffff_ffff || dg > 0x7fff_ffff_ffff_ffff {
        None
    } else {
        let num: i64 = if neg {
            -(ng as i64)
        } else {
            ng as i64
        };
        let den: i64 = dg as i64;
        proof {
            assert((num as int) * (d2 as int) == (n2 as int) * (den as int))
                by (nonlinear_arith)
                requires
                    na as int == (g as int) * (ng as int),
                    da as int == (g as int) * (dg as int),
                    num as int == if neg {
                        -(ng as int)
                    } else {
                        ng as int
                    },
                    n2 as int == if neg {
                        -(na as int)
                    } else {
                        na as int
                    },
                    den as int == dg as int,
                    d2 as int == da as int,
                    neg <==> n2 < 0,
                    na as int == if n2 < 0 {
                        -(n2 as int)
                    } else {
                        n2 as int
                    },
            ;
            assert((num as int) * (d as int) == (n as int) * (den as int))
                by (nonlinear_arith)
                requires
                    (num as int) * (d2 as int) == (n2 as int) * (den as int),
                    (n2 as int == if d < 0 {
                        -(n as int)
                    } else {
                        n as int
                    }),
                    (d2 as int == if d < 0 {
                        -(d as int)
                    } else {
                        d as int
                    }),
            ;
        }
        Some(Rat { num, den })
    }
}


/// `x` lies on the grid of multiples of `step`.
pub open spec fn grid_point(x: Q, step: Q) -> bool {
    exists|k: int| q_eq(x, #[trigger] q_mul((k, 1int), step))
}

pub open spec fn q_abs(a: Q) -> Q {
    (if a.0 < 0 {
        -a.0
    } else {
        a.0
    }, a.1)
}

/// Half of a rational.
pub open spec fn q_half(a: Q) -> Q {
    (a.0, 2 * a.1)
}

/// Floor division of `t` by positive `d`, on `i128` operands.
fn floor_div(t: i128, d: i128) -> (k: i128)
    requires
        d > 0,
        t > i128::MIN,
    ensures
        d * k <= t < d * (k + 1),
{
    if t >= 0 {
        let tu: u128 = t as u128;
        let du: u128 = d as u128;
        let q: u128 = tu / du;
        proof {
            lemma_fundamental_div_mod(tu as int, du as int);
            assert(q as int == (tu as int) / (du as int));
            assert(0 <= (tu as int) % (du as int) < du as int);
            assert(d * (q as int) <= t as int) by (nonlinear_arith)
                requires
                    tu as int == (du as int) * (q as int) + (tu as int) % (du as int),
                    0 <= (tu as int) % (du as int),
                    t as int == tu as int,
                    d as int == du as int,
            ;
            assert((t as int) < d * ((q as int) + 1)) by (nonlinear_arith)
                requires
                    tu as int == (du as int) * (q as int) + (tu as int) % (du as int),
                    (tu as int) % (du as int) < du as int,
                    t as int == tu as int,
                    d as int == du as int,
            ;
        }
        q as i128
    } else {
        // t < 0: k = -ceil(|t| / d)
        let tu: u128 = (-t) as u128;
        let du: u128 = d as u128;
        let q: u128 = (tu + (du - 1)) / du;
        proof {
            lemma_fundamental_div_mod((tu + (du - 1)) as int, du as int);
            assert(q as int == ((tu + (du - 1)) as int) / (du as int));
            assert(0 <= ((tu + (du - 1)) as int) % (du as int) < du as int);
            assert((du as int) * (q as int) >= tu as int && (du as int) * ((q as int) - 1)
                < tu as int) by (nonlinear_arith)
                requires
                    (tu + (du - 1)) as int == (du as int) * (q as int) + ((tu + (du - 1)) as int)
                        % (du as int),
                    0 <= ((tu + (du - 1)) as int) % (du as int) < du as int,
                    du as int >= 1,
            ;
            assert(q as int <= tu as int) by (nonlinear_arith)
                requires
                    (du as int) * ((q as int) - 1) < tu as int,
                    du as int >= 1,
            ;
            assert(d * (0 - (q as int)) <= t as int) by (nonlinear_arith)
                requires
                    (du as int) * (q as int) >= tu as int,
                    t as int == 0 - (tu as int),
                    d as int == du as int,
            ;
            assert((t as int) < d * (1 - (q as int))) by (nonlinear_arith)
                requires
                    (du as int) * ((q as int) - 1) < tu as int,
                    t as int == 0 - (tu as int),
                    d as int == du as int,
            ;
        }
        -(q as i128)
    }
}

impl Rat {
    /// The nearest multiple of `step` (ties rounded towards the larger
    /// multiple); `None` when an intermediate value does not fit.
    pub fn round_to(&self, step: &Rat) -> (r: Option<Rat>)
        requires
            self.wf(),
            step.wf(),
            step.num > 0,
        ensures
            r is Some ==> {
                let rr = r.unwrap();
                &&& rr.wf()
                &&& grid_point(rr.q(), step.q())
                &&& q_le(q_abs(q_sub(self.q(), rr.q())), q_half(step.q()))
                &&& !q_le(q_half(step.q()), q_sub(self.q(), rr.q()))
                &&& (grid_point(self.q(), step.q()) ==> q_eq(rr.q(), self.q()))
            },
            self.den == 1 && self.num > i64::MIN && step.num == 1 && step.den == 1 ==> r is Some,
    {
        proof {
            lemma_i64_prod_fits(self.num as int, step.den as int);
            lemma_i64_prod_fits(self.den as int, step.num as int);
            lemma_pos_prod(self.den as int, step.num as int);
        }
        let n: i128 = (self.num as i128) * (step.den as i128);
        let d: i128 = (self.den as i128) * (step.num as i128);
        proof {
            if self.den == 1 && self.num > i64::MIN && step.num == 1 && step.den == 1 {
                assert(n as int == self.num as int && d == 1) by (nonlinear_arith)
                    requires
                        n as int == (self.num as int) * (step.den as int),
                        d as int == (self.den as int) * (step.num as int),
                        self.den == 1,
                        step.num == 1,
                        step.den == 1,
                ;
            }
        }
        let t2: i128 = match n.checked_mul(2) {
            None => {
                return None;
            },
            Some(t) => match t.checked_add(d) {
                None => {
                    return None;
                },
                Some(t2) => t2,
            },
        };
        let d2: i128 = match d.checked_mul(2) {
            None => {
                return None;
            },
            Some(d2) => d2,
        };
        let k: i128 = floor_div(t2, d2);
        // k is the nearest integer to n / d: |2n - 2kd| <= d
        proof {
            assert(d2 * k <= t2 < d2 * (k + 1));
            if self.den == 1 && self.num > i64::MIN && step.num == 1 && step.den == 1 {
                // the integer case: the nearest multiple of one is the
                // value itself
                assert(n as int == self.num as int && d == 1) by (nonlinear_arith)
                    requires
                        n as int == (self.num as int) * (step.den as int),
                        d as int == (self.den as int) * (step.num as int),
                        self.den == 1,
                        step.num == 1,
                        step.den == 1,
                ;
                assert(k as int == n as int) by (nonlinear_arith)
                    requires
                        d2 as int == 2 * (d as int),
                        t2 as int == 2 * (n as int) + (d as int),
                        d == 1,
                        (d2 as int) * (k as int) <= (t2 as int) < (d2 as int) * ((k as int) + 1),
                ;
            }
            assert(0 - (d as int) <= 2 * (n as int) - 2 * (k as int) * (d as int) < d as int)
                by (nonlinear_arith)
                requires
                    (2 * (d as int)) * (k as int) <= 2 * (n as int) + (d as int) < (2 * (
                    d as int)) * ((k as int) + 1),
                    d > 0,
            ;
        }
        let num2: i128 = match k.checked_mul(step.num as i128) {
            None => {
                return None;
            },
            Some(x) => x,
        };
        if num2 == i128::MIN {
            return None;
        }
        let rr = match normalize(num2, step.den as i128) {
            None => {
                return None;
            },
            Some(rr) => rr,
        };
        proof {
            lemma_round_to_correct(
                self.num as int,
                self.den as int,
                step.num as int,
                step.den as int,
                rr.num as int,
                rr.den as int,
                k as int,
                n as int,
                d as int,
            );
        }
        Some(rr)
    }
}

/// The arithmetic behind `round_to`: if `k` is the nearest integer to
/// `(vn/vd) / (sn/sd)` and `rr = (rn, rd)` equals `k * (sn/sd)`, then `rr`
/// is a grid point within half a step of `vn/vd`.
proof fn lemma_round_to_correct(
    vn: int,
    vd: int,
    sn: int,
    sd: int,
    rn: int,
    rd: int,
    k: int,
    n: int,
    d: int,
)
    requires
        vd > 0,
        sd > 0,
        sn > 0,
        rd > 0,
        n == vn * sd,
        d == vd * sn,
        0 - d <= 2 * n - 2 * k * d < d,
        q_eq((rn, rd), (k * sn, sd)),
    ensures
        grid_point((rn, rd), (sn, sd)),
        q_le(q_abs(q_sub((vn, vd), (rn, rd))), q_half((sn, sd))),
        !q_le(q_half((sn, sd)), q_sub((vn, vd), (rn, rd))),
        grid_point((vn, vd), (sn, sd)) ==> q_eq((rn, rd), (vn, vd)),
{
    // the grid-point witness is k itself
    assert(q_mul((k, 1int), (sn, sd)) == (k * sn, 1 * sd));
    assert(1 * sd == sd);
    assert(q_eq((rn, rd), q_mul((k, 1int), (sn, sd))));
    assert(grid_point((rn, rd), (sn, sd)));
    // the difference, over the common denominator vd * rd
    let diffn = vn * rd + (-rn) * vd;
    assert(q_sub((vn, vd), (rn, rd)) == (diffn, vd * rd));
    // rn * sd == (k * sn) * rd, so sd * diffn == rd * (n - k * d)
    assert(rn * sd == (k * sn) * rd);
    assert(sd * diffn == sd * (vn * rd) - sd * (rn * vd)) by (nonlinear_arith)
        requires
            diffn == vn * rd + (-rn) * vd,
    ;
    assert(sd * (vn * rd) == n * rd) by (nonlinear_arith)
        requires
            n == vn * sd,
    ;
    assert(sd * (rn * vd) == (rn * sd) * vd) by (nonlinear_arith);
    assert((rn * sd) * vd == ((k * sn) * rd) * vd) by (nonlinear_arith)
        requires
            rn * sd == (k * sn) * rd,
    ;
    assert(((k * sn) * rd) * vd == rd * (k * d)) by (nonlinear_arith)
        requires
            d == vd * sn,
    ;
    assert(n * rd - rd * (k * d) == rd * (n - k * d)) by (nonlinear_arith);
    assert(sd * diffn == rd * (n - k * d));
    assert(vd * rd > 0) by (nonlinear_arith)
        requires
            vd > 0,
            rd > 0,
    ;
    // goal, cross-multiplied: |diffn| * (2 * sd) <= sn * (vd * rd)
    if diffn >= 0 {
        assert(diffn * (2 * sd) <= sn * (vd * rd)) by (nonlinear_arith)
            requires
                sd * diffn == rd * (n - k * d),
                2 * n - 2 * k * d < d,
                diffn >= 0,
                d == vd * sn,
                sd > 0,
                rd > 0,
                vd > 0,
                sn > 0,
        ;
        assert(q_abs((diffn, vd * rd)) == (diffn, vd * rd));
    } else {
        assert((0 - diffn) * (2 * sd) <= sn * (vd * rd)) by (nonlinear_arith)
            requires
                sd * diffn == rd * (n - k * d),
                0 - d <= 2 * n - 2 * k * d,
                diffn < 0,
                d == vd * sn,
                sd > 0,
                rd > 0,
                vd > 0,
                sn > 0,
        ;
        assert(q_abs((diffn, vd * rd)) == (0 - diffn, vd * rd));
    }
    assert(q_half((sn, sd)) == (sn, 2 * sd));
    // the tie goes to the larger multiple: the difference stays strictly
    // below half a step
    assert(diffn * (2 * sd) < sn * (vd * rd)) by (nonlinear_arith)
        requires
            sd * diffn == rd * (n - k * d),
            2 * n - 2 * k * d < d,
            d == vd * sn,
            sd > 0,
            rd > 0,
            vd > 0,
            sn > 0,
    ;
    // a value already on the grid is its own nearest multiple
    if grid_point((vn, vd), (sn, sd)) {
        let k0 = choose|k0: int| q_eq((vn, vd), q_mul((k0, 1int), (sn, sd)));
        assert(n == k0 * d) by (nonlinear_arith)
            requires
                n == vn * sd,
                d == vd * sn,
                vn * (1 * sd) == (k0 * sn) * vd,
        ;
        assert(k == k0) by (nonlinear_arith)
            requires
                n == k0 * d,
                0 - d <= 2 * n - 2 * k * d < d,
                d > 0,
        ;
        assert(q_eq((rn, rd), q_mul((k0, 1int), (sn, sd))));
        assert(q_eq(q_mul((k0, 1int), (sn, sd)), (vn, vd))) by (nonlinear_arith)
            requires
                vn * (1 * sd) == (k0 * sn) * vd,
                vd > 0,
        ;
        lemma_q_eq_trans((rn, rd), q_mul((k0, 1int), (sn, sd)), (vn, vd));
        assert(q_wf(q_mul((k0, 1int), (sn, sd)))) by (nonlinear_arith)
            requires
                sd > 0,
        ;
    }
}

} // verus!
