//! Variables and sparse linear expressions.
//!
//! A `Var` is an opaque handle into the variable table of one `Solver`.  A
//! `LinearExpr` is a weighted sum of variables plus a constant; the same
//! variable may appear in several terms, which are logically summed.  The
//! meaning of an expression under an assignment of rational values to
//! variables is given by `LinearExpr::val`; `simplify` folds already-solved
//! variables into the constant, merges duplicate terms and drops zero
//! coefficients, preserving the value under every assignment that agrees
//! with the solved table.
use vstd::prelude::*;

use crate::rat::Q;
use crate::rat::Rat;
use crate::rat::lemma_q_add_assoc;
use crate::rat::lemma_q_add_congr;
use crate::rat::lemma_q_add_exchange;
use crate::rat::lemma_q_add_swap_right;
use crate::rat::lemma_q_mul_distrib_right;
use crate::rat::lemma_q_add_wf;
use crate::rat::lemma_q_add_zero;
use crate::rat::lemma_q_eq_sym;
use crate::rat::lemma_q_eq_trans;
use crate::rat::lemma_q_mul_assoc;
use crate::rat::lemma_q_mul_congr;
use crate::rat::lemma_q_mul_distrib;
use crate::rat::lemma_q_mul_zero_left;
use crate::rat::q_add;
use crate::rat::q_eq;
use crate::rat::q_mul;
use crate::rat::q_wf;

verus! {

/// An opaque handle to one unknown real-valued coordinate, owned by the
/// solver that allocated it.
#[derive(Clone, Copy, Debug, PartialEq, Eq, Hash, Structural)]
pub struct Var(pub u64);

/// A sparse linear combination of variables plus a constant:
/// `sum coeffs[i].0 * coeffs[i].1 + constant`.
#[derive(Clone, Debug, PartialEq)]
pub struct LinearExpr {
    pub coeffs: Vec<(Rat, Var)>,
    pub constant: Rat,
}

/// An assignment of a rational value to every variable id.
pub type VarAssign = Map<int, Q>;

/// Every value of the assignment is a well-formed rational.
pub open spec fn assign_wf(m: VarAssign) -> bool {
    forall|v: int| q_wf(#[trigger] m[v])
}

/// All coefficients of a term sequence are well-formed rationals.
pub open spec fn terms_wf(terms: Seq<(Rat, Var)>) -> bool {
    forall|i: int| 0 <= i < terms.len() ==> (#[trigger] terms[i]).0.wf()
}

/// The value of a term sequence under an assignment.
pub open spec fn terms_val(terms: Seq<(Rat, Var)>, m: VarAssign) -> Q
    decreases terms.len(),
{
    if terms.len() == 0 {
        (0int, 1int)
    } else {
        q_add(
            terms_val(terms.drop_last(), m),
            q_mul(terms.last().0.q(), m[terms.last().1.0 as int]),
        )
    }
}

/// `v` occurs in the term sequence.
pub open spec fn has_var(terms: Seq<(Rat, Var)>, v: Var) -> bool {
    exists|i: int| 0 <= i < terms.len() && (#[trigger] terms[i]).1 == v
}

/// The solved-value table: entry `i` is the value fixed for variable `i`,
/// or `None` while it is unsolved.
pub open spec fn table_wf(solved: Seq<Option<Rat>>) -> bool {
    forall|i: int|
        0 <= i < solved.len() && (#[trigger] solved[i]) is Some ==> solved[i].unwrap().wf()
}

/// The value the table fixes for `v`, if any.
pub open spec fn table_lookup(solved: Seq<Option<Rat>>, v: Var) -> Option<Rat> {
    if v.0 < solved.len() {
        solved[v.0 as int]
    } else {
        None
    }
}

/// The assignment `m` agrees with every value the table has fixed.
pub open spec fn agrees(m: VarAssign, solved: Seq<Option<Rat>>) -> bool {
    forall|i: int|
        0 <= i < solved.len() && (#[trigger] solved[i]) is Some ==> q_eq(
            m[i],
            solved[i].unwrap().q(),
        )
}

/// A copy of a term vector (the element type is `Copy`).
pub(crate) fn copy_terms(src: &Vec<(Rat, Var)>) -> (out: Vec<(Rat, Var)>)
    ensures
        out@ == src@,
{
    let mut out: Vec<(Rat, Var)> = Vec::new();
    let mut i: usize = 0;
    while i < src.len()
        invariant
            i <= src.len(),
            out@ == src@.take(i as int),
        decreases src.len() - i,
    {
        out.push(src[i]);
        proof {
            assert(out@ =~= src@.take(i as int + 1));
        }
        i += 1;
    }
    proof {
        assert(out@ =~= src@);
    }
    out
}

impl LinearExpr {
    /// The value of the expression under an assignment.
    pub open spec fn val(self, m: VarAssign) -> Q {
        q_add(terms_val(self.coeffs@, m), self.constant.q())
    }

    pub open spec fn wf(self) -> bool {
        self.constant.wf() && terms_wf(self.coeffs@)
    }

    /// The expression holds under `m`: its value is zero.
    pub open spec fn sat(self, m: VarAssign) -> bool {
        self.val(m).0 == 0
    }

    /// No term's variable is fixed by the table, no variable occurs twice,
    /// and no coefficient is zero: the form `simplify` establishes.
    pub open spec fn clean(self, solved: Seq<Option<Rat>>) -> bool {
        &&& forall|i: int|
            0 <= i < self.coeffs@.len() ==> table_lookup(solved, (#[trigger] self.coeffs@[i]).1)
                is None
        &&& forall|i: int, j: int|
            0 <= i < j < self.coeffs@.len() ==> (#[trigger] self.coeffs@[i]).1 != (
            #[trigger] self.coeffs@[j]).1
        &&& forall|i: int| 0 <= i < self.coeffs@.len() ==> (#[trigger] self.coeffs@[i]).0.num != 0
    }

    /// The constant expression `c`.
    pub fn from_const(c: Rat) -> (r: LinearExpr)
        requires
            c.wf(),
        ensures
            r.wf(),
            r.coeffs@.len() == 0,
            r.constant == c,
            forall|m: VarAssign| assign_wf(m) ==> q_eq(#[trigger] r.val(m), c.q()),
    {
        let r = LinearExpr { coeffs: Vec::new(), constant: c };
        proof {
            assert forall|m: VarAssign| assign_wf(m) implies q_eq(#[trigger] r.val(m), c.q()) by {
                lemma_q_add_zero(c.q());
            }
        }
        r
    }

    /// The expression `1 * v`.
    pub fn from_var(v: Var) -> (r: LinearExpr)
        ensures
            r.wf(),
            r.coeffs@.len() == 1,
            r.coeffs@[0] == (Rat { num: 1, den: 1 }, v),
            r.constant == (Rat { num: 0, den: 1 }),
            forall|m: VarAssign| assign_wf(m) ==> q_eq(#[trigger] r.val(m), m[v.0 as int]),
    {
        let one = Rat { num: 1i64, den: 1i64 };
        let mut coeffs: Vec<(Rat, Var)> = Vec::new();
        coeffs.push((one, v));
        let r = LinearExpr { coeffs, constant: Rat { num: 0, den: 1 } };
        proof {
            assert forall|m: VarAssign| assign_wf(m) implies q_eq(
                #[trigger] r.val(m),
                m[v.0 as int],
            ) by {
                let x = m[v.0 as int];
                assert(r.coeffs@.drop_last() =~= Seq::<(Rat, Var)>::empty());
                assert(terms_val(Seq::<(Rat, Var)>::empty(), m) == (0int, 1int));
                assert(r.coeffs@.last() == (one, v));
                assert(terms_val(r.coeffs@, m) == q_add((0int, 1int), q_mul((1int, 1int), x)));
                assert(q_mul((1int, 1int), x) == (1 * x.0, 1 * x.1));
                assert(1 * x.0 == x.0 && 1 * x.1 == x.1) by (nonlinear_arith);
                lemma_q_add_zero(x);
                lemma_q_add_wf((0int, 1int), x);
                lemma_q_add_zero(q_add((0int, 1int), x));
                lemma_q_eq_trans(r.val(m), q_add((0int, 1int), x), x);
            }
        }
        r
    }

    /// The sum of two expressions: terms concatenated, constants added.
    /// `None` when the constant sum does not fit.
    pub fn add_expr(&self, other: &LinearExpr) -> (r: Option<LinearExpr>)
        requires
            self.wf(),
            other.wf(),
        ensures
            r is Some ==> r.unwrap().wf() && r.unwrap().coeffs@ == self.coeffs@ + other.coeffs@
                && forall|m: VarAssign|
                assign_wf(m) ==> q_eq(
                    #[trigger] r.unwrap().val(m),
                    q_add(self.val(m), other.val(m)),
                ),
            self.constant.den == 1 && other.constant.den == 1 && -0x7fff_ffff_ffff_ffff
                <= self.constant.num + other.constant.num <= 0x7fff_ffff_ffff_ffff ==> r is Some
                && r.unwrap().constant.den == 1 && r.unwrap().constant.num as int
                == self.constant.num + other.constant.num,
    {
        match self.constant.add(&other.constant) {
            None => None,
            Some(c) => {
                let mut coeffs = copy_terms(&self.coeffs);
                let mut rest = copy_terms(&other.coeffs);
                coeffs.append(&mut rest);
                let r = LinearExpr { coeffs, constant: c };
                proof {
                    assert(r.coeffs@ == self.coeffs@ + other.coeffs@);
                    assert forall|m: VarAssign| assign_wf(m) implies q_eq(
                        #[trigger] r.val(m),
                        q_add(self.val(m), other.val(m)),
                    ) by {
                        lemma_terms_val_concat(self.coeffs@, other.coeffs@, m);
                        let t1 = terms_val(self.coeffs@, m);
                        let t2 = terms_val(other.coeffs@, m);
                        let tt = terms_val(r.coeffs@, m);
                        lemma_terms_val_wf(self.coeffs@, m);
                        lemma_terms_val_wf(other.coeffs@, m);
                        lemma_terms_val_wf(r.coeffs@, m);
                        lemma_q_add_wf(t1, t2);
                        lemma_q_add_wf(self.constant.q(), other.constant.q());
                        lemma_q_add_congr(tt, q_add(t1, t2), c.q(), q_add(
                            self.constant.q(),
                            other.constant.q(),
                        ));
                        lemma_q_add_exchange(t1, t2, self.constant.q(), other.constant.q());
                        lemma_q_add_wf(q_add(t1, t2), q_add(self.constant.q(), other.constant.q()));
                        lemma_q_add_wf(t1, self.constant.q());
                        lemma_q_add_wf(t2, other.constant.q());
                        lemma_q_add_wf(q_add(t1, self.constant.q()), q_add(
                            t2,
                            other.constant.q(),
                        ));
                        lemma_q_add_wf(tt, c.q());
                        lemma_q_eq_trans(
                            r.val(m),
                            q_add(q_add(t1, t2), q_add(self.constant.q(), other.constant.q())),
                            q_add(self.val(m), other.val(m)),
                        );
                    }
                }
                Some(r)
            },
        }
    }

    /// The expression scaled by `f`: every coefficient and the constant
    /// multiplied by `f`.  `None` when a product does not fit.
    pub fn scale(&self, f: &Rat) -> (r: Option<LinearExpr>)
        requires
            self.wf(),
            f.wf(),
        ensures
            r is Some ==> {
                let e = r.unwrap();
                &&& e.wf()
                &&& e.coeffs@.len() == self.coeffs@.len()
                &&& forall|i: int|
                    0 <= i < e.coeffs@.len() ==> (#[trigger] e.coeffs@[i]).1 == self.coeffs@[i].1
                &&& forall|m: VarAssign|
                    assign_wf(m) ==> q_eq(#[trigger] e.val(m), q_mul(f.q(), self.val(m)))
            },
            f.den == 1 && self.constant.den == 1 && -0x7fff_ffff_ffff_ffff <= self.constant.num
                * f.num <= 0x7fff_ffff_ffff_ffff && (forall|t: int|
                0 <= t < self.coeffs@.len() ==> (#[trigger] self.coeffs@[t]).0.den == 1
                    && -0x7fff_ffff_ffff_ffff <= f.num * self.coeffs@[t].0.num
                    <= 0x7fff_ffff_ffff_ffff) ==> r is Some && r.unwrap().constant.den == 1
                && r.unwrap().constant.num as int == self.constant.num * f.num,
    {
        let mut coeffs: Vec<(Rat, Var)> = Vec::new();
        let n = self.coeffs.len();
        let mut idx: usize = 0;
        while idx < n
            invariant
                idx <= n,
                n == self.coeffs@.len(),
                self.wf(),
                f.wf(),
                coeffs@.len() == idx,
                forall|i: int| 0 <= i < idx ==> (#[trigger] coeffs@[i]).0.wf(),
                forall|i: int| 0 <= i < idx ==> (#[trigger] coeffs@[i]).1 == self.coeffs@[i].1,
                forall|i: int|
                    0 <= i < idx ==> q_eq(
                        (#[trigger] coeffs@[i]).0.q(),
                        q_mul(f.q(), self.coeffs@[i].0.q()),
                    ),
            decreases n - idx,
        {
            let (c, v) = self.coeffs[idx];
            match f.mul(&c) {
                None => {
                    return None;
                },
                Some(fc) => {
                    proof {
                        crate::rat::lemma_q_mul_comm(f.q(), c.q());
                    }
                    coeffs.push((fc, v));
                },
            }
            idx += 1;
        }
        match self.constant.mul(f) {
            None => None,
            Some(fc) => {
                proof {
                    crate::rat::lemma_q_mul_comm(self.constant.q(), f.q());
                }
                let r = LinearExpr { coeffs, constant: fc };
                proof {
                    assert forall|m: VarAssign| assign_wf(m) implies q_eq(
                        #[trigger] r.val(m),
                        q_mul(f.q(), self.val(m)),
                    ) by {
                        lemma_terms_val_scale(self.coeffs@, r.coeffs@, f.q(), m);
                        let t1 = terms_val(self.coeffs@, m);
                        let t2 = terms_val(r.coeffs@, m);
                        lemma_terms_val_wf(self.coeffs@, m);
                        lemma_terms_val_wf(r.coeffs@, m);
                        lemma_q_add_wf(t1, self.constant.q());
                        lemma_q_add_wf(t2, fc.q());
                        lemma_q_add_wf(f.q(), t1);
                        lemma_q_add_wf(f.q(), self.constant.q());
                        lemma_q_mul_distrib(f.q(), t1, self.constant.q());
                        lemma_q_add_congr(t2, q_mul(f.q(), t1), fc.q(), q_mul(
                            f.q(),
                            self.constant.q(),
                        ));
                        lemma_q_add_wf(q_mul(f.q(), t1), q_mul(f.q(), self.constant.q()));
                        lemma_q_add_wf(f.q(), q_add(t1, self.constant.q()));
                        lemma_q_eq_sym(
                            q_mul(f.q(), q_add(t1, self.constant.q())),
                            q_add(q_mul(f.q(), t1), q_mul(f.q(), self.constant.q())),
                        );
                        lemma_q_eq_trans(
                            r.val(m),
                            q_add(q_mul(f.q(), t1), q_mul(f.q(), self.constant.q())),
                            q_mul(f.q(), self.val(m)),
                        );
                    }
                }
                Some(r)
            },
        }
    }

    /// The difference of two expressions.
    pub fn sub_expr(&self, other: &LinearExpr) -> (r: Option<LinearExpr>)
        requires
            self.wf(),
            other.wf(),
        ensures
            r is Some ==> r.unwrap().wf() && (forall|m: VarAssign|
                assign_wf(m) ==> q_eq(
                    #[trigger] r.unwrap().val(m),
                    q_add(self.val(m), q_mul((-1int, 1int), other.val(m))),
                )) && (forall|t: int|
                0 <= t < r.unwrap().coeffs@.len() ==> has_var(
                    self.coeffs@,
                    (#[trigger] r.unwrap().coeffs@[t]).1,
                ) || has_var(other.coeffs@, r.unwrap().coeffs@[t].1)),
            self.constant.den == 1 && other.constant.den == 1 && other.constant.num > i64::MIN
                && -0x7fff_ffff_ffff_ffff <= self.constant.num - other.constant.num
                <= 0x7fff_ffff_ffff_ffff && (forall|t: int|
                0 <= t < other.coeffs@.len() ==> (#[trigger] other.coeffs@[t]).0.den == 1
                    && other.coeffs@[t].0.num > i64::MIN) ==> r is Some,
    {
        let minus_one = Rat { num: -1i64, den: 1i64 };
        proof {
            if self.constant.den == 1 && other.constant.den == 1 && other.constant.num > i64::MIN
                && -0x7fff_ffff_ffff_ffff <= self.constant.num - other.constant.num
                <= 0x7fff_ffff_ffff_ffff && (forall|t: int|
                0 <= t < other.coeffs@.len() ==> (#[trigger] other.coeffs@[t]).0.den == 1
                    && other.coeffs@[t].0.num > i64::MIN) {
                assert forall|t: int| 0 <= t < other.coeffs@.len() implies (
                #[trigger] other.coeffs@[t]).0.den == 1 && -0x7fff_ffff_ffff_ffff
                    <= minus_one.num * other.coeffs@[t].0.num <= 0x7fff_ffff_ffff_ffff by {
                    assert(other.coeffs@[t].0.num > i64::MIN);
                    assert(minus_one.num * other.coeffs@[t].0.num == -(other.coeffs@[t].0.num
                        as int)) by (nonlinear_arith)
                        requires
                            minus_one.num == -1,
                    ;
                }
                assert(other.constant.num * (minus_one.num as int) == -(other.constant.num
                    as int)) by (nonlinear_arith)
                    requires
                        minus_one.num == -1,
                ;
            }
        }
        match other.scale(&minus_one) {
            None => None,
            Some(neg) => {
                proof {
                    if neg.constant.den == 1 && other.constant.den == 1 && neg.constant.num as int
                        == other.constant.num * (minus_one.num as int) {
                        assert(other.constant.num * (minus_one.num as int) == -(other.constant.num
                            as int)) by (nonlinear_arith)
                            requires
                                minus_one.num == -1,
                        ;
                    }
                }
                let r = self.add_expr(&neg);
                proof {
                    if r is Some {
                        let e = r.unwrap();
                        assert forall|t: int| 0 <= t < e.coeffs@.len() implies has_var(
                            self.coeffs@,
                            (#[trigger] e.coeffs@[t]).1,
                        ) || has_var(other.coeffs@, e.coeffs@[t].1) by {
                            assert(e.coeffs@ == self.coeffs@ + neg.coeffs@);
                            if t < self.coeffs@.len() {
                                assert(e.coeffs@[t] == self.coeffs@[t]);
                            } else {
                                let t2 = t - self.coeffs@.len();
                                assert(e.coeffs@[t] == neg.coeffs@[t2]);
                                assert(neg.coeffs@[t2].1 == other.coeffs@[t2].1);
                            }
                        }
                        assert forall|m: VarAssign| assign_wf(m) implies q_eq(
                            #[trigger] e.val(m),
                            q_add(self.val(m), q_mul((-1int, 1int), other.val(m))),
                        ) by {
                            lemma_terms_val_wf(self.coeffs@, m);
                            lemma_terms_val_wf(other.coeffs@, m);
                            lemma_terms_val_wf(neg.coeffs@, m);
                            lemma_terms_val_wf(e.coeffs@, m);
                            lemma_q_add_wf(terms_val(self.coeffs@, m), self.constant.q());
                            lemma_q_add_wf(terms_val(other.coeffs@, m), other.constant.q());
                            lemma_q_add_wf(terms_val(neg.coeffs@, m), neg.constant.q());
                            lemma_q_add_wf(terms_val(e.coeffs@, m), e.constant.q());
                            lemma_q_add_wf((-1int, 1int), other.val(m));
                            lemma_q_add_congr(
                                self.val(m),
                                self.val(m),
                                neg.val(m),
                                q_mul((-1int, 1int), other.val(m)),
                            );
                            lemma_q_add_wf(self.val(m), neg.val(m));
                            lemma_q_add_wf(self.val(m), q_mul((-1int, 1int), other.val(m)));
                            lemma_q_eq_trans(
                                e.val(m),
                                q_add(self.val(m), neg.val(m)),
                                q_add(self.val(m), q_mul((-1int, 1int), other.val(m))),
                            );
                        }
                    }
                }
                r
            },
        }
    }
}

/// The value of a term sequence is a well-formed rational.
pub proof fn lemma_terms_val_wf(terms: Seq<(Rat, Var)>, m: VarAssign)
    requires
        terms_wf(terms),
        assign_wf(m),
    ensures
        q_wf(terms_val(terms, m)),
    decreases terms.len(),
{
    if terms.len() > 0 {
        lemma_terms_val_wf(terms.drop_last(), m);
        let last = terms.last();
        lemma_q_add_wf(last.0.q(), m[last.1.0 as int]);
        lemma_q_add_wf(terms_val(terms.drop_last(), m), q_mul(last.0.q(), m[last.1.0 as int]));
    }
}

/// Concatenating term sequences adds their values.
pub proof fn lemma_terms_val_concat(s1: Seq<(Rat, Var)>, s2: Seq<(Rat, Var)>, m: VarAssign)
    requires
        terms_wf(s1),
        terms_wf(s2),
        assign_wf(m),
    ensures
        q_eq(terms_val(s1 + s2, m), q_add(terms_val(s1, m), terms_val(s2, m))),
    decreases s2.len(),
{
    lemma_terms_val_wf(s1, m);
    lemma_terms_val_wf(s2, m);
    if s2.len() == 0 {
        assert(s1 + s2 =~= s1);
        lemma_q_add_zero(terms_val(s1, m));
        lemma_q_eq_sym(q_add(terms_val(s1, m), (0int, 1int)), terms_val(s1, m));
    } else {
        let s = s1 + s2;
        assert(s.drop_last() =~= s1 + s2.drop_last());
        assert(s.last() == s2.last());
        assert(terms_wf(s2.drop_last()));
        lemma_terms_val_concat(s1, s2.drop_last(), m);
        let t1 = terms_val(s1, m);
        let t2d = terms_val(s2.drop_last(), m);
        let last = s2.last();
        let lastq = q_mul(last.0.q(), m[last.1.0 as int]);
        lemma_terms_val_wf(s2.drop_last(), m);
        lemma_terms_val_wf(s.drop_last(), m);
        lemma_q_add_wf(last.0.q(), m[last.1.0 as int]);
        // terms_val(s) = terms_val(s.drop_last()) + lastq
        //             ~ (t1 + t2d) + lastq            (IH + congruence)
        //             ~ t1 + (t2d + lastq)            (associativity)
        //             = t1 + terms_val(s2)
        lemma_q_add_wf(t1, t2d);
        lemma_q_add_congr(terms_val(s.drop_last(), m), q_add(t1, t2d), lastq, lastq);
        lemma_q_add_assoc(t1, t2d, lastq);
        lemma_q_add_wf(terms_val(s.drop_last(), m), lastq);
        lemma_q_add_wf(q_add(t1, t2d), lastq);
        lemma_q_add_wf(t2d, lastq);
        lemma_q_add_wf(t1, q_add(t2d, lastq));
        lemma_q_eq_trans(
            terms_val(s, m),
            q_add(q_add(t1, t2d), lastq),
            q_add(t1, q_add(t2d, lastq)),
        );
    }
}

/// Scaling every coefficient by `f` scales the value by `f`.
pub proof fn lemma_terms_val_scale(s: Seq<(Rat, Var)>, s2: Seq<(Rat, Var)>, f: Q, m: VarAssign)
    requires
        terms_wf(s),
        terms_wf(s2),
        assign_wf(m),
        q_wf(f),
        s2.len() == s.len(),
        forall|i: int| 0 <= i < s.len() ==> (#[trigger] s2[i]).1 == s[i].1,
        forall|i: int| 0 <= i < s.len() ==> q_eq((#[trigger] s2[i]).0.q(), q_mul(f, s[i].0.q())),
    ensures
        q_eq(terms_val(s2, m), q_mul(f, terms_val(s, m))),
    decreases s.len(),
{
    lemma_terms_val_wf(s, m);
    lemma_terms_val_wf(s2, m);
    if s.len() == 0 {
        assert(terms_val(s, m) == (0int, 1int));
        assert(terms_val(s2, m) == (0int, 1int));
        assert(q_eq((0int, 1int), q_mul(f, (0int, 1int)))) by (nonlinear_arith);
    } else {
        assert(terms_wf(s.drop_last()));
        assert(terms_wf(s2.drop_last()));
        assert(forall|i: int|
            0 <= i < s.drop_last().len() ==> (#[trigger] s2.drop_last()[i]).1
                == s.drop_last()[i].1);
        assert(forall|i: int|
            0 <= i < s.drop_last().len() ==> q_eq(
                (#[trigger] s2.drop_last()[i]).0.q(),
                q_mul(f, s.drop_last()[i].0.q()),
            ));
        lemma_terms_val_scale(s.drop_last(), s2.drop_last(), f, m);
        let td = terms_val(s.drop_last(), m);
        let td2 = terms_val(s2.drop_last(), m);
        let last = s.last();
        let last2 = s2.last();
        let x = m[last.1.0 as int];
        assert(last2.1 == last.1);
        // last2's term ~ f * (last's term)
        lemma_q_add_wf(f, last.0.q());
        lemma_q_mul_congr(last2.0.q(), q_mul(f, last.0.q()), x, x);
        lemma_q_mul_assoc(f, last.0.q(), x);
        lemma_q_add_wf(last.0.q(), x);
        lemma_q_add_wf(last2.0.q(), x);
        lemma_q_add_wf(q_mul(f, last.0.q()), x);
        lemma_q_add_wf(f, q_mul(last.0.q(), x));
        lemma_q_eq_trans(
            q_mul(last2.0.q(), x),
            q_mul(q_mul(f, last.0.q()), x),
            q_mul(f, q_mul(last.0.q(), x)),
        );
        // combine with the induction hypothesis
        lemma_terms_val_wf(s.drop_last(), m);
        lemma_terms_val_wf(s2.drop_last(), m);
        lemma_q_add_wf(f, td);
        lemma_q_add_congr(td2, q_mul(f, td), q_mul(last2.0.q(), x), q_mul(
            f,
            q_mul(last.0.q(), x),
        ));
        lemma_q_mul_distrib(f, td, q_mul(last.0.q(), x));
        lemma_q_add_wf(td, q_mul(last.0.q(), x));
        lemma_q_add_wf(td2, q_mul(last2.0.q(), x));
        lemma_q_add_wf(q_mul(f, td), q_mul(f, q_mul(last.0.q(), x)));
        lemma_q_add_wf(f, q_add(td, q_mul(last.0.q(), x)));
        lemma_q_eq_sym(
            q_mul(f, q_add(td, q_mul(last.0.q(), x))),
            q_add(q_mul(f, td), q_mul(f, q_mul(last.0.q(), x))),
        );
        lemma_q_eq_trans(
            terms_val(s2, m),
            q_add(q_mul(f, td), q_mul(f, q_mul(last.0.q(), x))),
            q_mul(f, terms_val(s, m)),
        );
    }
}


/// The index of `v` in a term vector, if present.
pub(crate) fn find_var(out: &Vec<(Rat, Var)>, v: Var) -> (r: Option<usize>)
    ensures
        match r {
            Some(j) => j < out@.len() && out@[j as int].1 == v,
            None => !has_var(out@, v),
        },
{
    let mut j: usize = 0;
    while j < out.len()
        invariant
            j <= out@.len(),
            forall|i: int| 0 <= i < j ==> (#[trigger] out@[i]).1 != v,
        decreases out@.len() - j,
    {
        if out[j].1 == v {
            return Some(j);
        }
        j += 1;
    }
    None
}

/// Updating a term's coefficient by adding `c2` adds `c2 * value(v)` to the
/// sequence value.
proof fn lemma_terms_val_update(s: Seq<(Rat, Var)>, j: int, cn: Rat, c2: Rat, m: VarAssign)
    requires
        terms_wf(s),
        assign_wf(m),
        0 <= j < s.len(),
        cn.wf(),
        c2.wf(),
        q_eq(cn.q(), q_add(s[j].0.q(), c2.q())),
    ensures
        q_eq(
            terms_val(s.update(j, (cn, s[j].1)), m),
            q_add(terms_val(s, m), q_mul(c2.q(), m[s[j].1.0 as int])),
        ),
    decreases s.len(),
{
    let v = s[j].1;
    let x = m[v.0 as int];
    let s2 = s.update(j, (cn, v));
    let c2x = q_mul(c2.q(), x);
    assert(terms_wf(s2));
    lemma_terms_val_wf(s, m);
    lemma_terms_val_wf(s2, m);
    lemma_q_add_wf(c2.q(), x);
    if j == s.len() - 1 {
        assert(s2.drop_last() =~= s.drop_last());
        let td = terms_val(s.drop_last(), m);
        let co = s[j].0;
        assert(terms_wf(s.drop_last()));
        lemma_terms_val_wf(s.drop_last(), m);
        lemma_q_add_wf(co.q(), c2.q());
        lemma_q_add_wf(co.q(), x);
        lemma_q_add_wf(cn.q(), x);
        // cn * x ~ (co + c2) * x ~ co * x + c2 * x
        lemma_q_mul_congr(cn.q(), q_add(co.q(), c2.q()), x, x);
        lemma_q_mul_distrib_right(co.q(), c2.q(), x);
        lemma_q_add_wf(q_add(co.q(), c2.q()), x);
        lemma_q_add_wf(q_mul(co.q(), x), c2x);
        lemma_q_eq_trans(
            q_mul(cn.q(), x),
            q_mul(q_add(co.q(), c2.q()), x),
            q_add(q_mul(co.q(), x), c2x),
        );
        // tv(s2) = td + cn*x ~ td + (co*x + c2*x) ~ (td + co*x) + c2*x = tv(s) + c2*x
        lemma_q_add_congr(td, td, q_mul(cn.q(), x), q_add(q_mul(co.q(), x), c2x));
        lemma_q_add_assoc(td, q_mul(co.q(), x), c2x);
        lemma_q_eq_sym(
            q_add(q_add(td, q_mul(co.q(), x)), c2x),
            q_add(td, q_add(q_mul(co.q(), x), c2x)),
        );
        lemma_q_add_wf(td, q_mul(cn.q(), x));
        lemma_q_add_wf(td, q_add(q_mul(co.q(), x), c2x));
        lemma_q_add_wf(q_add(td, q_mul(co.q(), x)), c2x);
        lemma_q_eq_trans(
            terms_val(s2, m),
            q_add(td, q_add(q_mul(co.q(), x), c2x)),
            q_add(terms_val(s, m), c2x),
        );
    } else {
        assert(s2.drop_last() =~= s.drop_last().update(j, (cn, v)));
        assert(s2.last() == s.last());
        assert(terms_wf(s.drop_last()));
        assert(s.drop_last()[j] == s[j]);
        lemma_terms_val_update(s.drop_last(), j, cn, c2, m);
        let td = terms_val(s.drop_last(), m);
        let td2 = terms_val(s2.drop_last(), m);
        let last = s.last();
        let lastq = q_mul(last.0.q(), m[last.1.0 as int]);
        lemma_terms_val_wf(s.drop_last(), m);
        lemma_terms_val_wf(s2.drop_last(), m);
        lemma_q_add_wf(last.0.q(), m[last.1.0 as int]);
        // tv(s2) = td2 + last ~ (td + c2x) + last ~ (td + last) + c2x = tv(s) + c2x
        lemma_q_add_wf(td, c2x);
        lemma_q_add_wf(last.0.q(), m[last.1.0 as int]);
        lemma_q_add_congr(td2, q_add(td, c2x), lastq, lastq);
        lemma_q_add_swap_right(td, c2x, lastq);
        lemma_q_add_wf(td, c2x);
        lemma_q_add_wf(td2, lastq);
        lemma_q_add_wf(q_add(td, c2x), lastq);
        lemma_q_add_wf(td, lastq);
        lemma_q_add_wf(q_add(td, lastq), c2x);
        lemma_q_eq_trans(
            terms_val(s2, m),
            q_add(q_add(td, c2x), lastq),
            q_add(q_add(td, lastq), c2x),
        );
    }
}

/// Both the output and the processed prefix grew by the same term.
proof fn lemma_step_same_term(
    t_out: Q,
    t_out2: Q,
    t_take: Q,
    t_take2: Q,
    kq: Q,
    constq: Q,
    term: Q,
)
    requires
        q_wf(t_out),
        q_wf(t_out2),
        q_wf(t_take),
        q_wf(t_take2),
        q_wf(kq),
        q_wf(constq),
        q_wf(term),
        q_eq(t_out2, q_add(t_out, term)),
        q_eq(t_take2, q_add(t_take, term)),
        q_eq(q_add(t_out, kq), q_add(t_take, constq)),
    ensures
        q_eq(q_add(t_out2, kq), q_add(t_take2, constq)),
{
    lemma_q_add_wf(t_out, term);
    lemma_q_add_wf(t_take, term);
    lemma_q_add_wf(t_out, kq);
    lemma_q_add_wf(t_take, constq);
    lemma_q_add_wf(t_out2, kq);
    lemma_q_add_wf(t_take2, constq);
    lemma_q_add_wf(q_add(t_out, term), kq);
    lemma_q_add_wf(q_add(t_out, kq), term);
    lemma_q_add_wf(q_add(t_take, constq), term);
    lemma_q_add_wf(q_add(t_take, term), constq);
    lemma_q_add_congr(t_out2, q_add(t_out, term), kq, kq);
    lemma_q_add_swap_right(t_out, term, kq);
    lemma_q_eq_trans(q_add(t_out2, kq), q_add(q_add(t_out, term), kq), q_add(
        q_add(t_out, kq),
        term,
    ));
    lemma_q_add_congr(q_add(t_out, kq), q_add(t_take, constq), term, term);
    lemma_q_eq_trans(q_add(t_out2, kq), q_add(q_add(t_out, kq), term), q_add(
        q_add(t_take, constq),
        term,
    ));
    lemma_q_add_swap_right(t_take, constq, term);
    lemma_q_eq_trans(q_add(t_out2, kq), q_add(q_add(t_take, constq), term), q_add(
        q_add(t_take, term),
        constq,
    ));
    lemma_q_eq_sym(t_take2, q_add(t_take, term));
    lemma_q_add_congr(q_add(t_take, term), t_take2, constq, constq);
    lemma_q_eq_trans(q_add(t_out2, kq), q_add(q_add(t_take, term), constq), q_add(
        t_take2,
        constq,
    ));
}

/// The processed prefix grew by a term which was folded into the constant.
proof fn lemma_step_fold_const(
    t_out: Q,
    t_take: Q,
    t_take2: Q,
    kq: Q,
    kq2: Q,
    constq: Q,
    term: Q,
)
    requires
        q_wf(t_out),
        q_wf(t_take),
        q_wf(t_take2),
        q_wf(kq),
        q_wf(kq2),
        q_wf(constq),
        q_wf(term),
        q_eq(kq2, q_add(kq, term)),
        q_eq(t_take2, q_add(t_take, term)),
        q_eq(q_add(t_out, kq), q_add(t_take, constq)),
    ensures
        q_eq(q_add(t_out, kq2), q_add(t_take2, constq)),
{
    lemma_q_add_wf(kq, term);
    lemma_q_add_wf(t_take, term);
    lemma_q_add_wf(t_out, kq);
    lemma_q_add_wf(t_take, constq);
    lemma_q_add_wf(t_out, kq2);
    lemma_q_add_wf(t_take2, constq);
    lemma_q_add_wf(t_out, q_add(kq, term));
    lemma_q_add_wf(q_add(t_out, kq), term);
    lemma_q_add_wf(q_add(t_take, constq), term);
    lemma_q_add_wf(q_add(t_take, term), constq);
    lemma_q_add_congr(t_out, t_out, kq2, q_add(kq, term));
    lemma_q_add_assoc(t_out, kq, term);
    lemma_q_eq_sym(q_add(q_add(t_out, kq), term), q_add(t_out, q_add(kq, term)));
    lemma_q_eq_trans(q_add(t_out, kq2), q_add(t_out, q_add(kq, term)), q_add(
        q_add(t_out, kq),
        term,
    ));
    lemma_q_add_congr(q_add(t_out, kq), q_add(t_take, constq), term, term);
    lemma_q_eq_trans(q_add(t_out, kq2), q_add(q_add(t_out, kq), term), q_add(
        q_add(t_take, constq),
        term,
    ));
    lemma_q_add_swap_right(t_take, constq, term);
    lemma_q_eq_trans(q_add(t_out, kq2), q_add(q_add(t_take, constq), term), q_add(
        q_add(t_take, term),
        constq,
    ));
    lemma_q_eq_sym(t_take2, q_add(t_take, term));
    lemma_q_add_congr(q_add(t_take, term), t_take2, constq, constq);
    lemma_q_eq_trans(q_add(t_out, kq2), q_add(q_add(t_take, term), constq), q_add(
        t_take2,
        constq,
    ));
}


/// A registration-friendly expression over the given table: at most 4096
/// unit (plus or minus one) coefficients, and an integer constant and
/// integer solved values of magnitude at most 2^50.  Folding such an
/// expression stays comfortably inside the `i64` range.
pub open spec fn reg_small(expr: LinearExpr, table: Seq<Option<Rat>>) -> bool {
    &&& expr.coeffs@.len() <= 0x1000
    &&& expr.constant.den == 1
    &&& -0x4_0000_0000_0000 <= expr.constant.num <= 0x4_0000_0000_0000
    &&& (forall|t: int|
        0 <= t < expr.coeffs@.len() ==> {
            let c = (#[trigger] expr.coeffs@[t]).0;
            &&& c.den == 1
            &&& (c.num == 1 || c.num == -1)
        })
    &&& (forall|t: int|
        0 <= t < expr.coeffs@.len() && table_lookup(
            table,
            (#[trigger] expr.coeffs@[t]).1,
        ) is Some ==> {
            let v = table_lookup(table, expr.coeffs@[t].1).unwrap();
            &&& v.den == 1
            &&& -0x4_0000_0000_0000 <= v.num <= 0x4_0000_0000_0000
        })
}

/// Some term of `folded` is exactly term `t` of `orig`.
pub open spec fn term_kept(folded: LinearExpr, orig: LinearExpr, t: int) -> bool {
    exists|t3: int|
        0 <= t3 < folded.coeffs@.len() && #[trigger] folded.coeffs@[t3] == orig.coeffs@[t]
}

/// Term `t` of `e` is free (unsolved), has a non-zero coefficient, and its
/// variable occurs nowhere else in `e`.
pub open spec fn lone_term(e: LinearExpr, table: Seq<Option<Rat>>, t: int) -> bool {
    &&& 0 <= t < e.coeffs@.len()
    &&& table_lookup(table, e.coeffs@[t].1) is None
    &&& e.coeffs@[t].0.num != 0
    &&& (forall|t2: int|
        0 <= t2 < e.coeffs@.len() && t2 != t ==> (#[trigger] e.coeffs@[t2]).1 != e.coeffs@[t].1)
}

/// The invariant of `simplify`'s merge pass: `out` plus `konst` has the same
/// value as the processed prefix of `orig` plus its constant, under every
/// assignment that agrees with the solved table.
pub open spec fn merge_inv(
    orig: LinearExpr,
    solved: Seq<Option<Rat>>,
    out: Seq<(Rat, Var)>,
    konst: Rat,
    idx: int,
) -> bool {
    &&& konst.wf()
    &&& terms_wf(out)
    &&& forall|i: int, j: int| 0 <= i < j < out.len() ==> (#[trigger] out[i]).1 != (#[trigger] out[j]).1
    &&& forall|i: int| 0 <= i < out.len() ==> table_lookup(solved, (#[trigger] out[i]).1) is None
    &&& forall|i: int| 0 <= i < out.len() ==> has_var(orig.coeffs@, (#[trigger] out[i]).1)
    &&& forall|m: VarAssign|
        assign_wf(m) && agrees(m, solved) ==> q_eq(
            q_add(#[trigger] terms_val(out, m), konst.q()),
            q_add(terms_val(orig.coeffs@.take(idx), m), orig.constant.q()),
        )
}

impl LinearExpr {
    /// Fold every variable the table has solved into the constant, merge
    /// duplicate terms and drop zero coefficients.  The result has the same
    /// value as `self` under every assignment that agrees with the table,
    /// and is already in that folded form ("clean"); simplifying a clean
    /// expression returns it unchanged, so a second pass is a no-op.
    /// `None` when a fold or merge overflows the rational range.
    pub fn simplify(&self, solved: &Vec<Option<Rat>>) -> (r: Option<LinearExpr>)
        requires
            self.wf(),
            table_wf(solved@),
        ensures
            r is Some ==> {
                let e = r.unwrap();
                &&& e.wf()
                &&& e.clean(solved@)
                &&& forall|m: VarAssign|
                    assign_wf(m) && agrees(m, solved@) ==> q_eq(#[trigger] e.val(m), self.val(m))
                &&& forall|i: int|
                    0 <= i < e.coeffs@.len() ==> has_var(self.coeffs@, (#[trigger] e.coeffs@[i]).1)
                &&& (self.clean(solved@) ==> e.coeffs@ == self.coeffs@ && e.constant
                    == self.constant)
            },
            self.clean(solved@) ==> r is Some,
            // a registration-friendly expression always folds, to unit-range
            // merged coefficients and a representable integer constant
            reg_small(*self, solved@) ==> r is Some && r.unwrap().constant.den == 1
                && -0x7fff_ffff_ffff_ffff <= r.unwrap().constant.num <= 0x7fff_ffff_ffff_ffff
                && (forall|t: int|
                0 <= t < r.unwrap().coeffs@.len() ==> (#[trigger] r.unwrap().coeffs@[t]).0.den
                    == 1 && -0x1000 <= r.unwrap().coeffs@[t].0.num <= 0x1000),
            // a term whose variable is unsolved and occurs exactly once
            // survives the fold untouched
            r is Some ==> forall|t: int|
                #[trigger] lone_term(*self, solved@, t) ==> term_kept(r.unwrap(), *self, t),
    {
        let mut out: Vec<(Rat, Var)> = Vec::new();
        let mut konst: Rat = self.constant;
        let n = self.coeffs.len();
        let mut idx: usize = 0;
        while idx < n
            invariant
                idx <= n,
                n == self.coeffs@.len(),
                self.wf(),
                table_wf(solved@),
                merge_inv(*self, solved@, out@, konst, idx as int),
                self.clean(solved@) ==> out@ == self.coeffs@.take(idx as int) && konst
                    == self.constant,
                reg_small(*self, solved@) ==> konst.den == 1 && -0x4_0000_0000_0000 * (idx as int
                    + 1) <= konst.num <= 0x4_0000_0000_0000 * (idx as int + 1),
                reg_small(*self, solved@) ==> forall|j: int|
                    0 <= j < out@.len() ==> (#[trigger] out@[j]).0.den == 1 && -(idx as int)
                        <= out@[j].0.num <= idx as int,
                forall|t: int|
                    0 <= t < idx && #[trigger] lone_term(*self, solved@, t) ==> exists|j: int|
                        0 <= j < out@.len() && #[trigger] out@[j] == self.coeffs@[t],
                forall|j: int|
                    0 <= j < out@.len() ==> has_var(
                        self.coeffs@.take(idx as int),
                        (#[trigger] out@[j]).1,
                    ),
            decreases n - idx,
        {
            let (c, v) = self.coeffs[idx];
            proof {
                if reg_small(*self, solved@) {
                    assert(0x4_0000_0000_0000 * (idx as int + 2) <= 0x7fff_ffff_ffff_ffff)
                        by (nonlinear_arith)
                        requires
                            idx as int + 2 <= 0x1001,
                    ;
                    assert(0x4_0000_0000_0000 * (idx as int + 2) == 0x4_0000_0000_0000 * (
                    idx as int + 1) + 0x4_0000_0000_0000) by (nonlinear_arith);
                }
            }
            let ghost prev_out = out@;
            let ghost prev_konst = konst;
            let ghost take_prev = self.coeffs@.take(idx as int);
            let ghost take_next = self.coeffs@.take(idx as int + 1);
            proof {
                assert(take_next.drop_last() =~= take_prev);
                assert(take_next.last() == (c, v));
                assert(terms_wf(take_prev));
                assert(terms_wf(take_next));
            }
            let mut solved_val: Option<Rat> = None;
            if v.0 < solved.len() as u64 {
                solved_val = solved[v.0 as usize];
            }
            match solved_val {
                Some(sv) => {
                    // the variable is solved: fold c * value into the constant
                    proof {
                        if self.clean(solved@) {
                            assert(table_lookup(solved@, (#[trigger] self.coeffs@[idx as int]).1)
                                is None);
                            assert(false);
                        }
                        if reg_small(*self, solved@) {
                            assert(table_lookup(solved@, self.coeffs@[idx as int].1)
                                == Some(sv));
                            assert(c.num * sv.num == sv.num || c.num * sv.num == -(sv.num
                                as int)) by (nonlinear_arith)
                                requires
                                    c.num == 1 || c.num == -1,
                            ;
                        }
                    }
                    let prod = match c.mul(&sv) {
                        None => {
                            return None;
                        },
                        Some(p) => p,
                    };
                    let knew = match konst.add(&prod) {
                        None => {
                            return None;
                        },
                        Some(k) => k,
                    };
                    proof {
                        assert(table_lookup(solved@, v) == Some(sv));
                        assert forall|m: VarAssign| assign_wf(m) && agrees(m, solved@) implies
                            q_eq(
                            q_add(#[trigger] terms_val(out@, m), knew.q()),
                            q_add(terms_val(take_next, m), self.constant.q()),
                        ) by {
                            let x = m[v.0 as int];
                            let term = q_mul(c.q(), x);
                            lemma_terms_val_wf(out@, m);
                            lemma_terms_val_wf(take_prev, m);
                            lemma_terms_val_wf(take_next, m);
                            // m agrees with the table, so x ~ sv and the
                            // folded product matches the dropped term
                            assert(q_eq(x, sv.q()));
                            lemma_q_mul_congr(c.q(), c.q(), x, sv.q());
                            lemma_q_add_wf(c.q(), x);
                            lemma_q_add_wf(c.q(), sv.q());
                            lemma_q_eq_sym(prod.q(), q_mul(c.q(), sv.q()));
                            lemma_q_eq_sym(q_mul(c.q(), x), q_mul(c.q(), sv.q()));
                            lemma_q_eq_trans(prod.q(), q_mul(c.q(), sv.q()), q_mul(c.q(), x));
                            lemma_q_eq_sym(prod.q(), term);
                            lemma_q_add_congr(konst.q(), konst.q(), prod.q(), term);
                            lemma_q_add_wf(konst.q(), prod.q());
                            lemma_q_add_wf(konst.q(), term);
                            lemma_q_eq_trans(knew.q(), q_add(konst.q(), prod.q()), q_add(
                                konst.q(),
                                term,
                            ));
                            lemma_step_fold_const(
                                terms_val(out@, m),
                                terms_val(take_prev, m),
                                terms_val(take_next, m),
                                konst.q(),
                                knew.q(),
                                self.constant.q(),
                                term,
                            );
                        }
                    }
                    proof {
                        if reg_small(*self, solved@) {
                            assert(knew.den == 1);
                        }
                        assert forall|t: int|
                            0 <= t < idx + 1 && #[trigger] lone_term(*self, solved@, t) implies
                            exists|j: int|
                                0 <= j < out@.len() && #[trigger] out@[j] == self.coeffs@[t] by {
                            if t == idx {
                                // a solved variable is not a lone free term
                                assert(false);
                            }
                        }
                        assert forall|j2: int| 0 <= j2 < out@.len() implies has_var(
                            self.coeffs@.take(idx as int + 1),
                            (#[trigger] out@[j2]).1,
                        ) by {
                            let w = out@[j2].1;
                            let t0 = choose|t0: int|
                                0 <= t0 < self.coeffs@.take(idx as int).len() && (
                                #[trigger] self.coeffs@.take(idx as int)[t0]).1 == w;
                            assert(self.coeffs@.take(idx as int + 1)[t0].1 == w);
                        }
                    }
                    konst = knew;
                },
                None => {
                    match find_var(&out, v) {
                        None => {
                            let ghost out_next = out@.push((c, v));
                            out.push((c, v));
                            proof {
                                assert(out@ =~= out_next);
                                assert(out@.drop_last() =~= prev_out);
                                assert(out@.last() == (c, v));
                                assert forall|m: VarAssign|
                                    assign_wf(m) && agrees(m, solved@) implies q_eq(
                                    q_add(#[trigger] terms_val(out@, m), konst.q()),
                                    q_add(terms_val(take_next, m), self.constant.q()),
                                ) by {
                                    let x = m[v.0 as int];
                                    let term = q_mul(c.q(), x);
                                    lemma_terms_val_wf(prev_out, m);
                                    lemma_terms_val_wf(out@, m);
                                    lemma_terms_val_wf(take_prev, m);
                                    lemma_terms_val_wf(take_next, m);
                                    lemma_q_add_wf(c.q(), x);
                                    crate::rat::lemma_q_eq_refl(terms_val(out@, m));
                                    lemma_step_same_term(
                                        terms_val(prev_out, m),
                                        terms_val(out@, m),
                                        terms_val(take_prev, m),
                                        terms_val(take_next, m),
                                        konst.q(),
                                        self.constant.q(),
                                        term,
                                    );
                                }
                                if self.clean(solved@) {
                                    assert(out@ =~= self.coeffs@.take(idx as int + 1));
                                }
                                if reg_small(*self, solved@) {
                                    assert forall|j: int| 0 <= j < out@.len() implies (
                                    #[trigger] out@[j]).0.den == 1 && -(idx as int + 1)
                                        <= out@[j].0.num <= idx as int + 1 by {
                                        if j < out@.len() - 1 {
                                            assert(out@[j] == prev_out[j]);
                                        } else {
                                            assert(out@[j] == (c, v));
                                        }
                                    }
                                }
                                assert forall|t: int|
                                    0 <= t < idx + 1 && #[trigger] lone_term(*self, solved@, t)
                                    implies exists|j: int|
                                        0 <= j < out@.len() && #[trigger] out@[j]
                                            == self.coeffs@[t] by {
                                    if t == idx {
                                        assert(out@[out@.len() - 1] == self.coeffs@[t]);
                                    } else {
                                        let j0 = choose|j: int|
                                            0 <= j < prev_out.len() && #[trigger] prev_out[j]
                                                == self.coeffs@[t];
                                        assert(out@[j0] == self.coeffs@[t]);
                                    }
                                }
                                assert forall|j2: int| 0 <= j2 < out@.len() implies has_var(
                                    self.coeffs@.take(idx as int + 1),
                                    (#[trigger] out@[j2]).1,
                                ) by {
                                    let w = out@[j2].1;
                                    if j2 < out@.len() - 1 {
                                        assert(out@[j2] == prev_out[j2]);
                                        let t0 = choose|t0: int|
                                            0 <= t0 < self.coeffs@.take(idx as int).len() && (
                                            #[trigger] self.coeffs@.take(idx as int)[t0]).1 == w;
                                        assert(self.coeffs@.take(idx as int + 1)[t0].1 == w);
                                    } else {
                                        assert(out@[j2] == (c, v));
                                        assert(self.coeffs@.take(idx as int + 1)[idx as int].1
                                            == w);
                                    }
                                }
                            }
                        },
                        Some(j) => {
                            proof {
                                // a duplicate variable cannot occur in a clean input
                                if self.clean(solved@) {
                                    assert(out@[j as int] == self.coeffs@.take(idx as int)[
                                        j as int]);
                                    assert(self.coeffs@[j as int].1 == self.coeffs@[idx as int].1);
                                    assert(false);
                                }
                            }
                            let cn = match out[j].0.add(&c) {
                                None => {
                                    return None;
                                },
                                Some(k) => k,
                            };
                            proof {
                                // (same reasoning, for the identity clause)
                                if self.clean(solved@) {
                                    assert(has_var(take_prev, v));
                                    let i0 = choose|i: int|
                                        0 <= i < take_prev.len() && (#[trigger] take_prev[i]).1
                                            == v;
                                    assert(self.coeffs@[i0].1 == v);
                                    assert(self.coeffs@[idx as int].1 == v);
                                    assert(false);
                                }
                            }
                            let old_j = out[j];
                            out.set(j, (cn, v));
                            proof {
                                assert(out@ =~= prev_out.update(j as int, (cn, v)));
                                if reg_small(*self, solved@) {
                                    assert(-0x1000 <= cn.num <= 0x1000);
                                    assert forall|j2: int| 0 <= j2 < out@.len() implies (
                                    #[trigger] out@[j2]).0.den == 1 && -(idx as int + 1)
                                        <= out@[j2].0.num <= idx as int + 1 by {
                                        if j2 != j as int {
                                            assert(out@[j2] == prev_out[j2]);
                                        }
                                    }
                                }
                                // the merged variable occurs at least twice in
                                // the input, so no lone term carries it
                                assert(prev_out[j as int].1 == v);
                                assert(has_var(self.coeffs@.take(idx as int), v));
                                let tdup = choose|td: int|
                                    0 <= td < self.coeffs@.take(idx as int).len() && (
                                    #[trigger] self.coeffs@.take(idx as int)[td]).1 == v;
                                assert(self.coeffs@[tdup].1 == v && tdup < idx);
                                assert forall|t: int|
                                    0 <= t < idx + 1 && #[trigger] lone_term(*self, solved@, t)
                                    implies exists|j2: int|
                                        0 <= j2 < out@.len() && #[trigger] out@[j2]
                                            == self.coeffs@[t] by {
                                    if t == idx {
                                        assert(self.coeffs@[tdup].1 == self.coeffs@[idx as int].1
                                            && tdup != idx);
                                        assert(false);
                                    } else {
                                        let j0 = choose|j0: int|
                                            0 <= j0 < prev_out.len() && #[trigger] prev_out[j0]
                                                == self.coeffs@[t];
                                        if j0 == j as int {
                                            // the overwritten slot held var v,
                                            // but t's variable is lone and the
                                            // current term also carries v
                                            assert(self.coeffs@[t].1 == v);
                                            assert(self.coeffs@[idx as int].1 == v);
                                            assert(false);
                                        } else {
                                            assert(out@[j0] == self.coeffs@[t]);
                                        }
                                    }
                                }
                                assert forall|j2: int| 0 <= j2 < out@.len() implies has_var(
                                    self.coeffs@.take(idx as int + 1),
                                    (#[trigger] out@[j2]).1,
                                ) by {
                                    let w = out@[j2].1;
                                    if j2 != j as int {
                                        assert(out@[j2] == prev_out[j2]);
                                    } else {
                                        assert(out@[j2].1 == prev_out[j2].1);
                                    }
                                    let t0 = choose|t0: int|
                                        0 <= t0 < self.coeffs@.take(idx as int).len() && (
                                        #[trigger] self.coeffs@.take(idx as int)[t0]).1 == w;
                                    assert(self.coeffs@.take(idx as int + 1)[t0].1 == w);
                                }
                                assert forall|m: VarAssign|
                                    assign_wf(m) && agrees(m, solved@) implies q_eq(
                                    q_add(#[trigger] terms_val(out@, m), konst.q()),
                                    q_add(terms_val(take_next, m), self.constant.q()),
                                ) by {
                                    let x = m[v.0 as int];
                                    let term = q_mul(c.q(), x);
                                    lemma_terms_val_wf(prev_out, m);
                                    lemma_terms_val_wf(out@, m);
                                    lemma_terms_val_wf(take_prev, m);
                                    lemma_terms_val_wf(take_next, m);
                                    lemma_q_add_wf(c.q(), x);
                                    lemma_terms_val_update(prev_out, j as int, cn, c, m);
                                    lemma_step_same_term(
                                        terms_val(prev_out, m),
                                        terms_val(out@, m),
                                        terms_val(take_prev, m),
                                        terms_val(take_next, m),
                                        konst.q(),
                                        self.constant.q(),
                                        term,
                                    );
                                }
                            }
                        },
                    }
                },
            }
            idx += 1;
        }
        proof {
            assert(self.coeffs@.take(n as int) =~= self.coeffs@);
            if reg_small(*self, solved@) {
                assert(0x4_0000_0000_0000 * (n as int + 1) <= 0x7fff_ffff_ffff_ffff)
                    by (nonlinear_arith)
                    requires
                        n as int <= 0x1000,
                ;
            }
        }
        // second pass: drop terms whose merged coefficient is exactly zero
        let mut kept: Vec<(Rat, Var)> = Vec::new();
        let mut j: usize = 0;
        let k = out.len();
        proof {
            assert forall|t: int| #[trigger] lone_term(*self, solved@, t) implies (exists|i: int|
                0 <= i < kept@.len() && #[trigger] kept@[i] == self.coeffs@[t]) || (exists|i: int|
                0 <= i < out@.len() && #[trigger] out@[i] == self.coeffs@[t]) by {
                assert(0 <= t < n);
            }
        }
        while j < k
            invariant
                j <= k,
                k == out@.len(),
                self.wf(),
                table_wf(solved@),
                merge_inv(*self, solved@, out@, konst, n as int),
                n == self.coeffs@.len(),
                terms_wf(kept@),
                forall|i1: int, i2: int|
                    0 <= i1 < i2 < kept@.len() ==> (#[trigger] kept@[i1]).1 != (
                    #[trigger] kept@[i2]).1,
                forall|i: int|
                    0 <= i < kept@.len() ==> table_lookup(solved@, (#[trigger] kept@[i]).1)
                        is None,
                forall|i: int|
                    0 <= i < kept@.len() ==> has_var(self.coeffs@, (#[trigger] kept@[i]).1),
                forall|i: int| 0 <= i < kept@.len() ==> (#[trigger] kept@[i]).0.num != 0,
                forall|i: int|
                    0 <= i < kept@.len() ==> has_var(out@.take(j as int), (#[trigger] kept@[i]).1),
                forall|m: VarAssign|
                    assign_wf(m) ==> q_eq(
                        #[trigger] terms_val(kept@, m),
                        terms_val(out@.take(j as int), m),
                    ),
                self.clean(solved@) ==> out@ == self.coeffs@ && konst == self.constant,
                self.clean(solved@) ==> kept@ == out@.take(j as int),
                reg_small(*self, solved@) ==> konst.den == 1 && -0x7fff_ffff_ffff_ffff
                    <= konst.num <= 0x7fff_ffff_ffff_ffff,
                reg_small(*self, solved@) ==> forall|i: int|
                    0 <= i < kept@.len() ==> (#[trigger] kept@[i]).0.den == 1 && -0x1000
                        <= kept@[i].0.num <= 0x1000,
                reg_small(*self, solved@) ==> forall|i: int|
                    0 <= i < out@.len() ==> (#[trigger] out@[i]).0.den == 1 && -0x1000
                        <= out@[i].0.num <= 0x1000,
                forall|t: int|
                    #[trigger] lone_term(*self, solved@, t) ==> (exists|i: int|
                        0 <= i < kept@.len() && #[trigger] kept@[i] == self.coeffs@[t]) || (exists|
                        i: int,
                    |
                        j <= i < out@.len() && #[trigger] out@[i] == self.coeffs@[t]),
            decreases k - j,
        {
            let (c, v) = out[j];
            let ghost kept_prev = kept@;
            let ghost take_prev = out@.take(j as int);
            let ghost take_next = out@.take(j as int + 1);
            proof {
                assert(take_next.drop_last() =~= take_prev);
                assert(take_next.last() == (c, v));
                assert(terms_wf(take_prev));
                assert(terms_wf(take_next));
            }
            if c.is_zero() {
                proof {
                    if self.clean(solved@) {
                        assert(self.coeffs@[j as int].0.num != 0);
                        assert(false);
                    }
                    // a dropped zero term cannot be a lone surviving term
                    assert forall|t: int| #[trigger] lone_term(*self, solved@, t) implies (exists|
                        i: int,
                    |
                        0 <= i < kept@.len() && #[trigger] kept@[i] == self.coeffs@[t]) || (exists|
                        i: int,
                    |
                        j + 1 <= i < out@.len() && #[trigger] out@[i] == self.coeffs@[t]) by {
                        if !(exists|i: int|
                            0 <= i < kept@.len() && #[trigger] kept@[i] == self.coeffs@[t]) {
                            let i0 = choose|i: int|
                                j <= i < out@.len() && #[trigger] out@[i] == self.coeffs@[t];
                            if i0 == j as int {
                                assert(out@[j as int] == self.coeffs@[t]);
                                assert(self.coeffs@[t].0.num != 0);
                                assert(false);
                            }
                        }
                    }
                    assert forall|m: VarAssign| assign_wf(m) implies q_eq(
                        #[trigger] terms_val(kept@, m),
                        terms_val(take_next, m),
                    ) by {
                        let x = m[v.0 as int];
                        let term = q_mul(c.q(), x);
                        lemma_terms_val_wf(kept@, m);
                        lemma_terms_val_wf(take_prev, m);
                        lemma_terms_val_wf(take_next, m);
                        lemma_q_add_wf(c.q(), x);
                        crate::rat::lemma_q_mul_zero_left(c.q(), x);
                        // take_next's value ~ take_prev's value
                        lemma_q_add_congr(terms_val(take_prev, m), terms_val(take_prev, m), term, (
                            0int,
                            1int,
                        ));
                        crate::rat::lemma_q_add_zero(terms_val(take_prev, m));
                        lemma_q_add_wf(terms_val(take_prev, m), term);
                        lemma_q_add_wf(terms_val(take_prev, m), (0int, 1int));
                        lemma_q_eq_trans(
                            terms_val(take_next, m),
                            q_add(terms_val(take_prev, m), (0int, 1int)),
                            terms_val(take_prev, m),
                        );
                        lemma_q_eq_sym(terms_val(take_next, m), terms_val(take_prev, m));
                        lemma_q_eq_trans(
                            terms_val(kept@, m),
                            terms_val(take_prev, m),
                            terms_val(take_next, m),
                        );
                    }
                }
            } else {
                kept.push((c, v));
                proof {
                    assert(kept@.drop_last() =~= kept_prev);
                    assert(kept@.last() == (c, v));
                    assert(has_var(take_next, v));
                    assert forall|t: int| #[trigger] lone_term(*self, solved@, t) implies (exists|
                        i: int,
                    |
                        0 <= i < kept@.len() && #[trigger] kept@[i] == self.coeffs@[t]) || (exists|
                        i: int,
                    |
                        j + 1 <= i < out@.len() && #[trigger] out@[i] == self.coeffs@[t]) by {
                        if exists|i: int|
                            0 <= i < kept_prev.len() && #[trigger] kept_prev[i]
                                == self.coeffs@[t] {
                            let i0 = choose|i: int|
                                0 <= i < kept_prev.len() && #[trigger] kept_prev[i]
                                    == self.coeffs@[t];
                            assert(kept@[i0] == self.coeffs@[t]);
                        } else {
                            if exists|i: int|
                                j <= i < out@.len() && #[trigger] out@[i] == self.coeffs@[t] {
                                let i0 = choose|i: int|
                                    j <= i < out@.len() && #[trigger] out@[i] == self.coeffs@[t];
                                if i0 == j as int {
                                    assert(kept@[kept@.len() - 1] == self.coeffs@[t]);
                                }
                            }
                        }
                    }
                    assert forall|m: VarAssign| assign_wf(m) implies q_eq(
                        #[trigger] terms_val(kept@, m),
                        terms_val(take_next, m),
                    ) by {
                        let x = m[v.0 as int];
                        let term = q_mul(c.q(), x);
                        lemma_terms_val_wf(kept_prev, m);
                        lemma_terms_val_wf(kept@, m);
                        lemma_terms_val_wf(take_prev, m);
                        lemma_terms_val_wf(take_next, m);
                        lemma_q_add_wf(c.q(), x);
                        lemma_q_add_congr(terms_val(kept_prev, m), terms_val(take_prev, m), term,
                            term);
                        lemma_q_add_wf(terms_val(kept_prev, m), term);
                        lemma_q_add_wf(terms_val(take_prev, m), term);
                    }
                    // distinctness: v occurs in out@, all kept vars occur in
                    // the strict prefix, and out@'s vars are distinct
                    assert forall|i1: int|
                        0 <= i1 < kept_prev.len() implies (#[trigger] kept_prev[i1]).1 != v by {
                        let i2 = choose|i2: int|
                            0 <= i2 < (j as int) && (#[trigger] out@.take(j as int)[i2]).1
                                == kept_prev[i1].1;
                        assert(out@[i2].1 == kept_prev[i1].1);
                        assert(out@[j as int].1 == v);
                    }
                    if self.clean(solved@) {
                        assert(kept@ =~= out@.take(j as int + 1));
                    }
                }
            }
            j += 1;
        }
        proof {
            assert(out@.take(k as int) =~= out@);
        }
        let ghost keptv = kept@;
        let e = LinearExpr { coeffs: kept, constant: konst };
        proof {
            assert(e.coeffs@ == keptv);
        }
        proof {
            assert forall|m: VarAssign| assign_wf(m) && agrees(m, solved@) implies q_eq(
                #[trigger] e.val(m),
                self.val(m),
            ) by {
                lemma_terms_val_wf(e.coeffs@, m);
                lemma_terms_val_wf(out@, m);
                lemma_terms_val_wf(self.coeffs@, m);
                lemma_q_add_wf(terms_val(e.coeffs@, m), konst.q());
                lemma_q_add_wf(terms_val(out@, m), konst.q());
                lemma_q_add_wf(terms_val(self.coeffs@, m), self.constant.q());
                lemma_q_add_congr(terms_val(e.coeffs@, m), terms_val(out@, m), konst.q(),
                    konst.q());
                lemma_q_eq_trans(
                    e.val(m),
                    q_add(terms_val(out@, m), konst.q()),
                    q_add(terms_val(self.coeffs@, m), self.constant.q()),
                );
            }
            if self.clean(solved@) {
                assert(e.coeffs@ == self.coeffs@);
            }
            assert forall|t: int| #[trigger] lone_term(*self, solved@, t) implies term_kept(
                e,
                *self,
                t,
            ) by {
                // at loop exit the unprocessed suffix is empty, so the
                // surviving copy sits in the kept terms
                if exists|i: int|
                    0 <= i < keptv.len() && #[trigger] keptv[i] == self.coeffs@[t] {
                    let i0 = choose|i: int|
                        0 <= i < keptv.len() && #[trigger] keptv[i] == self.coeffs@[t];
                    assert(e.coeffs@[i0] == self.coeffs@[t]);
                } else {
                    let i1 = choose|i: int|
                        k as int <= i < out@.len() && #[trigger] out@[i] == self.coeffs@[t];
                    assert(false);
                }
            }
        }
        Some(e)
    }
}


/// Folding one more product into an accumulator tracks the growing prefix:
/// from `acc ~ take + const` and `acc2 ~ acc + prod` with `prod ~ term`
/// conclude `acc2 ~ (take + term) + const`.
pub(crate) proof fn lemma_step_fold_shift(
    t_take: Q,
    t_take2: Q,
    kq: Q,
    kq2: Q,
    constq: Q,
    term: Q,
    prodq: Q,
)
    requires
        q_wf(t_take),
        q_wf(kq),
        q_wf(kq2),
        q_wf(constq),
        q_wf(term),
        q_wf(prodq),
        t_take2 == q_add(t_take, term),
        q_eq(kq2, q_add(kq, prodq)),
        q_eq(prodq, term),
        q_eq(kq, q_add(t_take, constq)),
    ensures
        q_eq(kq2, q_add(t_take2, constq)),
{
    lemma_q_add_wf(t_take, term);
    lemma_q_add_wf(t_take, constq);
    lemma_q_add_wf(kq, prodq);
    lemma_q_add_wf(q_add(t_take, constq), term);
    lemma_q_add_wf(q_add(t_take, term), constq);
    lemma_q_add_congr(kq, q_add(t_take, constq), prodq, term);
    lemma_q_eq_trans(kq2, q_add(kq, prodq), q_add(q_add(t_take, constq), term));
    lemma_q_add_swap_right(t_take, constq, term);
    lemma_q_eq_trans(kq2, q_add(q_add(t_take, constq), term), q_add(q_add(t_take, term), constq));
}

} // verus!
