//! The linear constraint solver.
//!
//! A `Solver` owns the variables and equality constraints of one compilation
//! unit.  Registering a constraint immediately folds in already-solved
//! variables; a constraint reduced to a single free variable fixes that
//! variable at once and the value propagates through the remaining
//! constraints (back-substitution, drained to a fixed point).  `solve`
//! additionally row-reduces the coupled constraints that back-substitution
//! alone cannot untangle (exact elimination over the rationals, playing the
//! role of a rank-revealing factorization), so variables whose values the
//! system forces are committed while under-determined ones stay unsolved.
//!
//! The central guarantees, stated over every rational assignment `m` of
//! values to variables:
//!  - every solved value is forced: if `m` satisfies all registered
//!    constraints, `m` agrees with the solved table;
//!  - a constraint id is flagged inconsistent only when the registered
//!    system is unsatisfiable;
//!  - a solved variable is never re-solved to a different value.
use vstd::prelude::*;

use crate::linear::LinearExpr;
use crate::linear::Var;
use crate::linear::VarAssign;
use crate::linear::agrees;
use crate::linear::assign_wf;
use crate::linear::has_var;
use crate::linear::table_wf;
use crate::linear::terms_val;
use crate::linear::lemma_terms_val_wf;
use crate::rat::Q;
use crate::rat::Rat;
use crate::rat::grid_point;
use crate::rat::lemma_q_add_wf;
use crate::rat::lemma_q_eq_sym;
use crate::rat::lemma_q_eq_trans;
use crate::rat::q_abs;
use crate::rat::q_add;
use crate::rat::q_div;
use crate::rat::q_eq;
use crate::rat::q_le;
use crate::rat::q_mul;
use crate::rat::q_neg;
use crate::rat::q_sub;
use crate::rat::q_wf;

verus! {

/// Identifies one registered constraint; ids are handed out consecutively.
pub type ConstraintId = u64;

/// A pending constraint: the folded remainder of a registered expression,
/// asserted to equal zero.
#[derive(Clone, Debug)]
pub struct SolverConstraint {
    pub id: ConstraintId,
    pub expr: LinearExpr,
}

/// `m` satisfies every expression of `cs` (each equals zero).
pub open spec fn sat_all(m: VarAssign, cs: Seq<LinearExpr>) -> bool {
    forall|i: int| 0 <= i < cs.len() ==> (#[trigger] cs[i]).sat(m)
}

/// No well-formed assignment satisfies all of `cs`.
pub open spec fn unsat(cs: Seq<LinearExpr>) -> bool {
    forall|m: VarAssign| assign_wf(m) ==> !sat_all(m, cs)
}

/// Some expression of `cs` mentions variable id `vid`.
pub open spec fn mentions(cs: Seq<LinearExpr>, vid: int) -> bool {
    exists|i: int| 0 <= i < cs.len() && has_var((#[trigger] cs[i]).coeffs@, Var(vid as u64))
}

/// Every variable of `e` has an id below `n`.
pub open spec fn expr_vars_below(e: LinearExpr, n: int) -> bool {
    forall|t: int| 0 <= t < e.coeffs@.len() ==> ((#[trigger] e.coeffs@[t]).1.0 as int) < n
}

/// Every variable of `e` is already fixed by the table.
pub open spec fn expr_fully_solved(e: LinearExpr, table: Seq<Option<Rat>>) -> bool {
    forall|t: int|
        0 <= t < e.coeffs@.len() ==> crate::linear::table_lookup(
            table,
            (#[trigger] e.coeffs@[t]).1,
        ) is Some
}

/// Every variable of `e` is fixed by the table, except possibly `v`.
pub open spec fn expr_unsolved_only(e: LinearExpr, table: Seq<Option<Rat>>, v: Var) -> bool {
    forall|t: int|
        0 <= t < e.coeffs@.len() ==> crate::linear::table_lookup(
            table,
            (#[trigger] e.coeffs@[t]).1,
        ) is Some || e.coeffs@[t].1 == v
}

/// There is an assignment agreeing with the table under which `e` holds,
/// and one under which it does not: the constraint is neither trivial nor
/// hopeless given the current partial solution.
pub open spec fn informative(e: LinearExpr, table: Seq<Option<Rat>>) -> bool {
    &&& exists|m: VarAssign| #![trigger e.val(m)] assign_wf(m) && agrees(m, table) && e.sat(m)
    &&& exists|m: VarAssign| #![trigger e.val(m)] assign_wf(m) && agrees(m, table) && !e.sat(m)
}

/// Every variable of `e` is mentioned by some expression of `cs`.
pub open spec fn expr_vars_mentioned(e: LinearExpr, cs: Seq<LinearExpr>) -> bool {
    forall|t: int| 0 <= t < e.coeffs@.len() ==> mentions(cs, (#[trigger] e.coeffs@[t]).1.0 as int)
}

/// The number of solved entries in the table.
pub open spec fn num_solved(s: Seq<Option<Rat>>) -> nat
    decreases s.len(),
{
    if s.len() == 0 {
        0
    } else {
        num_solved(s.drop_last()) + (if s.last() is Some {
            1nat
        } else {
            0nat
        })
    }
}

proof fn lemma_num_solved_le(s: Seq<Option<Rat>>)
    ensures
        num_solved(s) <= s.len(),
    decreases s.len(),
{
    if s.len() > 0 {
        lemma_num_solved_le(s.drop_last());
    }
}

proof fn lemma_num_solved_push_none(s: Seq<Option<Rat>>)
    ensures
        num_solved(s.push(None)) == num_solved(s),
{
    assert(s.push(None).drop_last() =~= s);
}

proof fn lemma_num_solved_update(s: Seq<Option<Rat>>, i: int, v: Rat)
    requires
        0 <= i < s.len(),
        s[i] is None,
    ensures
        num_solved(s.update(i, Some(v))) == num_solved(s) + 1,
    decreases s.len(),
{
    let s2 = s.update(i, Some(v));
    if i == s.len() - 1 {
        assert(s2.drop_last() =~= s.drop_last());
        assert(s2.last() == Some(v));
        assert(s.last() is None);
    } else {
        assert(s2.drop_last() =~= s.drop_last().update(i, Some(v)));
        assert(s2.last() == s.last());
        lemma_num_solved_update(s.drop_last(), i, v);
    }
}

proof fn lemma_num_solved_missing(s: Seq<Option<Rat>>, i: int)
    requires
        0 <= i < s.len(),
        s[i] is None,
    ensures
        num_solved(s) < s.len(),
    decreases s.len(),
{
    if i == s.len() - 1 {
        lemma_num_solved_le(s.drop_last());
    } else {
        lemma_num_solved_missing(s.drop_last(), i);
    }
}

/// If the value of `x` equals the value of `b` and `b`'s numerator is zero,
/// so is `x`'s.
proof fn lemma_q_eq_zero(x: Q, b: Q)
    by (nonlinear_arith)
    requires
        q_wf(x),
        q_wf(b),
        q_eq(x, b),
        b.0 == 0,
    ensures
        x.0 == 0,
{
}

/// A satisfied single-term constraint `c * x + k == 0` with `c != 0` forces
/// `x == -k / c`.
proof fn lemma_single_term_forces(e: LinearExpr, m: VarAssign)
    requires
        e.wf(),
        assign_wf(m),
        e.coeffs@.len() == 1,
        e.coeffs@[0].0.num != 0,
        e.sat(m),
    ensures
        q_eq(
            q_mul(e.coeffs@[0].0.q(), m[e.coeffs@[0].1.0 as int]),
            q_neg(e.constant.q()),
        ),
{
    let c = e.coeffs@[0].0.q();
    let k = e.constant.q();
    let x = m[e.coeffs@[0].1.0 as int];
    assert(e.coeffs@.drop_last() =~= Seq::<(Rat, Var)>::empty());
    assert(terms_val(Seq::<(Rat, Var)>::empty(), m) == (0int, 1int));
    assert(e.coeffs@.last() == e.coeffs@[0]);
    let tv = q_add((0int, 1int), q_mul(c, x));
    assert(e.val(m) == q_add(tv, k));
    assert(q_eq(q_mul(c, x), q_neg(k))) by (nonlinear_arith)
        requires
            (q_add(q_add((0int, 1int), q_mul(c, x)), k)).0 == 0,
            c.1 > 0,
            k.1 > 0,
            x.1 > 0,
    ;
}

/// Multiplication by a non-zero rational is injective.
proof fn lemma_q_mul_cancel(c: Q, x: Q, y: Q)
    by (nonlinear_arith)
    requires
        c.0 != 0,
        c.1 > 0,
        q_wf(x),
        q_wf(y),
        q_eq(q_mul(c, x), q_mul(c, y)),
    ensures
        q_eq(x, y),
{
}

/// `val == nk / c` restated multiplicatively: `c * val == nk`.
proof fn lemma_div_to_mul(val: Q, nk: Q, c: Q)
    by (nonlinear_arith)
    requires
        q_wf(val),
        q_wf(nk),
        c.1 > 0,
        c.0 != 0,
        q_eq(val, q_div(nk, c)),
    ensures
        q_eq(q_mul(c, val), nk),
{
}

/// A linear combination of two satisfied rows is satisfied: if
/// `x ~ a + (-1) * s` with `s ~ f * b`, and `a` and `b` are zero, `x` is zero.
proof fn lemma_row_comb_zero(x: Q, a: Q, s: Q, f: Q, b: Q)
    requires
        q_wf(x),
        q_wf(a),
        q_wf(s),
        q_wf(f),
        q_wf(b),
        q_eq(x, q_add(a, q_mul((-1int, 1int), s))),
        q_eq(s, q_mul(f, b)),
        a.0 == 0,
        b.0 == 0,
    ensures
        x.0 == 0,
{
    assert(q_mul(f, b).0 == 0) by (nonlinear_arith)
        requires
            b.0 == 0,
    ;
    lemma_q_add_wf(f, b);
    lemma_q_eq_zero(s, q_mul(f, b));
    assert(q_mul((-1int, 1int), s).0 == 0);
    let z = q_mul((-1int, 1int), s);
    assert(q_add(a, z).0 == 0) by (nonlinear_arith)
        requires
            a.0 == 0,
            z.0 == 0,
    ;
    lemma_q_add_wf((-1int, 1int), s);
    lemma_q_add_wf(a, z);
    lemma_q_eq_zero(x, q_add(a, z));
}

/// `val` lies within `tol` of some grid point (an integer multiple of
/// `step`).
pub open spec fn near_grid(val: Rat, step: Rat, tol: Rat) -> bool {
    exists|k: int|
        q_le(q_abs(q_sub(val.q(), #[trigger] q_mul((k, 1int), step.q()))), tol.q())
}

/// Variable id `vid` appears in the invalid-rounding list.
pub open spec fn rounding_flagged(flags: Seq<Var>, vid: int) -> bool {
    exists|i: int| 0 <= i < flags.len() && (#[trigger] flags[i]).0 as int == vid
}

/// An integer evaluation chain: every referenced variable is solved to an
/// integer, coefficients and constant are integers, each term product and
/// every partial sum stays in the representable range.  Under these
/// conditions `eval_expr` cannot fail.
pub open spec fn int_chain(expr: LinearExpr, table: Seq<Option<Rat>>) -> bool {
    &&& (forall|t: int|
        0 <= t < expr.coeffs@.len() ==> {
            let w = (#[trigger] expr.coeffs@[t]).1;
            &&& crate::linear::table_lookup(table, w) is Some
            &&& crate::linear::table_lookup(table, w).unwrap().den == 1
            &&& expr.coeffs@[t].0.den == 1
            &&& -0x7fff_ffff_ffff_ffff <= expr.coeffs@[t].0.num * crate::linear::table_lookup(
                table,
                w,
            ).unwrap().num <= 0x7fff_ffff_ffff_ffff
        })
    &&& expr.constant.den == 1
    &&& (forall|k: int|
        0 <= k <= expr.coeffs@.len() ==> -0x7fff_ffff_ffff_ffff <= (#[trigger] q_add(
            terms_val(expr.coeffs@.take(k), table_assign(table)),
            expr.constant.q(),
        )).0 <= 0x7fff_ffff_ffff_ffff)
}

/// A term sequence of integer coefficients over integer values has an
/// integer value: its denominator is one.
proof fn lemma_terms_val_int(s: Seq<(Rat, Var)>, m: VarAssign)
    requires
        forall|t: int|
            0 <= t < s.len() ==> (#[trigger] s[t]).0.den == 1 && m[s[t].1.0 as int].1 == 1,
    ensures
        terms_val(s, m).1 == 1,
    decreases s.len(),
{
    if s.len() > 0 {
        lemma_terms_val_int(s.drop_last(), m);
        let last = s.last();
        assert(terms_val(s, m).1 == terms_val(s.drop_last(), m).1 * ((last.0.den as int) * m[
        last.1.0 as int].1));
        assert(terms_val(s.drop_last(), m).1 * ((last.0.den as int) * m[last.1.0 as int].1) == 1)
            by (nonlinear_arith)
            requires
                terms_val(s.drop_last(), m).1 == 1,
                last.0.den == 1,
                m[last.1.0 as int].1 == 1,
        ;
    }
}

/// Every prefix of an integer chain has an integer value.
proof fn lemma_terms_val_int_take(expr: LinearExpr, table: Seq<Option<Rat>>, m: VarAssign, k: int)
    requires
        int_chain(expr, table),
        m == table_assign(table),
        0 <= k <= expr.coeffs@.len(),
    ensures
        terms_val(expr.coeffs@.take(k), m).1 == 1,
{
    let s = expr.coeffs@.take(k);
    assert forall|t: int| 0 <= t < s.len() implies (#[trigger] s[t]).0.den == 1 && m[s[t].1.0
        as int].1 == 1 by {
        assert(s[t] == expr.coeffs@[t]);
        let w = expr.coeffs@[t].1;
        assert(crate::linear::table_lookup(table, w) is Some);
        assert(m[w.0 as int] == crate::linear::table_lookup(table, w).unwrap().q());
    }
    lemma_terms_val_int(s, m);
}

/// Term `t` is the constraint's only free term: its variable is unsolved
/// and occurs once, and every other term's variable is already solved.
pub open spec fn sole_free(expr: LinearExpr, table: Seq<Option<Rat>>, t: int) -> bool {
    &&& crate::linear::lone_term(expr, table, t)
    &&& (forall|t2: int|
        0 <= t2 < expr.coeffs@.len() && t2 != t ==> crate::linear::table_lookup(
            table,
            (#[trigger] expr.coeffs@[t2]).1,
        ) is Some)
}

/// A single-term expression evaluated where its variable reads zero is its
/// constant.
pub proof fn lemma_single_term_at_zero(e: LinearExpr, m: VarAssign)
    requires
        e.wf(),
        assign_wf(m),
        e.coeffs@.len() == 1,
        m[e.coeffs@[0].1.0 as int] == (0int, 1int),
    ensures
        q_eq(e.val(m), e.constant.q()),
{
    let c = e.coeffs@[0].0.q();
    let k = e.constant.q();
    assert(e.coeffs@.drop_last() =~= Seq::<(Rat, Var)>::empty());
    assert(terms_val(Seq::<(Rat, Var)>::empty(), m) == (0int, 1int));
    assert(e.coeffs@.last() == e.coeffs@[0]);
    assert(q_mul(c, (0int, 1int)) == (c.0 * 0, c.1 * 1));
    assert(e.val(m) == q_add(q_add((0int, 1int), q_mul(c, (0int, 1int))), k));
    assert(q_eq(q_add(q_add((0int, 1int), (c.0 * 0, c.1 * 1)), k), k)) by (nonlinear_arith)
        requires
            c.1 > 0,
            k.1 > 0,
    ;
}

/// The total assignment read off a solved table (unsolved entries read as
/// zero); used to state what `eval_expr` computes.
pub open spec fn table_assign(solved: Seq<Option<Rat>>) -> VarAssign {
    Map::new(
        |i: int| true,
        |i: int|
            if 0 <= i < solved.len() && solved[i] is Some {
                solved[i].unwrap().q()
            } else {
                (0int, 1int)
            },
    )
}

/// The constraint solver for one compilation unit.
pub struct Solver {
    next_var: u64,
    next_constraint: ConstraintId,
    pending: Vec<SolverConstraint>,
    solved: Vec<Option<Rat>>,
    n_solved: u64,
    invalid_rounding: Vec<Var>,
    inconsistent: Vec<ConstraintId>,
    grid: Rat,
    tol: Rat,
    ok: bool,
    registered: Ghost<Seq<LinearExpr>>,
}

impl Solver {
    /// The solved-value table, indexed by variable id.
    pub closed spec fn table(self) -> Seq<Option<Rat>> {
        self.solved@
    }

    /// Every constraint ever registered, by id.
    pub closed spec fn constraints(self) -> Seq<LinearExpr> {
        self.registered@
    }

    /// The ids flagged inconsistent, in the order they were flagged.
    pub closed spec fn flagged(self) -> Seq<ConstraintId> {
        self.inconsistent@
    }

    pub closed spec fn var_count(self) -> u64 {
        self.next_var
    }

    pub closed spec fn constraint_count(self) -> u64 {
        self.next_constraint
    }

    /// All rational-range arithmetic so far stayed in range; when this is
    /// false some constraint was dropped and only the soundness guarantees
    /// remain.
    pub closed spec fn arith_ok(self) -> bool {
        self.ok
    }

    /// One pending constraint is well-formed w.r.t. the solver state
    /// (without requiring it to be folded against the solved table).
    pub closed spec fn pending_entry_ok(self, p: SolverConstraint) -> bool {
        &&& p.id < self.next_constraint
        &&& p.expr.wf()
        &&& p.expr.coeffs@.len() >= 1
        &&& expr_vars_below(p.expr, self.next_var as int)
        &&& expr_vars_mentioned(p.expr, self.registered@)
    }

    /// Any assignment satisfying the registered system agrees with the
    /// solved table and satisfies every pending remainder.
    pub closed spec fn models_respected(self) -> bool {
        forall|m: VarAssign|
            assign_wf(m) && #[trigger] sat_all(m, self.registered@) ==> agrees(m, self.solved@)
                && (forall|j: int|
                0 <= j < self.pending@.len() ==> (#[trigger] self.pending@[j]).expr.sat(m))
    }

    /// The solver's internal invariant, except that pending constraints may
    /// still mention freshly solved variables (after a commit, before the
    /// next refold).
    pub closed spec fn inv_loose(self) -> bool {
        &&& self.solved@.len() == self.next_var as int
        &&& self.registered@.len() == self.next_constraint as int
        &&& table_wf(self.solved@)
        &&& self.grid.wf()
        &&& self.grid.num > 0
        &&& self.tol.wf()
        &&& self.tol.num >= 0
        &&& (forall|i: int|
            0 <= i < self.registered@.len() ==> (#[trigger] self.registered@[i]).wf())
        &&& (forall|j: int|
            0 <= j < self.pending@.len() ==> self.pending_entry_ok(#[trigger] self.pending@[j]))
        &&& (forall|vid: int|
            0 <= vid < self.solved@.len() && (#[trigger] self.solved@[vid]) is Some ==> mentions(
                self.registered@,
                vid,
            ))
        &&& self.models_respected()
        &&& (self.inconsistent@.len() > 0 ==> unsat(self.registered@))
        &&& (forall|i: int|
            0 <= i < self.inconsistent@.len() ==> (#[trigger] self.inconsistent@[i])
                < self.next_constraint)
        &&& (forall|i1: int, i2: int|
            0 <= i1 < i2 < self.inconsistent@.len() ==> self.inconsistent@[i1]
                != self.inconsistent@[i2])
        &&& self.n_solved as int == num_solved(self.solved@)
        &&& (forall|i: int|
            0 <= i < self.invalid_rounding@.len() ==> (#[trigger] self.invalid_rounding@[i]).0
                < self.next_var)
        &&& (forall|i: int|
            0 <= i < self.invalid_rounding@.len() ==> self.solved@[(
            #[trigger] self.invalid_rounding@[i]).0 as int] is Some)
        &&& (forall|vid: int|
            0 <= vid < self.solved@.len() && (#[trigger] self.solved@[vid]) is Some ==> near_grid(
                self.solved@[vid].unwrap(),
                self.grid,
                self.tol,
            ) || rounding_flagged(self.invalid_rounding@, vid))
    }

    /// The solver's internal invariant, except saturation of
    /// back-substitution: pending constraints are folded against the solved
    /// table, their duplicate terms merged and zero coefficients dropped.
    pub closed spec fn inv_core(self) -> bool {
        &&& self.inv_loose()
        &&& (forall|j: int|
            0 <= j < self.pending@.len() ==> (#[trigger] self.pending@[j]).expr.clean(
                self.solved@,
            ))
    }

    /// No pending constraint can be reduced by back-substitution: each has
    /// at least two distinct free variables.
    pub closed spec fn saturated(self) -> bool {
        forall|j: int|
            0 <= j < self.pending@.len() ==> (#[trigger] self.pending@[j]).expr.coeffs@.len() >= 2
    }

    /// The public invariant: every method keeps it.
    pub closed spec fn inv(self) -> bool {
        self.inv_core() && self.saturated()
    }

    /// A fresh solver with the given manufacturing grid step and rounding
    /// tolerance.
    pub fn with_config(grid: Rat, tol: Rat) -> (s: Solver)
        requires
            grid.wf(),
            grid.num > 0,
            tol.wf(),
            tol.num >= 0,
        ensures
            s.inv(),
            s.var_count() == 0,
            s.constraint_count() == 0,
            s.table() =~= Seq::<Option<Rat>>::empty(),
            s.constraints() =~= Seq::<LinearExpr>::empty(),
            s.flagged() =~= Seq::<ConstraintId>::empty(),
            s.rounding_flags() =~= Seq::<Var>::empty(),
            s.arith_ok(),
            s.resolved(),
    {
        Solver {
            next_var: 0,
            next_constraint: 0,
            pending: Vec::new(),
            solved: Vec::new(),
            n_solved: 0,
            invalid_rounding: Vec::new(),
            inconsistent: Vec::new(),
            grid,
            tol,
            ok: true,
            registered: Ghost(Seq::empty()),
        }
    }

    /// A solver with the default grid (one thousandth of a unit) and an
    /// equality tolerance far below it.
    pub fn new() -> (s: Solver)
        ensures
            s.inv(),
            s.var_count() == 0,
            s.constraint_count() == 0,
            s.table() =~= Seq::<Option<Rat>>::empty(),
            s.constraints() =~= Seq::<LinearExpr>::empty(),
            s.flagged() =~= Seq::<ConstraintId>::empty(),
            s.rounding_flags() =~= Seq::<Var>::empty(),
            s.arith_ok(),
            s.resolved(),
    {
        let grid = Rat { num: 1, den: 1000 };
        let tol = Rat { num: 1, den: 10_000_000_000 };
        Solver::with_config(grid, tol)
    }

    /// The number of variables allocated so far.
    pub fn n_vars(&self) -> (r: u64)
        ensures
            r == self.var_count(),
    {
        self.next_var
    }

    /// No constraint is pending: everything registered so far has been
    /// discharged, solved or flagged.  Registration-time guarantees are
    /// sharpest in this state, since nothing is waiting to propagate.
    pub closed spec fn resolved(self) -> bool {
        self.pending@.len() == 0
    }

    /// Whether the solver currently holds no pending constraint.
    pub fn is_resolved(&self) -> (r: bool)
        ensures
            r == self.resolved(),
    {
        self.pending.len() == 0
    }

    /// Whether exact arithmetic has stayed in range so far.
    pub fn arithmetic_ok(&self) -> (r: bool)
        ensures
            r == self.arith_ok(),
    {
        self.ok
    }

    /// The number of constraints registered so far.
    pub fn n_constraints(&self) -> (r: u64)
        ensures
            r == self.constraint_count(),
    {
        self.next_constraint
    }

    /// Allocate a fresh, unsolved variable.
    pub fn new_var(&mut self) -> (v: Var)
        requires
            old(self).inv(),
            old(self).var_count() < u64::MAX,
        ensures
            final(self).inv(),
            v.0 == old(self).var_count(),
            final(self).var_count() == old(self).var_count() + 1,
            final(self).table() == old(self).table().push(None),
            final(self).table().len() == final(self).var_count(),
            final(self).table()[v.0 as int] is None,
            final(self).constraints() == old(self).constraints(),
            final(self).flagged() == old(self).flagged(),
            final(self).constraint_count() == old(self).constraint_count(),
            final(self).arith_ok() == old(self).arith_ok(),
            final(self).resolved() == old(self).resolved(),
    {
        let v = Var(self.next_var);
        self.next_var += 1;
        self.solved.push(None);
        proof {
            lemma_num_solved_push_none(old(self).solved@);
            assert forall|j: int| 0 <= j < self.pending@.len() implies self.pending_entry_ok(
                #[trigger] self.pending@[j],
            ) && self.pending@[j].expr.clean(self.solved@) by {
                assert(old(self).pending_entry_ok(old(self).pending@[j]));
                assert(old(self).pending@[j].expr.clean(old(self).solved@));
                assert forall|t: int|
                    0 <= t < self.pending@[j].expr.coeffs@.len() implies crate::linear::table_lookup(
                    self.solved@,
                    (#[trigger] self.pending@[j].expr.coeffs@[t]).1,
                ) is None by {
                    let w = self.pending@[j].expr.coeffs@[t];
                    assert(crate::linear::table_lookup(old(self).solved@, w.1) is None);
                    assert(w.1.0 < old(self).next_var);
                }
            }
            assert forall|m: VarAssign|
                assign_wf(m) && #[trigger] sat_all(m, self.registered@) implies agrees(
                m,
                self.solved@,
            ) && (forall|j: int|
                0 <= j < self.pending@.len() ==> (#[trigger] self.pending@[j]).expr.sat(m)) by {
                assert(sat_all(m, old(self).registered@));
                assert(agrees(m, old(self).solved@));
                assert forall|i: int|
                    0 <= i < self.solved@.len() && (#[trigger] self.solved@[i]) is Some implies q_eq(
                    m[i],
                    self.solved@[i].unwrap().q(),
                ) by {
                    assert(self.solved@[i] == old(self).solved@[i]);
                }
            }
        }
        v
    }

    /// The id has not been flagged yet.
    fn contains_id(&self, id: ConstraintId) -> (r: bool)
        ensures
            r == self.inconsistent@.contains(id),
    {
        let mut i: usize = 0;
        while i < self.inconsistent.len()
            invariant
                i <= self.inconsistent@.len(),
                forall|t: int| 0 <= t < i ==> self.inconsistent@[t] != id,
            decreases self.inconsistent@.len() - i,
        {
            if self.inconsistent[i] == id {
                return true;
            }
            i += 1;
        }
        false
    }

    /// Record `id` as inconsistent.  Only called once the registered system
    /// is known unsatisfiable.
    fn flag(&mut self, id: ConstraintId)
        requires
            old(self).inv_loose(),
            id < old(self).constraint_count(),
            unsat(old(self).constraints()),
        ensures
            final(self).inv_loose(),
            forall|j: int|
                0 <= j < old(self).pending@.len() ==> (#[trigger] old(self).pending@[j]).expr.clean(
                    old(self).solved@,
                ) ==> final(self).pending@[j].expr.clean(final(self).solved@),
            final(self).table() == old(self).table(),
            final(self).constraints() == old(self).constraints(),
            final(self).pending@ == old(self).pending@,
            final(self).next_var == old(self).next_var,
            final(self).next_constraint == old(self).next_constraint,
            final(self).n_solved == old(self).n_solved,
            final(self).invalid_rounding@ == old(self).invalid_rounding@,
            final(self).grid == old(self).grid,
            final(self).tol == old(self).tol,
            final(self).ok == old(self).ok,
            final(self).flagged().len() > 0,
            final(self).flagged().contains(id),
            forall|i: int|
                0 <= i < old(self).flagged().len() ==> final(self).flagged()[i] == old(
                    self,
                ).flagged()[i],
            final(self).flagged().len() >= old(self).flagged().len(),
    {
        if !self.contains_id(id) {
            self.inconsistent.push(id);
            proof {
                assert(self.inconsistent@.last() == id);
            }
        } else {
            proof {
                let i0 = choose|i: int|
                    0 <= i < old(self).inconsistent@.len() && old(self).inconsistent@[i] == id;
                assert(self.inconsistent@[i0] == id);
            }
        }
    }

    /// Re-fold every pending constraint against the current solved table;
    /// drop the ones reduced to a true constant and flag the ones reduced
    /// to a non-zero constant.
    fn resimplify(&mut self)
        requires
            old(self).inv_loose(),
        ensures
            final(self).inv_core(),
            final(self).table() == old(self).table(),
            final(self).constraints() == old(self).constraints(),
            final(self).next_var == old(self).next_var,
            final(self).next_constraint == old(self).next_constraint,
            final(self).n_solved == old(self).n_solved,
            final(self).invalid_rounding@ == old(self).invalid_rounding@,
            final(self).grid == old(self).grid,
            final(self).tol == old(self).tol,
            final(self).flagged().len() >= old(self).flagged().len(),
            forall|i: int|
                0 <= i < old(self).flagged().len() ==> final(self).flagged()[i] == old(
                    self,
                ).flagged()[i],
            old(self).pending@.len() == 0 ==> final(self).pending@.len() == 0 && final(self).ok
                == old(self).ok && final(self).flagged() == old(self).flagged(),
    {
        let mut kept: Vec<SolverConstraint> = Vec::new();
        let mut j: usize = 0;
        let n = self.pending.len();
        while j < n
            invariant
                j <= n,
                n == self.pending@.len(),
                self.inv_loose(),
                self.pending@ == old(self).pending@,
                self.solved@ == old(self).solved@,
                self.registered@ == old(self).registered@,
                self.next_var == old(self).next_var,
                self.next_constraint == old(self).next_constraint,
                self.n_solved == old(self).n_solved,
                self.invalid_rounding@ == old(self).invalid_rounding@,
                self.grid == old(self).grid,
                self.tol == old(self).tol,
                self.inconsistent@.len() >= old(self).inconsistent@.len(),
                forall|i: int|
                    0 <= i < old(self).inconsistent@.len() ==> self.inconsistent@[i] == old(
                        self,
                    ).inconsistent@[i],
                forall|t: int|
                    0 <= t < kept@.len() ==> self.pending_entry_ok(#[trigger] kept@[t])
                        && kept@[t].expr.clean(self.solved@),
                forall|m: VarAssign|
                    assign_wf(m) && #[trigger] sat_all(m, self.registered@) ==> (forall|t: int|
                        0 <= t < kept@.len() ==> (#[trigger] kept@[t]).expr.sat(m)),
                old(self).pending@.len() == 0 ==> kept@.len() == 0 && self.ok == old(self).ok
                    && self.inconsistent@ == old(self).inconsistent@,
            decreases n - j,
        {
            let e2opt = self.pending[j].expr.simplify(&self.solved);
            let ghost p = self.pending@[j as int];
            match e2opt {
                None => {
                    self.ok = false;
                },
                Some(e2) => {
                    proof {
                        // under any model of the registered system, the
                        // refolded expression keeps the pending one's value
                        assert forall|m: VarAssign|
                            assign_wf(m) && #[trigger] sat_all(m, self.registered@) implies e2.sat(
                            m,
                        ) by {
                            assert(agrees(m, self.solved@));
                            assert(p.expr.sat(m));
                            assert(q_eq(e2.val(m), p.expr.val(m)));
                            lemma_terms_val_wf(e2.coeffs@, m);
                            lemma_terms_val_wf(p.expr.coeffs@, m);
                            lemma_q_add_wf(terms_val(e2.coeffs@, m), e2.constant.q());
                            lemma_q_add_wf(terms_val(p.expr.coeffs@, m), p.expr.constant.q());
                            lemma_q_eq_zero(e2.val(m), p.expr.val(m));
                        }
                    }
                    if e2.coeffs.len() == 0 {
                        if !e2.constant.is_zero() {
                            // no model can satisfy a non-zero constant
                            proof {
                                assert forall|m: VarAssign| assign_wf(m) implies !sat_all(
                                    m,
                                    self.registered@,
                                ) by {
                                    if sat_all(m, self.registered@) {
                                        assert(e2.sat(m));
                                        assert(e2.coeffs@.len() == 0);
                                        assert(terms_val(e2.coeffs@, m) == (0int, 1int));
                                        assert(e2.val(m) == q_add(
                                            (0int, 1int),
                                            e2.constant.q(),
                                        ));
                                        assert(e2.val(m).0 == e2.constant.q().0);
                                        assert(false);
                                    }
                                }
                            }
                            let id = self.pending[j].id;
                            self.flag(id);
                        }
                    } else {
                        kept.push(SolverConstraint { id: self.pending[j].id, expr: e2 });
                    }
                },
            }
            j += 1;
        }
        self.pending = kept;
        proof {
            assert forall|m: VarAssign|
                assign_wf(m) && #[trigger] sat_all(m, self.registered@) implies agrees(
                m,
                self.solved@,
            ) && (forall|t: int|
                0 <= t < self.pending@.len() ==> (#[trigger] self.pending@[t]).expr.sat(m)) by {
            }
        }
    }

    /// Record the value the registered system forces for `v`, note whether
    /// it falls off the manufacturing grid, and refold the pending
    /// constraints.
    fn commit_value(&mut self, v: Var, val: Rat)
        requires
            old(self).inv_core(),
            (v.0 as int) < old(self).table().len(),
            old(self).table()[v.0 as int] is None,
            val.wf(),
            mentions(old(self).constraints(), v.0 as int),
            forall|m: VarAssign|
                assign_wf(m) && #[trigger] sat_all(m, old(self).constraints()) ==> q_eq(
                    m[v.0 as int],
                    val.q(),
                ),
        ensures
            final(self).inv_core(),
            final(self).table() == old(self).table().update(v.0 as int, Some(val)),
            final(self).constraints() == old(self).constraints(),
            final(self).next_var == old(self).next_var,
            final(self).next_constraint == old(self).next_constraint,
            final(self).n_solved == old(self).n_solved + 1,
            final(self).grid == old(self).grid,
            final(self).tol == old(self).tol,
            final(self).flagged().len() >= old(self).flagged().len(),
            forall|i: int|
                0 <= i < old(self).flagged().len() ==> final(self).flagged()[i] == old(
                    self,
                ).flagged()[i],
            old(self).pending@.len() == 0 ==> final(self).pending@.len() == 0 && final(self).ok
                == old(self).ok && final(self).flagged() == old(self).flagged(),
    {
        // manufacturing-grid check: flag the variable when its exact value
        // is further from the nearest grid point than the tolerance allows
        let off_grid = grid_check(val, &self.grid, &self.tol);
        if off_grid {
            self.invalid_rounding.push(v);
            proof {
                assert(self.invalid_rounding@.last() == v);
            }
        }
        proof {
            lemma_num_solved_missing(self.solved@, v.0 as int);
            lemma_num_solved_update(self.solved@, v.0 as int, val);
        }
        let ln: usize = self.solved.len();
        proof {
            assert((v.0 as int) < ln as int);
        }
        let idx: usize = v.0 as usize;
        proof {
            assert(idx as int == v.0 as int);
        }
        self.solved.set(idx, Some(val));
        self.n_solved += 1;
        proof {
            assert forall|m: VarAssign|
                assign_wf(m) && #[trigger] sat_all(m, self.registered@) implies agrees(
                m,
                self.solved@,
            ) && (forall|j: int|
                0 <= j < self.pending@.len() ==> (#[trigger] self.pending@[j]).expr.sat(m)) by {
                assert(agrees(m, old(self).solved@));
                assert forall|i: int|
                    0 <= i < self.solved@.len() && (#[trigger] self.solved@[i]) is Some implies
                    q_eq(m[i], self.solved@[i].unwrap().q()) by {
                    if i == v.0 as int {
                        assert(q_eq(m[i], val.q()));
                    } else {
                        assert(self.solved@[i] == old(self).solved@[i]);
                    }
                }
            }
            assert forall|i: int| 0 <= i < self.invalid_rounding@.len() implies self.solved@[(
            #[trigger] self.invalid_rounding@[i]).0 as int] is Some by {
                if i < old(self).invalid_rounding@.len() {
                    assert(self.invalid_rounding@[i] == old(self).invalid_rounding@[i]);
                    assert(old(self).solved@[old(self).invalid_rounding@[i].0 as int] is Some);
                } else {
                    assert(self.invalid_rounding@[i] == v);
                }
            }
            assert forall|vid: int|
                0 <= vid < self.solved@.len() && (#[trigger] self.solved@[vid]) is Some implies
                near_grid(self.solved@[vid].unwrap(), self.grid, self.tol) || rounding_flagged(
                self.invalid_rounding@,
                vid,
            ) by {
                if vid == v.0 as int {
                    if off_grid {
                        assert(self.invalid_rounding@.last() == v);
                        assert(rounding_flagged(self.invalid_rounding@, vid));
                    } else {
                        assert(near_grid(val, self.grid, self.tol));
                    }
                } else {
                    assert(self.solved@[vid] == old(self).solved@[vid]);
                    if rounding_flagged(old(self).invalid_rounding@, vid) {
                        let i0 = choose|i0: int|
                            0 <= i0 < old(self).invalid_rounding@.len() && (#[trigger] old(
                                self,
                            ).invalid_rounding@[i0]).0 as int == vid;
                        assert(self.invalid_rounding@[i0] == old(self).invalid_rounding@[i0]);
                        assert(rounding_flagged(self.invalid_rounding@, vid));
                    }
                }
            }
            assert(self.inv_loose());
        }
        self.resimplify();
    }

    /// Solve every pending constraint reduced to a single variable and
    /// propagate, until none is left (back-substitution to a fixed point).
    fn drain(&mut self)
        requires
            old(self).inv_core(),
        ensures
            final(self).inv(),
            final(self).constraints() == old(self).constraints(),
            final(self).next_var == old(self).next_var,
            final(self).next_constraint == old(self).next_constraint,
            final(self).grid == old(self).grid,
            final(self).tol == old(self).tol,
            final(self).table().len() == old(self).table().len(),
            forall|i: int|
                0 <= i < old(self).table().len() && (#[trigger] old(self).table()[i]) is Some
                    ==> final(self).table()[i] == old(self).table()[i],
            final(self).n_solved >= old(self).n_solved,
            final(self).flagged().len() >= old(self).flagged().len(),
            forall|i: int|
                0 <= i < old(self).flagged().len() ==> final(self).flagged()[i] == old(
                    self,
                ).flagged()[i],
            old(self).pending@.len() == 0 ==> *final(self) == *old(self),
    {
        loop
            invariant
                self.inv_core(),
                self.registered@ == old(self).registered@,
                self.next_var == old(self).next_var,
                self.next_constraint == old(self).next_constraint,
                self.grid == old(self).grid,
                self.tol == old(self).tol,
                self.solved@.len() == old(self).solved@.len(),
                forall|i: int|
                    0 <= i < old(self).solved@.len() && (#[trigger] old(self).solved@[i]) is Some
                        ==> self.solved@[i] == old(self).solved@[i],
                self.n_solved >= old(self).n_solved,
                self.inconsistent@.len() >= old(self).inconsistent@.len(),
                forall|i: int|
                    0 <= i < old(self).inconsistent@.len() ==> self.inconsistent@[i] == old(
                        self,
                    ).inconsistent@[i],
                old(self).pending@.len() == 0 ==> *self == *old(self),
            ensures
                self.saturated(),
                old(self).pending@.len() == 0 ==> *self == *old(self),
            decreases (self.next_var - self.n_solved) as int, self.pending@.len() as int,
        {
            // look for a pending constraint with exactly one term
            let mut found: usize = 0;
            let mut have: bool = false;
            let mut j: usize = 0;
            let n = self.pending.len();
            while !have && j < n
                invariant
                    j <= n,
                    n == self.pending@.len(),
                    have ==> found < n && self.pending@[found as int].expr.coeffs@.len() == 1,
                    !have ==> forall|t: int|
                        0 <= t < j ==> (#[trigger] self.pending@[t]).expr.coeffs@.len() != 1,
                decreases n - j, (if have { 0int } else { 1int }),
            {
                if self.pending[j].expr.coeffs.len() == 1 {
                    found = j;
                    have = true;
                } else {
                    j += 1;
                }
            }
            if !have {
                proof {
                    assert forall|t: int| 0 <= t < self.pending@.len() implies (
                    #[trigger] self.pending@[t]).expr.coeffs@.len() >= 2 by {
                        assert(self.pending_entry_ok(self.pending@[t]));
                        assert(self.pending@[t].expr.coeffs@.len() != 1);
                    }
                    assert(self.saturated());
                }
                break;
            }
            let ghost pre = *self;
            let c = self.pending.remove(found);
            proof {
                // removal keeps every per-entry property and every model fact
                assert forall|t: int| 0 <= t < self.pending@.len() implies self.pending_entry_ok(
                    #[trigger] self.pending@[t],
                ) && self.pending@[t].expr.clean(self.solved@) by {
                    if t < found {
                        assert(self.pending@[t] == pre.pending@[t]);
                    } else {
                        assert(self.pending@[t] == pre.pending@[t + 1]);
                    }
                    assert(pre.pending_entry_ok(self.pending@[t]));
                }
                assert forall|m: VarAssign|
                    assign_wf(m) && #[trigger] sat_all(m, self.registered@) implies agrees(
                    m,
                    self.solved@,
                ) && (forall|t: int|
                    0 <= t < self.pending@.len() ==> (#[trigger] self.pending@[t]).expr.sat(
                        m,
                    )) by {
                    assert forall|t: int| 0 <= t < self.pending@.len() implies (
                    #[trigger] self.pending@[t]).expr.sat(m) by {
                        if t < found {
                            assert(self.pending@[t] == pre.pending@[t]);
                        } else {
                            assert(self.pending@[t] == pre.pending@[t + 1]);
                        }
                    }
                }
            }
            let coeff = c.expr.coeffs[0].0;
            let v = c.expr.coeffs[0].1;
            let konst = c.expr.constant;
            let mut committed = false;
            match konst.neg() {
                None => {
                    self.ok = false;
                },
                Some(nk) => {
                    match nk.div(&coeff) {
                        None => {
                            self.ok = false;
                        },
                        Some(val) => {
                            proof {
                                // the registered system forces v to val:
                                // coeff * m[v] ~ -konst ~ nk ~ coeff * val
                                assert forall|m: VarAssign|
                                    assign_wf(m) && #[trigger] sat_all(
                                        m,
                                        self.registered@,
                                    ) implies q_eq(m[v.0 as int], val.q()) by {
                                    assert(pre.pending@[found as int].expr.sat(m));
                                    lemma_single_term_forces(c.expr, m);
                                    let x = m[v.0 as int];
                                    let cq = coeff.q();
                                    lemma_div_to_mul(val.q(), nk.q(), cq);
                                    lemma_q_add_wf(cq, x);
                                    lemma_q_add_wf(cq, val.q());
                                    lemma_q_eq_sym(nk.q(), q_neg(konst.q()));
                                    lemma_q_eq_sym(q_mul(cq, val.q()), nk.q());
                                    lemma_q_eq_trans(
                                        q_mul(cq, x),
                                        q_neg(konst.q()),
                                        nk.q(),
                                    );
                                    lemma_q_eq_trans(
                                        q_mul(cq, x),
                                        nk.q(),
                                        q_mul(cq, val.q()),
                                    );
                                    lemma_q_mul_cancel(cq, x, val.q());
                                }
                                // v is unsolved and mentioned
                                assert(crate::linear::table_lookup(self.solved@, v) is None);
                                assert(expr_vars_mentioned(c.expr, self.registered@));
                                assert(mentions(self.registered@, v.0 as int));
                            }
                            self.commit_value(v, val);
                            committed = true;
                        },
                    }
                },
            }
            proof {
                if !committed {
                    assert(self.pending@.len() < pre.pending@.len());
                    lemma_num_solved_le(self.solved@);
                } else {
                    lemma_num_solved_le(self.solved@);
                }
            }
        }
    }

    /// Register the constraint `expr == 0` and immediately back-substitute:
    /// the expression is folded against the solved table; reduced to a
    /// constant it is discharged (flagged when the constant is non-zero),
    /// reduced to a single variable that variable is solved at once and the
    /// value propagates through every pending constraint until no
    /// single-variable constraint remains.  The batched elimination of
    /// `solve` is never invoked here.  Always returns the new constraint's
    /// id; an already-solved variable is never overwritten.
    pub fn constrain_eq0(&mut self, expr: LinearExpr) -> (id: ConstraintId)
        requires
            old(self).inv(),
            expr.wf(),
            expr_vars_below(expr, old(self).var_count() as int),
            old(self).constraint_count() < u64::MAX,
        ensures
            final(self).inv(),
            id == old(self).constraint_count(),
            final(self).constraint_count() == old(self).constraint_count() + 1,
            final(self).constraints() == old(self).constraints().push(expr),
            final(self).var_count() == old(self).var_count(),
            final(self).table().len() == old(self).table().len(),
            forall|i: int|
                0 <= i < old(self).table().len() && (#[trigger] old(self).table()[i]) is Some
                    ==> final(self).table()[i] == old(self).table()[i],
            final(self).flagged().len() >= old(self).flagged().len(),
            forall|i: int|
                0 <= i < old(self).flagged().len() ==> final(self).flagged()[i] == old(
                    self,
                ).flagged()[i],
            // a constraint with no free variable is discharged at once, and
            // flagged exactly when its residual is non-zero
            final(self).arith_ok() && expr_fully_solved(expr, old(self).table()) && expr.val(
                table_assign(old(self).table()),
            ).0 != 0 ==> final(self).flagged().contains(id),
            final(self).arith_ok() && expr_fully_solved(expr, old(self).table()) && expr.val(
                table_assign(old(self).table()),
            ).0 == 0 ==> final(self).flagged() == old(self).flagged() && final(self).table()
                == old(self).table(),
            // back-substitution: a constraint whose only free variable is v,
            // and which neither holds for every extension of the current
            // solution nor for none, solves v immediately
            forall|v: Var|
                final(self).arith_ok() && #[trigger] expr_unsolved_only(
                    expr,
                    old(self).table(),
                    v,
                ) && informative(expr, old(self).table()) && (v.0 as int) < old(
                    self,
                ).table().len() ==> final(self).table()[v.0 as int] is Some,
            // with no backlog and a registration-friendly constraint, exact
            // arithmetic survives the whole call
            old(self).arith_ok() && old(self).resolved() && crate::linear::reg_small(
                expr,
                old(self).table(),
            ) ==> final(self).arith_ok(),
            old(self).arith_ok() && old(self).resolved() && crate::linear::reg_small(
                expr,
                old(self).table(),
            ) && expr_fully_solved(expr, old(self).table()) ==> final(self).resolved(),
            forall|v: Var|
                old(self).arith_ok() && old(self).resolved() && crate::linear::reg_small(
                    expr,
                    old(self).table(),
                ) && #[trigger] expr_unsolved_only(expr, old(self).table(), v)
                    ==> final(self).resolved(),
            // the committed value, named: the sole free term (c, v) is
            // solved so that c * value equals minus the residual of expr
            // under the current solution
            forall|t: int|
                old(self).arith_ok() && old(self).resolved() && crate::linear::reg_small(
                    expr,
                    old(self).table(),
                ) && #[trigger] sole_free(expr, old(self).table(), t) ==> {
                    let c = expr.coeffs@[t].0;
                    let v = expr.coeffs@[t].1;
                    &&& final(self).table()[v.0 as int] is Some
                    &&& final(self).table()[v.0 as int].unwrap().den == 1
                    &&& q_eq(
                        q_mul(c.q(), final(self).table()[v.0 as int].unwrap().q()),
                        q_neg(expr.val(table_assign(old(self).table()))),
                    )
                },
    {
        let id = self.next_constraint;
        self.next_constraint = id + 1;
        proof {
            self.registered@ = self.registered@.push(expr);
        }
        proof {
            self.lemma_after_push(*old(self), expr);
        }
        let e2opt = expr.simplify(&self.solved);
        match e2opt {
            None => {
                self.ok = false;
                id
            },
            Some(e2) => {
                proof {
                    // under any model of the extended system the folded
                    // expression is satisfied
                    assert forall|m: VarAssign|
                        assign_wf(m) && #[trigger] sat_all(m, self.registered@) implies e2.sat(
                        m,
                    ) by {
                        assert(self.registered@[self.registered@.len() - 1] == expr);
                        assert(expr.sat(m));
                        assert(agrees(m, self.solved@));
                        assert(q_eq(e2.val(m), expr.val(m)));
                        lemma_terms_val_wf(e2.coeffs@, m);
                        lemma_terms_val_wf(expr.coeffs@, m);
                        lemma_q_add_wf(terms_val(e2.coeffs@, m), e2.constant.q());
                        lemma_q_add_wf(terms_val(expr.coeffs@, m), expr.constant.q());
                        lemma_q_eq_zero(e2.val(m), expr.val(m));
                    }
                    // the folded expression's variables are the new
                    // constraint's own, hence mentioned and in range
                    assert forall|t: int| 0 <= t < e2.coeffs@.len() implies mentions(
                        self.registered@,
                        ((#[trigger] e2.coeffs@[t]).1.0) as int,
                    ) && ((e2.coeffs@[t].1.0) as int) < self.next_var as int by {
                        let w = e2.coeffs@[t].1;
                        assert(has_var(expr.coeffs@, w));
                        let t0 = choose|t0: int|
                            0 <= t0 < expr.coeffs@.len() && (#[trigger] expr.coeffs@[t0]).1 == w;
                        assert(self.registered@[self.registered@.len() - 1] == expr);
                    }
                }
                if e2.coeffs.len() == 0 {
                    proof {
                        // the folded constant is the residual of expr under
                        // the current solution
                        let mv = table_assign(old(self).solved@);
                        assert(assign_wf(mv));
                        assert(agrees(mv, old(self).solved@));
                        lemma_constant_fold(e2, expr, mv);
                        assert(e2.constant.q().0 == 0 <==> expr.val(mv).0 == 0);
                        // no sole free term can have survived into an empty
                        // fold
                        assert forall|t: int| #[trigger] sole_free(
                            expr,
                            old(self).solved@,
                            t,
                        ) implies false by {
                            assert(crate::linear::term_kept(e2, expr, t));
                            let t3 = choose|t3: int|
                                0 <= t3 < e2.coeffs@.len() && #[trigger] e2.coeffs@[t3]
                                    == expr.coeffs@[t];
                        }
                    }
                    if !e2.constant.is_zero() {
                        proof {
                            assert forall|m: VarAssign| assign_wf(m) implies !sat_all(
                                m,
                                self.registered@,
                            ) by {
                                if sat_all(m, self.registered@) {
                                    assert(e2.sat(m));
                                    assert(e2.coeffs@.len() == 0);
                                    assert(terms_val(e2.coeffs@, m) == (0int, 1int));
                                    assert(e2.val(m) == q_add((0int, 1int), e2.constant.q()));
                                    assert(q_add((0int, 1int), e2.constant.q()).0 == e2.constant.q().0)
                                        by (nonlinear_arith);
                                    assert(false);
                                }
                            }
                            // a constraint with a non-zero residual holds
                            // under no extension of the current solution
                            assert forall|v: Var|
                                self.ok && #[trigger] expr_unsolved_only(
                                    expr,
                                    old(self).solved@,
                                    v,
                                ) && informative(expr, old(self).solved@) && (v.0 as int) < old(
                                    self,
                                ).solved@.len() implies self.solved@[v.0 as int] is Some by {
                                let m1 = choose|m: VarAssign|
                                    #![trigger expr.val(m)]
                                    assign_wf(m) && agrees(m, old(self).solved@) && expr.sat(m);
                                lemma_constant_fold(e2, expr, m1);
                                assert(false);
                            }
                        }
                        self.flag(id);
                    } else {
                        proof {
                            // a trivially-satisfied constraint holds under
                            // every extension of the current solution
                            assert forall|v: Var|
                                self.ok && #[trigger] expr_unsolved_only(
                                    expr,
                                    old(self).solved@,
                                    v,
                                ) && informative(expr, old(self).solved@) && (v.0 as int) < old(
                                    self,
                                ).solved@.len() implies self.solved@[v.0 as int] is Some by {
                                let m0 = choose|m: VarAssign|
                                    #![trigger expr.val(m)]
                                    assign_wf(m) && agrees(m, old(self).solved@) && !expr.sat(m);
                                lemma_constant_fold(e2, expr, m0);
                                assert(false);
                            }
                        }
                    }
                    id
                } else if e2.coeffs.len() == 1 {
                    let coeff = e2.coeffs[0].0;
                    let v = e2.coeffs[0].1;
                    let konst = e2.constant;
                    match konst.neg() {
                        None => {
                            self.ok = false;
                        },
                        Some(nk) => {
                            match nk.div(&coeff) {
                                None => {
                                    self.ok = false;
                                },
                                Some(val) => {
                                    proof {
                                        assert forall|m: VarAssign|
                                            assign_wf(m) && #[trigger] sat_all(
                                                m,
                                                self.registered@,
                                            ) implies q_eq(m[v.0 as int], val.q()) by {
                                            lemma_single_term_forces(e2, m);
                                            let x = m[v.0 as int];
                                            let cq = coeff.q();
                                            lemma_div_to_mul(val.q(), nk.q(), cq);
                                            lemma_q_add_wf(cq, x);
                                            lemma_q_add_wf(cq, val.q());
                                            lemma_q_eq_sym(nk.q(), q_neg(konst.q()));
                                            lemma_q_eq_sym(q_mul(cq, val.q()), nk.q());
                                            lemma_q_eq_trans(
                                                q_mul(cq, x),
                                                q_neg(konst.q()),
                                                nk.q(),
                                            );
                                            lemma_q_eq_trans(
                                                q_mul(cq, x),
                                                nk.q(),
                                                q_mul(cq, val.q()),
                                            );
                                            lemma_q_mul_cancel(cq, x, val.q());
                                        }
                                        assert(crate::linear::table_lookup(self.solved@, v)
                                            is None);
                                        assert(mentions(self.registered@, v.0 as int));
                                    }
                                    let ghost before_commit = *self;
                                    self.commit_value(v, val);
                                    let ghost after_commit = *self;
                                    self.drain();
                                    proof {
                                        assert forall|i: int|
                                            0 <= i < old(self).solved@.len() && (#[trigger] old(
                                                self,
                                            ).solved@[i]) is Some implies self.solved@[i] == old(
                                            self,
                                        ).solved@[i] by {
                                            assert(after_commit.solved@[i] == before_commit
                                                .solved@[i]);
                                            assert(self.solved@[i] == after_commit.solved@[i]);
                                        }
                                        // the constraint's one free variable
                                        // is solved, and the value survives
                                        // the propagation
                                        assert(after_commit.solved@[v.0 as int] is Some);
                                        assert(self.solved@[v.0 as int] == after_commit.solved@[v.0 as int]);
                                        if old(self).arith_ok() && old(self).resolved() {
                                            // with no backlog, nothing
                                            // propagates: the state after the
                                            // commit is final
                                            assert(before_commit.pending@.len() == 0);
                                            assert(after_commit.pending@.len() == 0);
                                            assert(*self == after_commit);
                                            assert(self.ok == before_commit.ok);
                                            assert(self.resolved());
                                            assert(self.solved@[v.0 as int] == Some(val));
                                        }
                                        assert forall|t: int|
                                            old(self).arith_ok() && old(self).resolved()
                                                && crate::linear::reg_small(
                                                expr,
                                                old(self).solved@,
                                            ) && #[trigger] sole_free(
                                                expr,
                                                old(self).solved@,
                                                t,
                                            ) implies expr.coeffs@[t].0 == coeff
                                            && expr.coeffs@[t].1 == v && q_eq(
                                            q_mul(coeff.q(), val.q()),
                                            q_neg(expr.val(table_assign(old(self).solved@))),
                                        ) by {
                                            // the lone free term survives the
                                            // fold untouched, and is the
                                            // fold's only term
                                            assert(crate::linear::term_kept(e2, expr, t));
                                            let t3 = choose|t3: int|
                                                0 <= t3 < e2.coeffs@.len() && #[trigger] e2
                                                    .coeffs@[t3] == expr.coeffs@[t];
                                            assert(t3 == 0);
                                            assert(e2.coeffs@[0] == expr.coeffs@[t]);
                                            // the fold's constant is the
                                            // residual of expr with the free
                                            // variable reading zero
                                            let mv = table_assign(old(self).solved@);
                                            assert(assign_wf(mv));
                                            assert(agrees(mv, old(self).solved@));
                                            assert(crate::linear::table_lookup(
                                                old(self).solved@,
                                                v,
                                            ) is None);
                                            assert(mv[v.0 as int] == (0int, 1int));
                                            lemma_single_term_at_zero(e2, mv);
                                            assert(q_eq(e2.val(mv), expr.val(mv)));
                                            lemma_terms_val_wf(e2.coeffs@, mv);
                                            lemma_terms_val_wf(expr.coeffs@, mv);
                                            lemma_q_add_wf(terms_val(e2.coeffs@, mv), konst.q());
                                            lemma_q_add_wf(
                                                terms_val(expr.coeffs@, mv),
                                                expr.constant.q(),
                                            );
                                            lemma_q_eq_sym(e2.val(mv), konst.q());
                                            lemma_q_eq_trans(konst.q(), e2.val(mv), expr.val(mv));
                                            // chain: coeff * val ~ nk ~
                                            // -konst ~ -(residual)
                                            lemma_div_to_mul(val.q(), nk.q(), coeff.q());
                                            assert(q_eq(q_neg(konst.q()), q_neg(
                                                expr.val(mv),
                                            ))) by (nonlinear_arith)
                                                requires
                                                    q_eq(konst.q(), expr.val(mv)),
                                            ;
                                            lemma_q_add_wf(coeff.q(), val.q());
                                            lemma_q_eq_sym(nk.q(), q_neg(konst.q()));
                                            lemma_q_eq_trans(
                                                q_mul(coeff.q(), val.q()),
                                                nk.q(),
                                                q_neg(konst.q()),
                                            );
                                            lemma_q_eq_trans(
                                                q_mul(coeff.q(), val.q()),
                                                q_neg(konst.q()),
                                                q_neg(expr.val(mv)),
                                            );
                                            // a unit coefficient keeps the
                                            // value an integer structurally
                                            assert(coeff.den == 1 && (coeff.num == 1
                                                || coeff.num == -1));
                                            assert(val.den == 1);
                                        }
                                        assert forall|w: Var|
                                            self.ok && #[trigger] expr_unsolved_only(
                                                expr,
                                                old(self).solved@,
                                                w,
                                            ) && informative(expr, old(self).solved@) && (w.0
                                                as int) < old(self).solved@.len() implies self
                                            .solved@[w.0 as int] is Some by {
                                            assert(crate::linear::has_var(expr.coeffs@, v));
                                            let t0 = choose|t0: int|
                                                0 <= t0 < expr.coeffs@.len() && (
                                                #[trigger] expr.coeffs@[t0]).1 == v;
                                            assert(crate::linear::table_lookup(
                                                old(self).solved@,
                                                v,
                                            ) is None);
                                            assert(v == w);
                                        }
                                    }
                                },
                            }
                        },
                    }
                    proof {
                        // at least one variable of the constraint is free,
                        // so it cannot be fully solved
                        let w0 = e2.coeffs@[0].1;
                        assert(crate::linear::has_var(expr.coeffs@, w0));
                        let t0 = choose|t0: int|
                            0 <= t0 < expr.coeffs@.len() && (#[trigger] expr.coeffs@[t0]).1 == w0;
                        assert(crate::linear::table_lookup(old(self).solved@, w0) is None);
                        assert(!expr_fully_solved(expr, old(self).solved@));
                    }
                    id
                } else {
                    self.pending.push(SolverConstraint { id, expr: e2 });
                    proof {
                        let ghost pre = *self;
                        assert forall|j: int|
                            0 <= j < self.pending@.len() implies self.pending_entry_ok(
                            #[trigger] self.pending@[j],
                        ) && self.pending@[j].expr.clean(self.solved@) by {
                            if j < self.pending@.len() - 1 {
                                assert(self.pending_entry_ok(self.pending@[j]));
                            }
                        }
                        assert forall|m: VarAssign|
                            assign_wf(m) && #[trigger] sat_all(m, self.registered@) implies agrees(
                            m,
                            self.solved@,
                        ) && (forall|j: int|
                            0 <= j < self.pending@.len() ==> (#[trigger] self.pending@[j]).expr.sat(
                                m,
                            )) by {
                            assert forall|j: int| 0 <= j < self.pending@.len() implies (
                            #[trigger] self.pending@[j]).expr.sat(m) by {
                                if j < self.pending@.len() - 1 {
                                } else {
                                    assert(self.pending@[j].expr == e2);
                                }
                            }
                        }
                        // two distinct free variables: the constraint is
                        // neither fully solved nor reducible to one variable
                        let w0 = e2.coeffs@[0].1;
                        let w1 = e2.coeffs@[1].1;
                        assert(w0 != w1);
                        assert(crate::linear::has_var(expr.coeffs@, w0));
                        assert(crate::linear::has_var(expr.coeffs@, w1));
                        let t0 = choose|t0: int|
                            0 <= t0 < expr.coeffs@.len() && (#[trigger] expr.coeffs@[t0]).1 == w0;
                        let t1 = choose|t1: int|
                            0 <= t1 < expr.coeffs@.len() && (#[trigger] expr.coeffs@[t1]).1 == w1;
                        assert(crate::linear::table_lookup(old(self).solved@, w0) is None);
                        assert(crate::linear::table_lookup(old(self).solved@, w1) is None);
                        assert(!expr_fully_solved(expr, old(self).solved@));
                        assert forall|w: Var|
                            self.ok && #[trigger] expr_unsolved_only(
                                expr,
                                old(self).solved@,
                                w,
                            ) && informative(expr, old(self).solved@) && (w.0 as int) < old(
                                self,
                            ).solved@.len() implies self.solved@[w.0 as int] is Some by {
                            assert(w0 == w);
                            assert(w1 == w);
                            assert(false);
                        }
                        assert forall|w: Var| #[trigger] expr_unsolved_only(
                            expr,
                            old(self).solved@,
                            w,
                        ) implies false by {
                            assert(w0 == w);
                            assert(w1 == w);
                        }
                        assert forall|t: int| #[trigger] sole_free(
                            expr,
                            old(self).solved@,
                            t,
                        ) implies false by {
                            let wv = expr.coeffs@[t].1;
                            assert(expr_unsolved_only(expr, old(self).solved@, wv));
                        }
                    }
                    id
                }
            },
        }
    }

    /// Extending the registered system preserves every invariant clause:
    /// models of the larger system are models of the smaller one.
    proof fn lemma_after_push(&self, pre: Solver, expr: LinearExpr)
        requires
            pre.inv(),
            expr.wf(),
            expr_vars_below(expr, pre.next_var as int),
            pre.next_constraint < u64::MAX,
            self.registered@ == pre.registered@.push(expr),
            self.next_constraint == pre.next_constraint + 1,
            self.pending@ == pre.pending@,
            self.solved@ == pre.solved@,
            self.next_var == pre.next_var,
            self.n_solved == pre.n_solved,
            self.inconsistent@ == pre.inconsistent@,
            self.invalid_rounding@ == pre.invalid_rounding@,
            self.grid == pre.grid,
            self.tol == pre.tol,
        ensures
            self.inv(),
    {
        let reg = pre.registered@;
        let reg2 = self.registered@;
        assert forall|j: int| 0 <= j < self.pending@.len() implies self.pending_entry_ok(
            #[trigger] self.pending@[j],
        ) && self.pending@[j].expr.clean(self.solved@) by {
            assert(pre.pending_entry_ok(pre.pending@[j]));
            assert(pre.pending@[j].expr.clean(pre.solved@));
            assert forall|t: int| 0 <= t < self.pending@[j].expr.coeffs@.len() implies mentions(
                reg2,
                ((#[trigger] self.pending@[j].expr.coeffs@[t]).1.0) as int,
            ) by {
                let vid = (self.pending@[j].expr.coeffs@[t].1.0) as int;
                assert(mentions(reg, vid));
                let i0 = choose|i0: int|
                    0 <= i0 < reg.len() && has_var((#[trigger] reg[i0]).coeffs@, Var(vid as u64));
                assert(reg2[i0] == reg[i0]);
            }
        }
        assert forall|vid: int|
            0 <= vid < self.solved@.len() && (#[trigger] self.solved@[vid]) is Some implies
            mentions(reg2, vid) by {
            assert(mentions(reg, vid));
            let i0 = choose|i0: int|
                0 <= i0 < reg.len() && has_var((#[trigger] reg[i0]).coeffs@, Var(vid as u64));
            assert(reg2[i0] == reg[i0]);
        }
        assert forall|m: VarAssign|
            assign_wf(m) && #[trigger] sat_all(m, reg2) implies agrees(m, self.solved@) && (
        forall|j: int|
            0 <= j < self.pending@.len() ==> (#[trigger] self.pending@[j]).expr.sat(m)) by {
            assert forall|i: int| 0 <= i < reg.len() implies (#[trigger] reg[i]).sat(m) by {
                assert(reg2[i] == reg[i]);
                assert(reg2[i].sat(m));
            }
            assert(sat_all(m, reg));
        }
        if self.inconsistent@.len() > 0 {
            assert forall|m: VarAssign| assign_wf(m) implies !sat_all(m, reg2) by {
                if sat_all(m, reg2) {
                    assert forall|i: int| 0 <= i < reg.len() implies (#[trigger] reg[i]).sat(
                        m,
                    ) by {
                        assert(reg2[i] == reg[i]);
                        assert(reg2[i].sat(m));
                    }
                    assert(sat_all(m, reg));
                    assert(!sat_all(m, reg));
                }
            }
        }
    }

    /// Remove pending row `j`, keeping every invariant.
    fn drop_row(&mut self, j: usize)
        requires
            old(self).inv_core(),
            j < old(self).pending@.len(),
        ensures
            final(self).inv_core(),
            final(self).pending@ == old(self).pending@.remove(j as int),
            final(self).table() == old(self).table(),
            final(self).constraints() == old(self).constraints(),
            final(self).next_var == old(self).next_var,
            final(self).next_constraint == old(self).next_constraint,
            final(self).n_solved == old(self).n_solved,
            final(self).inconsistent@ == old(self).inconsistent@,
            final(self).invalid_rounding@ == old(self).invalid_rounding@,
            final(self).grid == old(self).grid,
            final(self).tol == old(self).tol,
            final(self).ok == old(self).ok,
    {
        let ghost pre = *self;
        self.pending.remove(j);
        proof {
            assert forall|t: int| 0 <= t < self.pending@.len() implies self.pending_entry_ok(
                #[trigger] self.pending@[t],
            ) && self.pending@[t].expr.clean(self.solved@) by {
                if t < j {
                    assert(self.pending@[t] == pre.pending@[t]);
                } else {
                    assert(self.pending@[t] == pre.pending@[t + 1]);
                }
                assert(pre.pending_entry_ok(self.pending@[t]));
            }
            assert forall|m: VarAssign|
                assign_wf(m) && #[trigger] sat_all(m, self.registered@) implies agrees(
                m,
                self.solved@,
            ) && (forall|t: int|
                0 <= t < self.pending@.len() ==> (#[trigger] self.pending@[t]).expr.sat(m)) by {
                assert forall|t: int| 0 <= t < self.pending@.len() implies (
                #[trigger] self.pending@[t]).expr.sat(m) by {
                    if t < j {
                        assert(self.pending@[t] == pre.pending@[t]);
                    } else {
                        assert(self.pending@[t] == pre.pending@[t + 1]);
                    }
                }
            }
        }
    }

    /// One pass of exact row reduction: for each row in turn, its leading
    /// variable is eliminated from every other row by subtracting the right
    /// multiple of it.  Rows reduced to a true constant are discharged,
    /// rows reduced to a non-zero constant are flagged; the solved table is
    /// untouched (the back-substitution of `drain` commits values).
    fn eliminate_pass(&mut self)
        requires
            old(self).inv_core(),
        ensures
            final(self).inv_core(),
            final(self).table() == old(self).table(),
            final(self).constraints() == old(self).constraints(),
            final(self).next_var == old(self).next_var,
            final(self).next_constraint == old(self).next_constraint,
            final(self).n_solved == old(self).n_solved,
            final(self).grid == old(self).grid,
            final(self).tol == old(self).tol,
            final(self).invalid_rounding@ == old(self).invalid_rounding@,
            final(self).flagged().len() >= old(self).flagged().len(),
            forall|i: int|
                0 <= i < old(self).flagged().len() ==> final(self).flagged()[i] == old(
                    self,
                ).flagged()[i],
            old(self).pending@.len() == 0 ==> *final(self) == *old(self),
    {
        let mut i: usize = 0;
        while i < self.pending.len()
            invariant
                old(self).pending@.len() == 0 ==> *self == *old(self),
                self.inv_core(),
                i <= self.pending@.len(),
                self.solved@ == old(self).solved@,
                self.registered@ == old(self).registered@,
                self.next_var == old(self).next_var,
                self.next_constraint == old(self).next_constraint,
                self.n_solved == old(self).n_solved,
                self.grid == old(self).grid,
                self.tol == old(self).tol,
                self.invalid_rounding@ == old(self).invalid_rounding@,
                self.inconsistent@.len() >= old(self).inconsistent@.len(),
                forall|t: int|
                    0 <= t < old(self).inconsistent@.len() ==> self.inconsistent@[t] == old(
                        self,
                    ).inconsistent@[t],
            decreases self.pending@.len() - i,
        {
            let pv = self.pending[i].expr.coeffs[0].1;
            let pc = self.pending[i].expr.coeffs[0].0;
            let ghost pivot = self.pending@[i as int];
            let ghost len0 = self.pending@.len();
            let ghost i0 = i as int;
            let mut j: usize = 0;
            while j < self.pending.len()
                invariant
                    self.inv_core(),
                    i < self.pending@.len(),
                    j <= self.pending@.len(),
                    self.pending@.len() - (i as int) <= len0 - i0,
                    self.pending@[i as int] == pivot,
                    pivot.expr.coeffs@.len() >= 1,
                    pivot.expr.coeffs@[0] == (pc, pv),
                    pc.num != 0,
                    pc.wf(),
                    self.solved@ == old(self).solved@,
                    self.registered@ == old(self).registered@,
                    self.next_var == old(self).next_var,
                    self.next_constraint == old(self).next_constraint,
                    self.n_solved == old(self).n_solved,
                    self.grid == old(self).grid,
                    self.tol == old(self).tol,
                    self.invalid_rounding@ == old(self).invalid_rounding@,
                    self.inconsistent@.len() >= old(self).inconsistent@.len(),
                    forall|t: int|
                        0 <= t < old(self).inconsistent@.len() ==> self.inconsistent@[t] == old(
                            self,
                        ).inconsistent@[t],
                decreases self.pending@.len() - j,
            {
                if j == i {
                    j += 1;
                } else {
                    match crate::linear::find_var(&self.pending[j].expr.coeffs, pv) {
                        None => {
                            j += 1;
                        },
                        Some(t) => {
                            let ghost row = self.pending@[j as int];
                            let cj = self.pending[j].expr.coeffs[t].0;
                            let jid = self.pending[j].id;
                            let mut out: Option<LinearExpr> = None;
                            match cj.div(&pc) {
                                None => {},
                                Some(f) => {
                                    match self.pending[i].expr.scale(&f) {
                                        None => {},
                                        Some(sc) => {
                                            match self.pending[j].expr.sub_expr(&sc) {
                                                None => {},
                                                Some(ne) => {
                                                    match ne.simplify(&self.solved) {
                                                        None => {},
                                                        Some(e2) => {
                                                            proof {
                                                                self.lemma_comb_row(
                                                                    pivot.expr,
                                                                    row.expr,
                                                                    f,
                                                                    sc,
                                                                    ne,
                                                                    e2,
                                                                );
                                                            }
                                                            out = Some(e2);
                                                        },
                                                    }
                                                },
                                            }
                                        },
                                    }
                                },
                            }
                            match out {
                                None => {
                                    // the combination left the rational range
                                    self.ok = false;
                                    self.drop_row(j);
                                    if j < i {
                                        i -= 1;
                                    }
                                    proof {
                                        if j < i + 1 {
                                            assert(self.pending@[i as int] == pivot);
                                        } else {
                                            assert(self.pending@[i as int] == pivot);
                                        }
                                    }
                                },
                                Some(e2) => {
                                    if e2.coeffs.len() == 0 {
                                        if !e2.constant.is_zero() {
                                            proof {
                                                assert forall|m: VarAssign| assign_wf(m) implies
                                                    !sat_all(m, self.registered@) by {
                                                    if sat_all(m, self.registered@) {
                                                        assert(e2.sat(m));
                                                        assert(terms_val(e2.coeffs@, m) == (
                                                            0int,
                                                            1int,
                                                        ));
                                                        assert(e2.val(m) == q_add(
                                                            (0int, 1int),
                                                            e2.constant.q(),
                                                        ));
                                                        assert(q_add(
                                                            (0int, 1int),
                                                            e2.constant.q(),
                                                        ).0 == e2.constant.q().0)
                                                            by (nonlinear_arith);
                                                        assert(false);
                                                    }
                                                }
                                            }
                                            self.flag(jid);
                                        }
                                        self.drop_row(j);
                                        if j < i {
                                            i -= 1;
                                        }
                                    } else {
                                        let ghost pre = *self;
                                        self.pending.set(j, SolverConstraint { id: jid, expr: e2 });
                                        proof {
                                            assert forall|tt: int|
                                                0 <= tt < self.pending@.len() implies self
                                                .pending_entry_ok(#[trigger] self.pending@[tt])
                                                && self.pending@[tt].expr.clean(self.solved@) by {
                                                if tt != j {
                                                    assert(self.pending@[tt] == pre.pending@[tt]);
                                                    assert(pre.pending_entry_ok(
                                                        self.pending@[tt],
                                                    ));
                                                }
                                            }
                                            assert forall|m: VarAssign|
                                                assign_wf(m) && #[trigger] sat_all(
                                                    m,
                                                    self.registered@,
                                                ) implies agrees(m, self.solved@) && (forall|
                                                tt: int,
                                            |
                                                0 <= tt < self.pending@.len() ==> (
                                                #[trigger] self.pending@[tt]).expr.sat(m)) by {
                                                assert forall|tt: int|
                                                    0 <= tt < self.pending@.len() implies (
                                                #[trigger] self.pending@[tt]).expr.sat(m) by {
                                                    if tt != j {
                                                        assert(self.pending@[tt] == pre
                                                            .pending@[tt]);
                                                    }
                                                }
                                            }
                                        }
                                        j += 1;
                                    }
                                },
                            }
                        },
                    }
                }
            }
            i += 1;
        }
    }

    /// The row combination `e2 = fold(row - f * pivot)` holds under every
    /// model of the registered system, mentions only variables the system
    /// mentions, and stays in range.
    proof fn lemma_comb_row(
        &self,
        pivot_e: LinearExpr,
        row_e: LinearExpr,
        f: Rat,
        sc: LinearExpr,
        ne: LinearExpr,
        e2: LinearExpr,
    )
        requires
            self.inv_core(),
            pivot_e.wf(),
            row_e.wf(),
            f.wf(),
            sc.wf(),
            ne.wf(),
            e2.wf(),
            e2.clean(self.solved@),
            expr_vars_below(pivot_e, self.next_var as int),
            expr_vars_below(row_e, self.next_var as int),
            expr_vars_mentioned(pivot_e, self.registered@),
            expr_vars_mentioned(row_e, self.registered@),
            forall|m: VarAssign|
                assign_wf(m) && #[trigger] sat_all(m, self.registered@) ==> pivot_e.sat(m)
                    && row_e.sat(m),
            forall|m: VarAssign|
                assign_wf(m) ==> q_eq(#[trigger] sc.val(m), q_mul(f.q(), pivot_e.val(m))),
            forall|m: VarAssign|
                assign_wf(m) ==> q_eq(
                    #[trigger] ne.val(m),
                    q_add(row_e.val(m), q_mul((-1int, 1int), sc.val(m))),
                ),
            forall|t: int|
                0 <= t < ne.coeffs@.len() ==> has_var(row_e.coeffs@, (#[trigger] ne.coeffs@[t]).1)
                    || has_var(sc.coeffs@, ne.coeffs@[t].1),
            sc.coeffs@.len() == pivot_e.coeffs@.len(),
            forall|t: int|
                0 <= t < sc.coeffs@.len() ==> (#[trigger] sc.coeffs@[t]).1 == pivot_e.coeffs@[t].1,
            forall|m: VarAssign|
                assign_wf(m) && agrees(m, self.solved@) ==> q_eq(#[trigger] e2.val(m), ne.val(m)),
            forall|t: int|
                0 <= t < e2.coeffs@.len() ==> has_var(ne.coeffs@, (#[trigger] e2.coeffs@[t]).1),
        ensures
            forall|m: VarAssign|
                assign_wf(m) && #[trigger] sat_all(m, self.registered@) ==> e2.sat(m),
            expr_vars_below(e2, self.next_var as int),
            expr_vars_mentioned(e2, self.registered@),
    {
        assert forall|m: VarAssign|
            assign_wf(m) && #[trigger] sat_all(m, self.registered@) implies e2.sat(m) by {
            assert(pivot_e.sat(m));
            assert(row_e.sat(m));
            lemma_terms_val_wf(pivot_e.coeffs@, m);
            lemma_terms_val_wf(row_e.coeffs@, m);
            lemma_terms_val_wf(sc.coeffs@, m);
            lemma_terms_val_wf(ne.coeffs@, m);
            lemma_terms_val_wf(e2.coeffs@, m);
            lemma_q_add_wf(terms_val(pivot_e.coeffs@, m), pivot_e.constant.q());
            lemma_q_add_wf(terms_val(row_e.coeffs@, m), row_e.constant.q());
            lemma_q_add_wf(terms_val(sc.coeffs@, m), sc.constant.q());
            lemma_q_add_wf(terms_val(ne.coeffs@, m), ne.constant.q());
            lemma_q_add_wf(terms_val(e2.coeffs@, m), e2.constant.q());
            lemma_row_comb_zero(ne.val(m), row_e.val(m), sc.val(m), f.q(), pivot_e.val(m));
            assert(agrees(m, self.solved@));
            lemma_q_eq_zero(e2.val(m), ne.val(m));
        }
        assert forall|t: int| 0 <= t < e2.coeffs@.len() implies mentions(
            self.registered@,
            ((#[trigger] e2.coeffs@[t]).1.0) as int,
        ) && (((e2.coeffs@[t]).1.0) as int) < self.next_var as int by {
            let w = e2.coeffs@[t].1;
            assert(has_var(ne.coeffs@, w));
            let t1 = choose|t1: int|
                0 <= t1 < ne.coeffs@.len() && (#[trigger] ne.coeffs@[t1]).1 == w;
            if has_var(row_e.coeffs@, w) {
                let t2 = choose|t2: int|
                    0 <= t2 < row_e.coeffs@.len() && (#[trigger] row_e.coeffs@[t2]).1 == w;
            } else {
                assert(has_var(sc.coeffs@, w));
                let t2 = choose|t2: int|
                    0 <= t2 < sc.coeffs@.len() && (#[trigger] sc.coeffs@[t2]).1 == w;
                assert(pivot_e.coeffs@[t2].1 == w);
            }
        }
    }

    /// Resolve the coupled constraints that back-substitution alone cannot:
    /// alternate row reduction and back-substitution until no further
    /// variable is solved.  Variables the system does not determine stay
    /// unsolved; already-solved variables are never changed.
    ///
    /// The verified contract states soundness: a committed value is forced
    /// by the registered system and a flag means the system has no
    /// solution (the invariant behind `lemma_flag_sound` and
    /// `lemma_order_independence`).  That the elimination also finds every
    /// uniquely-determined variable is a property of the algorithm the
    /// test suite exercises, not a clause proved here.
    pub fn solve(&mut self)
        requires
            old(self).inv(),
        ensures
            final(self).inv(),
            final(self).constraints() == old(self).constraints(),
            final(self).constraint_count() == old(self).constraint_count(),
            final(self).var_count() == old(self).var_count(),
            final(self).table().len() == old(self).table().len(),
            forall|i: int|
                0 <= i < old(self).table().len() && (#[trigger] old(self).table()[i]) is Some
                    ==> final(self).table()[i] == old(self).table()[i],
            final(self).flagged().len() >= old(self).flagged().len(),
            forall|i: int|
                0 <= i < old(self).flagged().len() ==> final(self).flagged()[i] == old(
                    self,
                ).flagged()[i],
            old(self).resolved() ==> *final(self) == *old(self),
    {
        self.solve_rounds();
    }

    /// The body of `solve`, shared with `force_solution`.
    fn solve_rounds(&mut self)
        requires
            old(self).inv(),
        ensures
            final(self).inv(),
            final(self).constraints() == old(self).constraints(),
            final(self).constraint_count() == old(self).constraint_count(),
            final(self).var_count() == old(self).var_count(),
            final(self).table().len() == old(self).table().len(),
            final(self).n_solved >= old(self).n_solved,
            final(self).grid == old(self).grid,
            final(self).tol == old(self).tol,
            forall|i: int|
                0 <= i < old(self).table().len() && (#[trigger] old(self).table()[i]) is Some
                    ==> final(self).table()[i] == old(self).table()[i],
            final(self).flagged().len() >= old(self).flagged().len(),
            forall|i: int|
                0 <= i < old(self).flagged().len() ==> final(self).flagged()[i] == old(
                    self,
                ).flagged()[i],
            old(self).resolved() ==> *final(self) == *old(self),
    {
        loop
            invariant
                self.inv(),
                old(self).resolved() ==> *self == *old(self),
                self.registered@ == old(self).registered@,
                self.next_var == old(self).next_var,
                self.next_constraint == old(self).next_constraint,
                self.grid == old(self).grid,
                self.tol == old(self).tol,
                self.n_solved >= old(self).n_solved,
                self.solved@.len() == old(self).solved@.len(),
                forall|i: int|
                    0 <= i < old(self).solved@.len() && (#[trigger] old(self).solved@[i]) is Some
                        ==> self.solved@[i] == old(self).solved@[i],
                self.inconsistent@.len() >= old(self).inconsistent@.len(),
                forall|i: int|
                    0 <= i < old(self).inconsistent@.len() ==> self.inconsistent@[i] == old(
                        self,
                    ).inconsistent@[i],
            decreases (self.next_var - self.n_solved) as int,
        {
            proof {
                lemma_num_solved_le(self.solved@);
            }
            let before = self.n_solved;
            self.eliminate_pass();
            self.drain();
            proof {
                lemma_num_solved_le(self.solved@);
            }
            if self.n_solved == before {
                break;
            }
        }
    }

    /// The configured manufacturing-grid step.
    pub closed spec fn grid_of(self) -> Rat {
        self.grid
    }

    /// The configured rounding tolerance.
    pub closed spec fn tol_of(self) -> Rat {
        self.tol
    }

    /// The variables whose solved value fell off the manufacturing grid by
    /// more than the tolerance, in the order they were solved.
    pub closed spec fn rounding_flags(self) -> Seq<Var> {
        self.invalid_rounding@
    }

    /// `r` is either the exact value `exact`, or a grid point within the
    /// rounding tolerance of it: what the value queries hand out.
    pub open spec fn rounded_of(self, r: Rat, exact: Q) -> bool {
        r.wf() && (q_eq(r.q(), exact) || (grid_point(r.q(), self.grid_of().q()) && q_le(
            q_abs(q_sub(exact, r.q())),
            self.tol_of().q(),
        )))
    }

    /// Snap `val` to the grid when the nearest grid point is within the
    /// tolerance; hand the exact value back otherwise.
    fn present(&self, val: Rat) -> (r: Rat)
        requires
            self.inv(),
            val.wf(),
        ensures
            self.rounded_of(r, val.q()),
            grid_point(val.q(), self.grid_of().q()) ==> q_eq(r.q(), val.q()),
    {
        proof {
            crate::rat::lemma_q_eq_refl(val.q());
        }
        match val.round_to(&self.grid) {
            None => val,
            Some(g) => match val.sub(&g) {
                None => val,
                Some(dv) => {
                    proof {
                        if grid_point(val.q(), self.grid.q()) {
                            // an on-grid value is its own rounding, so the
                            // tolerance check accepts it
                            assert(q_eq(g.q(), val.q()));
                            lemma_q_eq_sym(g.q(), val.q());
                            assert(dv.q().0 == 0) by (nonlinear_arith)
                                requires
                                    q_eq(dv.q(), q_sub(val.q(), g.q())),
                                    q_eq(val.q(), g.q()),
                                    val.den > 0,
                                    g.den > 0,
                                    dv.den > 0,
                            ;
                            assert(q_le(q_neg(self.tol.q()), dv.q()) && q_le(
                                dv.q(),
                                self.tol.q(),
                            )) by (nonlinear_arith)
                                requires
                                    dv.q().0 == 0,
                                    self.tol.num >= 0,
                                    self.tol.den > 0,
                                    dv.den > 0,
                            ;
                        }
                    }
                    if dv.abs_le(&self.tol) {
                        proof {
                            lemma_abs_within(val.q(), g.q(), dv.q(), self.tol.q());
                        }
                        g
                    } else {
                        val
                    }
                },
            },
        }
    }

    /// The solved value of `var`, snapped to the manufacturing grid when it
    /// rounds cleanly; `None` while the variable is unsolved.
    pub fn value_of(&self, var: Var) -> (r: Option<Rat>)
        requires
            self.inv(),
        ensures
            r is Some <==> ((var.0 as int) < self.table().len() && self.table()[var.0 as int]
                is Some),
            r is Some ==> self.rounded_of(r.unwrap(), self.table()[var.0 as int].unwrap().q()),
            r is Some && grid_point(
                self.table()[var.0 as int].unwrap().q(),
                self.grid_of().q(),
            ) ==> q_eq(r.unwrap().q(), self.table()[var.0 as int].unwrap().q()),
    {
        if var.0 < self.solved.len() as u64 {
            let idx = var.0 as usize;
            match self.solved[idx] {
                None => None,
                Some(val) => Some(self.present(val)),
            }
        } else {
            None
        }
    }

    /// Whether `var` has been solved.
    pub fn is_solved(&self, var: Var) -> (r: bool)
        requires
            self.inv(),
        ensures
            r == ((var.0 as int) < self.table().len() && self.table()[var.0 as int] is Some),
    {
        var.0 < self.solved.len() as u64 && self.solved[var.0 as usize].is_some()
    }

    /// Whether every allocated variable has been solved.
    pub fn fully_solved(&self) -> (r: bool)
        requires
            self.inv(),
        ensures
            r == (forall|i: int| 0 <= i < self.table().len() ==> (#[trigger] self.table()[i])
                is Some),
    {
        proof {
            if self.n_solved == self.next_var {
                lemma_num_solved_all_some(self.solved@);
            } else {
                lemma_num_solved_not_full(self.solved@);
            }
        }
        self.n_solved == self.next_var
    }

    /// The still-unsolved variables, in increasing id order.
    pub fn unsolved_vars(&self) -> (r: Vec<Var>)
        requires
            self.inv(),
        ensures
            forall|t: int|
                0 <= t < r@.len() ==> ((#[trigger] r@[t]).0 as int) < self.table().len()
                    && self.table()[r@[t].0 as int] is None,
            forall|vid: int|
                0 <= vid < self.table().len() && (#[trigger] self.table()[vid]) is None ==> exists|
                    t: int,
                |
                    0 <= t < r@.len() && (#[trigger] r@[t]).0 as int == vid,
            forall|t1: int, t2: int| 0 <= t1 < t2 < r@.len() ==> r@[t1].0 < r@[t2].0,
    {
        let mut r: Vec<Var> = Vec::new();
        let n = self.solved.len();
        let mut i: usize = 0;
        while i < n
            invariant
                i <= n,
                n == self.solved@.len(),
                self.inv(),
                forall|t: int|
                    0 <= t < r@.len() ==> ((#[trigger] r@[t]).0 as int) < i && self.solved@[r@[t].0
                        as int] is None,
                forall|vid: int|
                    0 <= vid < i && (#[trigger] self.solved@[vid]) is None ==> exists|t: int|
                        0 <= t < r@.len() && ((#[trigger] r@[t]).0 as int) == vid,
                forall|t1: int, t2: int| 0 <= t1 < t2 < r@.len() ==> r@[t1].0 < r@[t2].0,
            decreases n - i,
        {
            let ghost prev_r = r@;
            if self.solved[i].is_none() {
                r.push(Var(i as u64));
            }
            proof {
                assert forall|vid: int|
                    0 <= vid < i + 1 && (#[trigger] self.solved@[vid]) is None implies exists|
                    t: int,
                |
                    0 <= t < r@.len() && ((#[trigger] r@[t]).0 as int) == vid by {
                    if vid < i {
                        let t0 = choose|t0: int|
                            0 <= t0 < prev_r.len() && ((#[trigger] prev_r[t0]).0 as int) == vid;
                        assert(r@[t0] == prev_r[t0]);
                    } else {
                        assert(((r@[r@.len() - 1]).0 as int) == vid);
                    }
                }
            }
            i += 1;
        }
        r
    }

    /// The ids of the constraints found inconsistent so far, in the order
    /// they were flagged.
    pub fn inconsistent_constraints(&self) -> (r: &Vec<ConstraintId>)
        ensures
            r@ == self.flagged(),
    {
        &self.inconsistent
    }

    /// The variables whose solved value fell off the manufacturing grid.
    pub fn invalid_roundings(&self) -> (r: &Vec<Var>)
        ensures
            r@ == self.rounding_flags(),
    {
        &self.invalid_rounding
    }

    /// Evaluate an expression over the solved values, grid-snapped like
    /// `value_of`; `None` when a referenced variable is unsolved or the
    /// arithmetic leaves the rational range.
    pub fn eval_expr(&self, expr: &LinearExpr) -> (r: Option<Rat>)
        requires
            self.inv(),
            expr.wf(),
        ensures
            r is Some ==> self.rounded_of(r.unwrap(), expr.val(table_assign(self.table()))),
            r is Some ==> forall|t: int|
                0 <= t < expr.coeffs@.len() ==> crate::linear::table_lookup(
                    self.table(),
                    (#[trigger] expr.coeffs@[t]).1,
                ) is Some,
            expr.coeffs@.len() == 0 ==> r is Some,
            int_chain(*expr, self.table()) ==> r is Some,
    {
        let ghost mv = table_assign(self.solved@);
        proof {
            assert(assign_wf(mv));
        }
        let mut acc: Rat = expr.constant;
        proof {
            assert(expr.coeffs@.take(0) =~= Seq::<(Rat, Var)>::empty());
            crate::rat::lemma_q_add_zero(expr.constant.q());
            lemma_q_eq_sym(q_add((0int, 1int), expr.constant.q()), expr.constant.q());
            if int_chain(*expr, self.solved@) {
                assert(q_add((0int, 1int), expr.constant.q()).0 == expr.constant.num)
                    by (nonlinear_arith)
                    requires
                        expr.constant.den == 1,
                ;
            }
        }
        let n = expr.coeffs.len();
        let mut t: usize = 0;
        while t < n
            invariant
                t <= n,
                n == expr.coeffs@.len(),
                self.inv(),
                expr.wf(),
                acc.wf(),
                mv == table_assign(self.solved@),
                q_eq(acc.q(), q_add(terms_val(expr.coeffs@.take(t as int), mv), expr.constant.q())),
                int_chain(*expr, self.solved@) ==> acc.den == 1 && acc.num as int == q_add(
                    terms_val(expr.coeffs@.take(t as int), mv),
                    expr.constant.q(),
                ).0,
                forall|t2: int|
                    0 <= t2 < t ==> crate::linear::table_lookup(
                        self.solved@,
                        (#[trigger] expr.coeffs@[t2]).1,
                    ) is Some,
            decreases n - t,
        {
            let (c, v) = expr.coeffs[t];
            let ghost take_prev = expr.coeffs@.take(t as int);
            let ghost take_next = expr.coeffs@.take(t as int + 1);
            proof {
                assert(take_next.drop_last() =~= take_prev);
                assert(take_next.last() == (c, v));
                assert(crate::linear::terms_wf(take_prev));
                assert(crate::linear::terms_wf(take_next));
            }
            proof {
                if int_chain(*expr, self.solved@) {
                    assert(crate::linear::table_lookup(self.solved@, expr.coeffs@[t as int].1)
                        is Some);
                }
            }
            if v.0 >= self.solved.len() as u64 {
                return None;
            }
            let sv = match self.solved[v.0 as usize] {
                None => {
                    return None;
                },
                Some(sv) => sv,
            };
            proof {
                if int_chain(*expr, self.solved@) {
                    // the partial integer sums stay in range, so the checked
                    // operations below cannot fail
                    let x = mv[v.0 as int];
                    assert(x == sv.q());
                    lemma_terms_val_int_take(*expr, self.solved@, mv, t as int);
                    lemma_terms_val_int_take(*expr, self.solved@, mv, t as int + 1);
                    assert(terms_val(take_next, mv) == q_add(
                        terms_val(take_prev, mv),
                        q_mul(c.q(), x),
                    ));
                    assert(q_add(terms_val(take_next, mv), expr.constant.q()).0 == q_add(
                        terms_val(take_prev, mv),
                        expr.constant.q(),
                    ).0 + c.num * sv.num) by (nonlinear_arith)
                        requires
                            terms_val(take_prev, mv).1 == 1,
                            terms_val(take_next, mv) == q_add(
                                terms_val(take_prev, mv),
                                q_mul(c.q(), x),
                            ),
                            c.den == 1,
                            x.1 == 1,
                            x.0 == sv.num as int,
                            expr.constant.den == 1,
                    ;
                }
            }
            let prod = match c.mul(&sv) {
                None => {
                    return None;
                },
                Some(p) => p,
            };
            let acc2 = match acc.add(&prod) {
                None => {
                    return None;
                },
                Some(a) => a,
            };
            proof {
                let x = mv[v.0 as int];
                assert(x == sv.q());
                let term = q_mul(c.q(), x);
                lemma_terms_val_wf(take_prev, mv);
                lemma_terms_val_wf(take_next, mv);
                lemma_q_add_wf(c.q(), x);
                // acc2 ~ acc + prod, prod == c * x exactly here
                // chain: acc2 ~ (tv + const) + term ~ (tv + term) + const
                crate::linear::lemma_step_fold_shift(
                    terms_val(take_prev, mv),
                    terms_val(take_next, mv),
                    acc.q(),
                    acc2.q(),
                    expr.constant.q(),
                    term,
                    prod.q(),
                );
            }
            acc = acc2;
            t += 1;
        }
        proof {
            assert(expr.coeffs@.take(n as int) =~= expr.coeffs@);
            lemma_terms_val_wf(expr.coeffs@, mv);
            lemma_q_add_wf(terms_val(expr.coeffs@, mv), expr.constant.q());
        }
        let out = self.present(acc);
        proof {
            lemma_rounded_congr(*self, out, acc.q(), expr.val(mv));
        }
        Some(out)
    }

    /// Pin every still-unsolved variable to zero, one at a time, propagating
    /// after each (the last-resort path for previewing under-constrained
    /// designs).  Terminates within the variable count and leaves every
    /// variable solved.
    pub fn force_solution(&mut self)
        requires
            old(self).inv(),
            old(self).constraint_count() as int + old(self).var_count() as int <= u64::MAX as int,
        ensures
            final(self).inv(),
            final(self).var_count() == old(self).var_count(),
            final(self).table().len() == old(self).table().len(),
            forall|i: int|
                0 <= i < final(self).table().len() ==> (#[trigger] final(self).table()[i]) is Some,
            forall|i: int|
                0 <= i < old(self).table().len() && (#[trigger] old(self).table()[i]) is Some
                    ==> final(self).table()[i] == old(self).table()[i],
            forall|i: int|
                0 <= i < old(self).constraints().len() ==> final(self).constraints()[i] == old(
                    self,
                ).constraints()[i],
            old(self).table().len() == 0 ==> *final(self) == *old(self),
            // what was added: one `v == 0` pin per remaining variable
            forall|i: int|
                old(self).constraints().len() <= i < final(self).constraints().len() ==> {
                    let e = #[trigger] final(self).constraints()[i];
                    &&& e.coeffs@.len() == 1
                    &&& e.coeffs@[0].0 == (Rat { num: 1, den: 1 })
                    &&& e.constant == (Rat { num: 0, den: 1 })
                },
    {
        loop
            invariant
                self.inv(),
                old(self).solved@.len() == 0 ==> *self == *old(self),
                self.next_var == old(self).next_var,
                self.grid == old(self).grid,
                self.tol == old(self).tol,
                self.solved@.len() == old(self).solved@.len(),
                self.next_constraint as int + (self.next_var as int - self.n_solved as int)
                    <= u64::MAX as int,
                forall|i: int|
                    0 <= i < old(self).solved@.len() && (#[trigger] old(self).solved@[i]) is Some
                        ==> self.solved@[i] == old(self).solved@[i],
                forall|i: int|
                    0 <= i < old(self).registered@.len() ==> self.registered@[i] == old(
                        self,
                    ).registered@[i],
                self.registered@.len() >= old(self).registered@.len(),
                forall|i: int|
                    old(self).registered@.len() <= i < self.registered@.len() ==> {
                        let e = #[trigger] self.registered@[i];
                        &&& e.coeffs@.len() == 1
                        &&& e.coeffs@[0].0 == (Rat { num: 1, den: 1 })
                        &&& e.constant == (Rat { num: 0, den: 1 })
                    },
            ensures
                forall|i: int|
                    0 <= i < self.solved@.len() ==> (#[trigger] self.solved@[i]) is Some,
            decreases (self.next_var - self.n_solved) as int,
        {
            proof {
                lemma_num_solved_le(self.solved@);
            }
            // find the first unsolved variable
            let n = self.solved.len();
            let mut i: usize = 0;
            let mut unsolved: Option<Var> = None;
            while unsolved.is_none() && i < n
                invariant
                    i <= n,
                    n == self.solved@.len(),
                    self.solved@.len() == self.next_var as int,
                    unsolved is None ==> forall|t: int|
                        0 <= t < i ==> (#[trigger] self.solved@[t]) is Some,
                    unsolved is Some ==> ((unsolved.unwrap().0 as int) < self.solved@.len()
                        && self.solved@[unsolved.unwrap().0 as int] is None),
                decreases n - i, (if unsolved is None { 1int } else { 0int }),
            {
                if self.solved[i].is_none() {
                    unsolved = Some(Var(i as u64));
                } else {
                    i += 1;
                }
            }
            let v = match unsolved {
                None => {
                    break;
                },
                Some(v) => v,
            };
            // register v == 0, then commit the forced value directly
            let e = LinearExpr::from_var(v);
            let ghost pre = *self;
            proof {
                lemma_num_solved_missing(self.solved@, v.0 as int);
            }
            self.next_constraint = self.next_constraint + 1;
            proof {
                self.registered@ = self.registered@.push(e);
            }
            proof {
                self.lemma_after_push(pre, e);
                assert forall|m: VarAssign|
                    assign_wf(m) && #[trigger] sat_all(m, self.registered@) implies q_eq(
                    m[v.0 as int],
                    (Rat { num: 0i64, den: 1i64 }).q(),
                ) by {
                    assert(self.registered@[self.registered@.len() - 1] == e);
                    assert(e.sat(m));
                    assert(q_eq(e.val(m), m[v.0 as int]));
                    lemma_terms_val_wf(e.coeffs@, m);
                    lemma_q_add_wf(terms_val(e.coeffs@, m), e.constant.q());
                    lemma_q_eq_sym(e.val(m), m[v.0 as int]);
                    lemma_q_eq_zero(m[v.0 as int], e.val(m));
                }
                assert(e.coeffs@[0].1 == v);
                assert(has_var(e.coeffs@, v));
                assert(self.registered@[self.registered@.len() - 1] == e);
                assert(mentions(self.registered@, v.0 as int));
            }
            let ghost before_c = *self;
            self.commit_value(v, Rat { num: 0, den: 1 });
            let ghost after_c = *self;
            self.drain();
            // the pinned value can untie coupled rows that back-substitution
            // alone cannot: re-run the full batched pass
            self.solve_rounds();
            proof {
                assert(self.n_solved >= after_c.n_solved);
                assert forall|i2: int|
                    0 <= i2 < old(self).solved@.len() && (#[trigger] old(self).solved@[i2])
                        is Some implies self.solved@[i2] == old(self).solved@[i2] by {
                    assert(before_c.solved@[i2] == old(self).solved@[i2]);
                    assert(i2 != v.0 as int);
                    assert(after_c.solved@[i2] == before_c.solved@[i2]);
                    assert(self.solved@[i2] == after_c.solved@[i2]);
                }
                lemma_num_solved_le(self.solved@);
            }
        }
    }
}

/// All entries counted means all entries present.
proof fn lemma_num_solved_all_some(s: Seq<Option<Rat>>)
    requires
        num_solved(s) == s.len(),
    ensures
        forall|i: int| 0 <= i < s.len() ==> (#[trigger] s[i]) is Some,
{
    assert forall|i: int| 0 <= i < s.len() implies (#[trigger] s[i]) is Some by {
        if s[i] is None {
            lemma_num_solved_missing(s, i);
        }
    }
}

/// A count short of the length leaves some entry missing.
proof fn lemma_num_solved_not_full(s: Seq<Option<Rat>>)
    requires
        num_solved(s) != s.len(),
    ensures
        !(forall|i: int| 0 <= i < s.len() ==> (#[trigger] s[i]) is Some),
    decreases s.len(),
{
    lemma_num_solved_le(s);
    if s.len() > 0 {
        if s.last() is Some {
            lemma_num_solved_not_full(s.drop_last());
            let i0 = choose|i: int|
                0 <= i < s.drop_last().len() && !((#[trigger] s.drop_last()[i]) is Some);
            assert(s[i0] is None);
        } else {
            assert(s[s.len() - 1] is None);
        }
    }
}

/// A difference within the tolerance carries over to the absolute bound of
/// the rounded presentation.
proof fn lemma_abs_within(val: Q, g: Q, dv: Q, tol: Q)
    requires
        q_wf(val),
        q_wf(g),
        q_wf(dv),
        q_wf(tol),
        q_eq(dv, q_sub(val, g)),
        q_le(q_neg(tol), dv),
        q_le(dv, tol),
    ensures
        q_le(q_abs(q_sub(val, g)), tol),
{
    let d = q_sub(val, g);
    assert(q_wf(d)) by (nonlinear_arith)
        requires
            val.1 > 0,
            g.1 > 0,
            d == q_sub(val, g),
    ;
    assert(q_le(q_neg(tol), d) && q_le(d, tol)) by (nonlinear_arith)
        requires
            q_eq(dv, d),
            q_le(q_neg(tol), dv),
            q_le(dv, tol),
            q_wf(dv),
            q_wf(d),
            q_wf(tol),
    ;
    assert(q_le(q_abs(d), tol)) by (nonlinear_arith)
        requires
            q_le(q_neg(tol), d),
            q_le(d, tol),
            q_wf(d),
            q_wf(tol),
    ;
}

/// Whether `val` misses every grid point by more than the tolerance, as
/// far as exact arithmetic can tell; a `false` answer comes with the
/// nearby grid point.
fn grid_check(val: Rat, step: &Rat, tol: &Rat) -> (off: bool)
    requires
        val.wf(),
        step.wf(),
        step.num > 0,
        tol.wf(),
    ensures
        !off ==> near_grid(val, *step, *tol),
{
    match val.round_to(step) {
        None => true,
        Some(r) => match val.sub(&r) {
            None => true,
            Some(dv) => {
                if dv.abs_le(tol) {
                    proof {
                        lemma_abs_within(val.q(), r.q(), dv.q(), tol.q());
                        let k = choose|k: int|
                            q_eq(r.q(), #[trigger] q_mul((k, 1int), step.q()));
                        lemma_abs_sub_congr(
                            val.q(),
                            r.q(),
                            q_mul((k, 1int), step.q()),
                            tol.q(),
                        );
                    }
                    false
                } else {
                    true
                }
            },
        },
    }
}

/// An absolute-difference bound carries over when the subtrahend is
/// replaced by an equal rational.
proof fn lemma_abs_sub_congr(val: Q, a: Q, b: Q, tol: Q)
    requires
        q_wf(val),
        q_wf(a),
        q_wf(b),
        q_wf(tol),
        q_eq(a, b),
        q_le(q_abs(q_sub(val, a)), tol),
    ensures
        q_le(q_abs(q_sub(val, b)), tol),
{
    let da = q_sub(val, a);
    let db = q_sub(val, b);
    assert(da.0 == val.0 * a.1 + (-a.0) * val.1 && da.1 == val.1 * a.1);
    assert(db.0 == val.0 * b.1 + (-b.0) * val.1 && db.1 == val.1 * b.1);
    vstd::arithmetic::mul::lemma_mul_is_distributive_add_other_way(
        a.1,
        val.0 * b.1,
        (-b.0) * val.1,
    );
    vstd::arithmetic::mul::lemma_mul_is_distributive_add_other_way(
        b.1,
        val.0 * a.1,
        (-a.0) * val.1,
    );
    assert((val.0 * b.1) * a.1 == (val.0 * a.1) * b.1) by (nonlinear_arith);
    assert(((-b.0) * val.1) * a.1 == ((-a.0) * val.1) * b.1) by (nonlinear_arith)
        requires
            a.0 * b.1 == b.0 * a.1,
    ;
    assert(db.0 * a.1 == da.0 * b.1);
    if da.0 >= 0 {
        assert(db.0 >= 0 && db.0 * tol.1 <= tol.0 * db.1) by (nonlinear_arith)
            requires
                db.0 * a.1 == da.0 * b.1,
                da.0 >= 0,
                da.0 * tol.1 <= tol.0 * da.1,
                da.1 == val.1 * a.1,
                db.1 == val.1 * b.1,
                a.1 > 0,
                b.1 > 0,
                val.1 > 0,
                tol.1 > 0,
        ;
    } else {
        assert(db.0 < 0 && (0 - db.0) * tol.1 <= tol.0 * db.1) by (nonlinear_arith)
            requires
                db.0 * a.1 == da.0 * b.1,
                da.0 < 0,
                (0 - da.0) * tol.1 <= tol.0 * da.1,
                da.1 == val.1 * a.1,
                db.1 == val.1 * b.1,
                a.1 > 0,
                b.1 > 0,
                val.1 > 0,
                tol.1 > 0,
        ;
    }
}

/// `rounded_of` respects rational equality of the exact value.
proof fn lemma_rounded_congr(s: Solver, r: Rat, a: Q, b: Q)
    requires
        s.inv(),
        r.wf(),
        q_wf(a),
        q_wf(b),
        q_eq(a, b),
        s.rounded_of(r, a),
    ensures
        s.rounded_of(r, b),
{
    if q_eq(r.q(), a) {
        lemma_q_eq_trans(r.q(), a, b);
    } else {
        let tol = s.tol_of().q();
        let rn = r.q().0;
        let rd = r.q().1;
        let da = q_sub(a, r.q());
        let db = q_sub(b, r.q());
        assert(q_le(q_abs(da), tol));
        assert(da.0 == a.0 * rd + (-rn) * a.1 && da.1 == a.1 * rd);
        assert(db.0 == b.0 * rd + (-rn) * b.1 && db.1 == b.1 * rd);
        assert(db.0 * a.1 == da.0 * b.1) by (nonlinear_arith)
            requires
                a.0 * b.1 == b.0 * a.1,
                da.0 == a.0 * rd + (-rn) * a.1,
                db.0 == b.0 * rd + (-rn) * b.1,
        ;
        if da.0 >= 0 {
            assert(db.0 >= 0 && db.0 * tol.1 <= tol.0 * db.1) by (nonlinear_arith)
                requires
                    db.0 * a.1 == da.0 * b.1,
                    da.0 >= 0,
                    da.0 * tol.1 <= tol.0 * da.1,
                    da.1 == a.1 * rd,
                    db.1 == b.1 * rd,
                    a.1 > 0,
                    b.1 > 0,
                    rd > 0,
                    tol.1 > 0,
                    q_abs(da) == ((da.0, da.1)),
            ;
        } else {
            assert(db.0 < 0 && (0 - db.0) * tol.1 <= tol.0 * db.1) by (nonlinear_arith)
                requires
                    db.0 * a.1 == da.0 * b.1,
                    da.0 < 0,
                    (0 - da.0) * tol.1 <= tol.0 * da.1,
                    da.1 == a.1 * rd,
                    db.1 == b.1 * rd,
                    a.1 > 0,
                    b.1 > 0,
                    rd > 0,
                    tol.1 > 0,
            ;
        }
    }
}

/// For a fixed, fully-determined constraint system, the solved values do not
/// depend on the order in which the constraints were registered: any two
/// solvers holding the same constraints as a multiset, where the system has
/// a model `m`, agree (as rational values) on every variable both have
/// solved.  Order can matter only where no model exists (an inconsistent
/// system pins the first value seen) or where the system leaves variables
/// under-determined (those stay unsolved).
pub proof fn lemma_order_independence(s1: Solver, s2: Solver, m: VarAssign)
    requires
        s1.inv(),
        s2.inv(),
        assign_wf(m),
        sat_all(m, s1.constraints()),
        s1.constraints().to_multiset() == s2.constraints().to_multiset(),
    ensures
        forall|vid: int|
            0 <= vid < s1.table().len() && 0 <= vid < s2.table().len() && (#[trigger] s1.table()[vid]) is Some
                && (#[trigger] s2.table()[vid]) is Some ==> q_eq(
                s1.table()[vid].unwrap().q(),
                s2.table()[vid].unwrap().q(),
            ),
{
    assert forall|i: int| 0 <= i < s2.constraints().len() implies (
    #[trigger] s2.constraints()[i]).sat(m) by {
        let e = s2.constraints()[i];
        assert(s2.constraints().contains(e));
        s2.constraints().to_multiset_ensures();
        s1.constraints().to_multiset_ensures();
        assert(s2.constraints().to_multiset().count(e) > 0);
        assert(s1.constraints().contains(e));
        let i0 = choose|i0: int|
            0 <= i0 < s1.constraints().len() && s1.constraints()[i0] == e;
        assert(s1.constraints()[i0].sat(m));
    }
    assert(sat_all(m, s2.constraints()));
    assert(agrees(m, s1.table()));
    assert(agrees(m, s2.table()));
    assert forall|vid: int|
        0 <= vid < s1.table().len() && 0 <= vid < s2.table().len() && (#[trigger] s1.table()[vid])
            is Some && (#[trigger] s2.table()[vid]) is Some implies q_eq(
        s1.table()[vid].unwrap().q(),
        s2.table()[vid].unwrap().q(),
    ) by {
        let v1 = s1.table()[vid].unwrap();
        let v2 = s2.table()[vid].unwrap();
        assert(q_eq(m[vid], v1.q()));
        assert(q_eq(m[vid], v2.q()));
        lemma_q_eq_sym(m[vid], v1.q());
        lemma_q_eq_trans(v1.q(), m[vid], v2.q());
    }
}

/// When the fold of `expr` against a table has no terms left, its constant
/// carries the value of `expr` under any assignment agreeing with that
/// table: one is zero exactly when the other is.
proof fn lemma_constant_fold(e2: LinearExpr, expr: LinearExpr, m: VarAssign)
    requires
        e2.wf(),
        expr.wf(),
        assign_wf(m),
        e2.coeffs@.len() == 0,
        q_eq(e2.val(m), expr.val(m)),
    ensures
        e2.constant.q().0 == 0 <==> expr.val(m).0 == 0,
{
    assert(terms_val(e2.coeffs@, m) == (0int, 1int));
    assert(e2.val(m) == q_add((0int, 1int), e2.constant.q()));
    assert(q_add((0int, 1int), e2.constant.q()).0 == e2.constant.q().0) by (nonlinear_arith);
    lemma_terms_val_wf(expr.coeffs@, m);
    lemma_q_add_wf(terms_val(expr.coeffs@, m), expr.constant.q());
    lemma_q_add_wf((0int, 1int), e2.constant.q());
    if e2.constant.q().0 == 0 {
        lemma_q_eq_sym(e2.val(m), expr.val(m));
        lemma_q_eq_zero(expr.val(m), e2.val(m));
    } else {
        if expr.val(m).0 == 0 {
            lemma_q_eq_zero(e2.val(m), expr.val(m));
            assert(false);
        }
    }
}

/// What the invalid-rounding list means: every listed variable is solved,
/// and every solved variable either lies within the rounding tolerance of a
/// manufacturing-grid point or is listed.  A solved variable that is absent
/// from the list therefore rounds cleanly.
pub proof fn lemma_rounding_flags(s: Solver)
    requires
        s.inv(),
    ensures
        forall|i: int|
            0 <= i < s.rounding_flags().len() ==> s.table()[(#[trigger] s.rounding_flags()[i]).0
                as int] is Some,
        forall|vid: int|
            0 <= vid < s.table().len() && (#[trigger] s.table()[vid]) is Some ==> near_grid(
                s.table()[vid].unwrap(),
                s.grid_of(),
                s.tol_of(),
            ) || rounding_flagged(s.rounding_flags(), vid),
{
}

/// What a committed value means: any assignment that satisfies every
/// registered constraint agrees, as a rational value, with every entry of
/// the solved table.  Together with a model of the constraint system this
/// pins each committed value exactly.
pub proof fn lemma_models_agree(s: Solver, m: VarAssign)
    requires
        s.inv(),
        assign_wf(m),
        sat_all(m, s.constraints()),
    ensures
        agrees(m, s.table()),
{
}

/// The solved table has one entry per allocated variable.
pub proof fn lemma_table_len(s: Solver)
    requires
        s.inv(),
    ensures
        s.table().len() == s.var_count(),
{
}

/// A variable no registered constraint mentions is never solved.
pub proof fn lemma_unmentioned_unsolved(s: Solver, vid: int)
    requires
        s.inv(),
        0 <= vid < s.table().len(),
        !mentions(s.constraints(), vid),
    ensures
        s.table()[vid] is None,
{
}

/// Every flagged id was issued: flagged ids lie below the constraint count.
pub proof fn lemma_flag_ids_issued(s: Solver)
    requires
        s.inv(),
    ensures
        forall|i: int|
            0 <= i < s.flagged().len() ==> (#[trigger] s.flagged()[i]) < s.constraint_count(),
{
}

/// A flagged constraint id means the registered system as a whole has no
/// solution: inconsistency is never reported spuriously.
pub proof fn lemma_flag_sound(s: Solver)
    requires
        s.inv(),
        s.flagged().len() > 0,
    ensures
        unsat(s.constraints()),
{
}


/// The value of a two-term expression under an assignment, written out:
/// used by callers to compute residuals concretely.
pub proof fn lemma_val_two_terms(e: LinearExpr, m: VarAssign)
    requires
        e.wf(),
        assign_wf(m),
        e.coeffs@.len() == 2,
    ensures
        q_eq(
            e.val(m),
            q_add(
                q_add(
                    q_mul(e.coeffs@[0].0.q(), m[e.coeffs@[0].1.0 as int]),
                    q_mul(e.coeffs@[1].0.q(), m[e.coeffs@[1].1.0 as int]),
                ),
                e.constant.q(),
            ),
        ),
{
    let t0 = q_mul(e.coeffs@[0].0.q(), m[e.coeffs@[0].1.0 as int]);
    let t1 = q_mul(e.coeffs@[1].0.q(), m[e.coeffs@[1].1.0 as int]);
    assert(e.coeffs@.drop_last() =~= seq![e.coeffs@[0]]);
    assert(e.coeffs@.drop_last().drop_last() =~= Seq::<(Rat, Var)>::empty());
    assert(terms_val(Seq::<(Rat, Var)>::empty(), m) == (0int, 1int));
    assert(e.coeffs@.drop_last().last() == e.coeffs@[0]);
    assert(terms_val(e.coeffs@.drop_last(), m) == q_add((0int, 1int), t0));
    assert(e.coeffs@.last() == e.coeffs@[1]);
    assert(terms_val(e.coeffs@, m) == q_add(q_add((0int, 1int), t0), t1));
    lemma_q_add_wf(e.coeffs@[0].0.q(), m[e.coeffs@[0].1.0 as int]);
    lemma_q_add_wf(e.coeffs@[1].0.q(), m[e.coeffs@[1].1.0 as int]);
    crate::rat::lemma_q_add_zero(t0);
    lemma_q_add_wf((0int, 1int), t0);
    crate::rat::lemma_q_add_congr(q_add((0int, 1int), t0), t0, t1, t1);
    lemma_q_add_wf(q_add((0int, 1int), t0), t1);
    lemma_q_add_wf(t0, t1);
    crate::rat::lemma_q_add_congr(terms_val(e.coeffs@, m), q_add(t0, t1), e.constant.q(),
        e.constant.q());
    lemma_q_add_wf(terms_val(e.coeffs@, m), e.constant.q());
    lemma_q_add_wf(q_add(t0, t1), e.constant.q());
    crate::rat::lemma_q_eq_refl(e.val(m));
}

} // verus!
