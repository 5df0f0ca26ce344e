//! The cell evaluator.
//!
//! Walks the statements of one cell declaration with bound parameter
//! values, threading one `Solver`: literals and bound names evaluate to
//! linear expressions, `rect` calls allocate four fresh coordinate
//! variables and register the supplied coordinates as equality constraints,
//! `eq` calls register the difference of two linear expressions, and
//! instance calls compile the referenced cell (once per parameter binding —
//! further instances reuse the compiled record) and record a placement.
//! Instancing never shares the parent's solver: each cell compiles with an
//! independent solver and placement is a geometric transform applied after
//! solving.  A cell may only instantiate cells declared before it, which
//! rules hierarchy cycles out up front.  Only `+` and `-` combine two
//! variable-bearing expressions; `*` and `/` of two non-constant operands
//! are rejected as non-linear.
use vstd::prelude::*;

use crate::hier::Placement;
use crate::hier::Rect;
use crate::hier::SourceInfo;
use crate::linear::LinearExpr;
use crate::linear::Var;
use crate::rat::Rat;
use crate::solver::Solver;
use crate::solver::expr_vars_below;

verus! {

/// A name id assigned by an earlier binding pass.
pub type BindId = u64;

/// Binary arithmetic operators of the language.
#[derive(Clone, Copy, Debug, PartialEq, Eq, Structural)]
pub enum BinOp {
    Add,
    Sub,
    Mul,
    Div,
}

/// The four coordinate fields of a rectangle.
#[derive(Clone, Copy, Debug, PartialEq, Eq, Structural)]
pub enum CoordKw {
    X0,
    Y0,
    X1,
    Y1,
}

/// An expression of a cell body, with resolved name ids and source spans.
#[derive(Debug)]
pub enum Expr {
    /// A numeric literal.
    Num(Rat, SourceInfo),
    /// A reference to a `let`-bound name or cell parameter.
    Ref(BindId, SourceInfo),
    /// Binary arithmetic.
    Bin(BinOp, Box<Expr>, Box<Expr>, SourceInfo),
    /// A coordinate of a rectangle value.
    Field(Box<Expr>, CoordKw, SourceInfo),
    /// `rect(layer, x0 = .., ..)`: allocate a rectangle with the four
    /// optional coordinate arguments in x0, y0, x1, y1 order.
    RectCall(
        Option<String>,
        Option<Box<Expr>>,
        Option<Box<Expr>>,
        Option<Box<Expr>>,
        Option<Box<Expr>>,
        SourceInfo,
    ),
    /// `eq(lhs, rhs)`: register an equality constraint.
    EqCall(Box<Expr>, Box<Expr>, SourceInfo),
    /// Instantiate an earlier cell with constant parameters and a
    /// placement, under a name for hierarchy addressing.
    Inst(usize, Vec<Rat>, Placement, String, SourceInfo),
}

/// A statement of a cell body.
#[derive(Debug)]
pub enum Stmt {
    Let(BindId, Expr),
    Bare(Expr),
}

/// One cell declaration: parameters and a body.
#[derive(Debug)]
pub struct CellDecl {
    pub params: Vec<BindId>,
    pub body: Vec<Stmt>,
}

/// A whole program: cell declarations, later ones may instantiate earlier
/// ones.
#[derive(Debug)]
pub struct Program {
    pub cells: Vec<CellDecl>,
}

/// A value produced during evaluation.
#[derive(Clone, Debug)]
pub enum Value {
    Lin(LinearExpr),
    RectV(Rect<Var>),
    Unit,
}

/// The evaluation failures, each with its originating span.
#[derive(Clone, Copy, Debug, PartialEq, Eq, Structural)]
pub enum ExecError {
    /// Multiplying two variable-bearing expressions, or dividing by one:
    /// the result would not be linear.
    Nonlinear(SourceInfo),
    /// Dividing by an exactly-zero constant.
    DivByZero(SourceInfo),
    /// A value of the wrong kind in this context.
    TypeMismatch(SourceInfo),
    /// A name used before its declaration.
    UndefinedName(SourceInfo),
    /// An instance of a cell index that is not declared earlier.
    NoSuchCell(SourceInfo),
    /// Wrong number of instance parameters.
    Arity(SourceInfo),
    /// Exact rational arithmetic left the representable range.
    NumericRange(SourceInfo),
    /// Too many variables or constraints for the machine limits.
    Resource(SourceInfo),
}

/// A solved object of a compiled cell.
#[derive(Clone, Debug)]
pub enum SolvedValue {
    SRect(Rect<Rat>),
    SInstance(InstanceRef),
}

/// A placed reference to another compiled cell.
#[derive(Clone, Debug)]
pub struct InstanceRef {
    pub cell: usize,
    pub place: Placement,
    pub name: String,
    pub oid: u64,
}

/// One compiled cell: its objects plus solver diagnostics.
#[derive(Clone, Debug)]
pub struct CellData {
    /// The declaration this cell was compiled from.
    pub decl: usize,
    /// The parameter binding it was compiled with.
    pub params: Vec<Rat>,
    /// The emitted objects, in program order.
    pub objects: Vec<SolvedValue>,
    /// Variables the constraints did not determine.
    pub unsolved: Vec<Var>,
    /// Constraint ids found inconsistent.
    pub inconsistent: Vec<u64>,
    /// Variables whose value missed the manufacturing grid.
    pub invalid_rounding: Vec<Var>,
}

/// The output of a compile: all compiled cells (instances reference them by
/// index) and the index of the top cell.
#[derive(Clone, Debug)]
pub struct CompiledData {
    pub cells: Vec<CellData>,
    pub top: usize,
}

/// A compile either succeeds or reports errors beside a best-effort
/// partial output.
#[derive(Clone, Debug)]
pub enum CompileOutput {
    Valid(CompiledData),
    ExecErrors { errors: Vec<ExecError>, output: Option<CompiledData> },
}

/// Whether a linear expression is a constant (no variable terms).
pub open spec fn is_const(e: LinearExpr) -> bool {
    e.coeffs@.len() == 0
}

/// Combine two evaluated operands.  The exact decision contract: `+` and
/// `-` always combine; `*` needs at least one constant operand and `/` a
/// non-zero constant divisor, anything else is the non-linear error.
pub fn eval_binop(op: BinOp, l: &LinearExpr, r: &LinearExpr, span: SourceInfo) -> (res: Result<
    LinearExpr,
    ExecError,
>)
    requires
        l.wf(),
        r.wf(),
    ensures
        res is Ok ==> res.unwrap().wf(),
        op == BinOp::Mul && !is_const(*l) && !is_const(*r) ==> res == Result::<
            LinearExpr,
            ExecError,
        >::Err(ExecError::Nonlinear(span)),
        op == BinOp::Div && !is_const(*r) ==> res == Result::<LinearExpr, ExecError>::Err(
            ExecError::Nonlinear(span),
        ),
        op == BinOp::Div && is_const(*r) && r.constant.num == 0 ==> res == Result::<
            LinearExpr,
            ExecError,
        >::Err(ExecError::DivByZero(span)),
        forall|n: int|
            expr_vars_below(*l, n) && expr_vars_below(*r, n) && res is Ok ==> expr_vars_below(
                #[trigger] res.unwrap(),
                n,
            ),
        // what an accepted combination means, under every assignment
        op == BinOp::Add && res is Ok ==> forall|m: crate::linear::VarAssign|
            crate::linear::assign_wf(m) ==> crate::rat::q_eq(
                #[trigger] res.unwrap().val(m),
                crate::rat::q_add(l.val(m), r.val(m)),
            ),
        op == BinOp::Sub && res is Ok ==> forall|m: crate::linear::VarAssign|
            crate::linear::assign_wf(m) ==> crate::rat::q_eq(
                #[trigger] res.unwrap().val(m),
                crate::rat::q_add(l.val(m), crate::rat::q_mul((-1int, 1int), r.val(m))),
            ),
        op == BinOp::Mul && is_const(*r) && res is Ok ==> forall|m: crate::linear::VarAssign|
            crate::linear::assign_wf(m) ==> crate::rat::q_eq(
                #[trigger] res.unwrap().val(m),
                crate::rat::q_mul(r.constant.q(), l.val(m)),
            ),
        op == BinOp::Mul && is_const(*l) && !is_const(*r) && res is Ok ==> forall|
            m: crate::linear::VarAssign,
        |
            crate::linear::assign_wf(m) ==> crate::rat::q_eq(
                #[trigger] res.unwrap().val(m),
                crate::rat::q_mul(l.constant.q(), r.val(m)),
            ),
        op == BinOp::Div && res is Ok ==> forall|m: crate::linear::VarAssign|
            crate::linear::assign_wf(m) ==> crate::rat::q_eq(
                crate::rat::q_mul(r.constant.q(), #[trigger] res.unwrap().val(m)),
                l.val(m),
            ),
        // integer operands whose combination fits always combine
        op == BinOp::Add && l.constant.den == 1 && r.constant.den == 1
            && -0x7fff_ffff_ffff_ffff <= l.constant.num + r.constant.num
            <= 0x7fff_ffff_ffff_ffff ==> res is Ok,
        op == BinOp::Sub && l.constant.den == 1 && r.constant.den == 1 && r.constant.num
            > i64::MIN && -0x7fff_ffff_ffff_ffff <= l.constant.num - r.constant.num
            <= 0x7fff_ffff_ffff_ffff && (forall|t: int|
            0 <= t < r.coeffs@.len() ==> (#[trigger] r.coeffs@[t]).0.den == 1
                && r.coeffs@[t].0.num > i64::MIN) ==> res is Ok,
        op == BinOp::Mul && is_const(*r) && r.constant.den == 1 && l.constant.den == 1
            && -0x7fff_ffff_ffff_ffff <= l.constant.num * r.constant.num
            <= 0x7fff_ffff_ffff_ffff && (forall|t: int|
            0 <= t < l.coeffs@.len() ==> (#[trigger] l.coeffs@[t]).0.den == 1
                && -0x7fff_ffff_ffff_ffff <= r.constant.num * l.coeffs@[t].0.num
                <= 0x7fff_ffff_ffff_ffff) ==> res is Ok,
        op == BinOp::Div && is_const(*r) && r.constant.den == 1 && (r.constant.num == 1
            || r.constant.num == -1) && l.constant.den == 1 && l.constant.num > i64::MIN && (
        forall|t: int|
            0 <= t < l.coeffs@.len() ==> (#[trigger] l.coeffs@[t]).0.den == 1
                && l.coeffs@[t].0.num > i64::MIN) ==> res is Ok,
{
    match op {
        BinOp::Add => match l.add_expr(r) {
            None => Err(ExecError::NumericRange(span)),
            Some(e) => {
                proof {
                    lemma_below_concat(*l, *r, e);
                }
                Ok(e)
            },
        },
        BinOp::Sub => match l.sub_expr(r) {
            None => Err(ExecError::NumericRange(span)),
            Some(e) => {
                proof {
                    lemma_below_either(*l, *r, e);
                }
                Ok(e)
            },
        },
        BinOp::Mul => {
            if r.coeffs.len() == 0 {
                match l.scale(&r.constant) {
                    None => Err(ExecError::NumericRange(span)),
                    Some(e) => {
                        proof {
                            lemma_below_pointwise(*l, e);
                        }
                        Ok(e)
                    },
                }
            } else if l.coeffs.len() == 0 {
                match r.scale(&l.constant) {
                    None => Err(ExecError::NumericRange(span)),
                    Some(e) => {
                        proof {
                            lemma_below_pointwise(*r, e);
                        }
                        Ok(e)
                    },
                }
            } else {
                Err(ExecError::Nonlinear(span))
            }
        },
        BinOp::Div => {
            if r.coeffs.len() != 0 {
                Err(ExecError::Nonlinear(span))
            } else if r.constant.num == 0 {
                Err(ExecError::DivByZero(span))
            } else {
                if r.constant.den == 1 && (r.constant.num == 1 || r.constant.num == -1) {
                    // dividing by a unit is scaling by it
                    proof {
                        if l.constant.den == 1 && l.constant.num > i64::MIN && (forall|t: int|
                            0 <= t < l.coeffs@.len() ==> (#[trigger] l.coeffs@[t]).0.den == 1
                                && l.coeffs@[t].0.num > i64::MIN) {
                            assert(-0x7fff_ffff_ffff_ffff <= l.constant.num * r.constant.num
                                <= 0x7fff_ffff_ffff_ffff) by (nonlinear_arith)
                                requires
                                    r.constant.num == 1 || r.constant.num == -1,
                                    l.constant.num > i64::MIN,
                            ;
                            assert forall|t: int| 0 <= t < l.coeffs@.len() implies
                                -0x7fff_ffff_ffff_ffff <= r.constant.num * (
                            #[trigger] l.coeffs@[t]).0.num <= 0x7fff_ffff_ffff_ffff by {
                                assert(-0x7fff_ffff_ffff_ffff <= r.constant.num
                                    * l.coeffs@[t].0.num <= 0x7fff_ffff_ffff_ffff)
                                    by (nonlinear_arith)
                                    requires
                                        r.constant.num == 1 || r.constant.num == -1,
                                        l.coeffs@[t].0.num > i64::MIN,
                                ;
                            }
                        }
                    }
                    match l.scale(&r.constant) {
                        None => Err(ExecError::NumericRange(span)),
                        Some(e) => {
                            proof {
                                lemma_below_pointwise(*l, e);
                                assert forall|m: crate::linear::VarAssign|
                                    crate::linear::assign_wf(m) implies crate::rat::q_eq(
                                    crate::rat::q_mul(r.constant.q(), #[trigger] e.val(m)),
                                    l.val(m),
                                ) by {
                                    crate::linear::lemma_terms_val_wf(l.coeffs@, m);
                                    crate::linear::lemma_terms_val_wf(e.coeffs@, m);
                                    crate::rat::lemma_q_add_wf(
                                        crate::linear::terms_val(l.coeffs@, m),
                                        l.constant.q(),
                                    );
                                    crate::rat::lemma_q_add_wf(
                                        crate::linear::terms_val(e.coeffs@, m),
                                        e.constant.q(),
                                    );
                                    lemma_unit_scale_inverts(
                                        r.constant.q(),
                                        l.val(m),
                                        e.val(m),
                                    );
                                }
                            }
                            Ok(e)
                        },
                    }
                } else {
                    let one = Rat { num: 1i64, den: 1i64 };
                    match one.div(&r.constant) {
                        None => Err(ExecError::NumericRange(span)),
                        Some(inv) => match l.scale(&inv) {
                            None => Err(ExecError::NumericRange(span)),
                            Some(e) => {
                                proof {
                                    lemma_below_pointwise(*l, e);
                                    assert forall|m: crate::linear::VarAssign|
                                        crate::linear::assign_wf(m) implies crate::rat::q_eq(
                                        crate::rat::q_mul(r.constant.q(), #[trigger] e.val(m)),
                                        l.val(m),
                                    ) by {
                                        crate::linear::lemma_terms_val_wf(l.coeffs@, m);
                                        crate::linear::lemma_terms_val_wf(e.coeffs@, m);
                                        crate::rat::lemma_q_add_wf(
                                            crate::linear::terms_val(l.coeffs@, m),
                                            l.constant.q(),
                                        );
                                        crate::rat::lemma_q_add_wf(
                                            crate::linear::terms_val(e.coeffs@, m),
                                            e.constant.q(),
                                        );
                                        lemma_inv_scale(
                                            r.constant.q(),
                                            inv.q(),
                                            l.val(m),
                                            e.val(m),
                                        );
                                    }
                                }
                                Ok(e)
                            },
                        },
                    }
                }
            }
        },
    }
}

/// Scaling by a unit (1 or -1) is its own inverse: from `y == c * x` with
/// `c` a unit conclude `c * y == x`.
proof fn lemma_unit_scale_inverts(c: crate::rat::Q, x: crate::rat::Q, y: crate::rat::Q)
    by (nonlinear_arith)
    requires
        crate::rat::q_wf(x),
        crate::rat::q_wf(y),
        c.1 == 1,
        c.0 == 1 || c.0 == -1,
        crate::rat::q_eq(y, crate::rat::q_mul(c, x)),
    ensures
        crate::rat::q_eq(crate::rat::q_mul(c, y), x),
{
}

/// Scaling by the reciprocal of `c` inverts multiplication by `c`:
/// from `inv == 1/c` and `y == inv * x` conclude `c * y == x`.
proof fn lemma_inv_scale(c: crate::rat::Q, inv: crate::rat::Q, x: crate::rat::Q, y: crate::rat::Q)
    requires
        crate::rat::q_wf(c),
        crate::rat::q_wf(inv),
        crate::rat::q_wf(x),
        crate::rat::q_wf(y),
        c.0 != 0,
        crate::rat::q_eq(inv, crate::rat::q_div((1int, 1int), c)),
        crate::rat::q_eq(y, crate::rat::q_mul(inv, x)),
    ensures
        crate::rat::q_eq(crate::rat::q_mul(c, y), x),
{
    let ci = crate::rat::q_mul(c, inv);
    assert(crate::rat::q_eq(ci, (1int, 1int))) by (nonlinear_arith)
        requires
            crate::rat::q_eq(inv, crate::rat::q_div((1int, 1int), c)),
            ci == crate::rat::q_mul(c, inv),
            c.1 > 0,
            inv.1 > 0,
    ;
    crate::rat::lemma_q_add_wf(c, inv);
    crate::rat::lemma_q_add_wf(c, y);
    crate::rat::lemma_q_add_wf(inv, x);
    crate::rat::lemma_q_add_wf(c, crate::rat::q_mul(inv, x));
    crate::rat::lemma_q_add_wf(ci, x);
    crate::rat::lemma_q_mul_congr(c, c, y, crate::rat::q_mul(inv, x));
    crate::rat::lemma_q_mul_assoc(c, inv, x);
    assert(crate::rat::q_mul(c, crate::rat::q_mul(inv, x)) == crate::rat::q_mul(ci, x));
    crate::rat::lemma_q_mul_congr(ci, (1int, 1int), x, x);
    assert(crate::rat::q_mul((1int, 1int), x) == (1 * x.0, 1 * x.1));
    assert(1 * x.0 == x.0 && 1 * x.1 == x.1) by (nonlinear_arith);
    crate::rat::lemma_q_eq_trans(
        crate::rat::q_mul(c, y),
        crate::rat::q_mul(ci, x),
        crate::rat::q_mul((1int, 1int), x),
    );
    crate::rat::lemma_q_add_wf((1int, 1int), x);
    crate::rat::lemma_q_eq_trans(
        crate::rat::q_mul(c, y),
        crate::rat::q_mul((1int, 1int), x),
        x,
    );
}

/// Concatenated terms stay below any bound both operands respect.
proof fn lemma_below_concat(l: LinearExpr, r: LinearExpr, e: LinearExpr)
    requires
        e.coeffs@ == l.coeffs@ + r.coeffs@,
    ensures
        forall|n: int|
            expr_vars_below(l, n) && expr_vars_below(r, n) ==> #[trigger] expr_vars_below(e, n),
{
    assert forall|n: int|
        expr_vars_below(l, n) && expr_vars_below(r, n) implies #[trigger] expr_vars_below(
        e,
        n,
    ) by {
        assert forall|t: int| 0 <= t < e.coeffs@.len() implies ((#[trigger] e.coeffs@[t]).1.0
            as int) < n by {
            if t < l.coeffs@.len() {
                assert(e.coeffs@[t] == l.coeffs@[t]);
            } else {
                assert(e.coeffs@[t] == r.coeffs@[t - l.coeffs@.len()]);
            }
        }
    }
}

/// Terms drawn from either operand stay below any shared bound.
proof fn lemma_below_either(l: LinearExpr, r: LinearExpr, e: LinearExpr)
    requires
        forall|t: int|
            0 <= t < e.coeffs@.len() ==> crate::linear::has_var(
                l.coeffs@,
                (#[trigger] e.coeffs@[t]).1,
            ) || crate::linear::has_var(r.coeffs@, e.coeffs@[t].1),
    ensures
        forall|n: int|
            expr_vars_below(l, n) && expr_vars_below(r, n) ==> #[trigger] expr_vars_below(e, n),
{
    assert forall|n: int|
        expr_vars_below(l, n) && expr_vars_below(r, n) implies #[trigger] expr_vars_below(
        e,
        n,
    ) by {
        assert forall|t: int| 0 <= t < e.coeffs@.len() implies ((#[trigger] e.coeffs@[t]).1.0
            as int) < n by {
            let w = e.coeffs@[t].1;
            if crate::linear::has_var(l.coeffs@, w) {
                let t0 = choose|t0: int|
                    0 <= t0 < l.coeffs@.len() && (#[trigger] l.coeffs@[t0]).1 == w;
            } else {
                let t0 = choose|t0: int|
                    0 <= t0 < r.coeffs@.len() && (#[trigger] r.coeffs@[t0]).1 == w;
            }
        }
    }
}

/// Scaling keeps the variables in place.
proof fn lemma_below_pointwise(l: LinearExpr, e: LinearExpr)
    requires
        e.coeffs@.len() == l.coeffs@.len(),
        forall|t: int| 0 <= t < e.coeffs@.len() ==> (#[trigger] e.coeffs@[t]).1 == l.coeffs@[t].1,
    ensures
        forall|n: int| expr_vars_below(l, n) ==> #[trigger] expr_vars_below(e, n),
{
    assert forall|n: int| expr_vars_below(l, n) implies #[trigger] expr_vars_below(e, n) by {
        assert forall|t: int| 0 <= t < e.coeffs@.len() implies ((#[trigger] e.coeffs@[t]).1.0
            as int) < n by {
            assert(e.coeffs@[t].1 == l.coeffs@[t].1);
        }
    }
}

/// The evaluation state of one cell compile.
pub struct CellCtx {
    pub solver: Solver,
    pub bindings: Vec<(BindId, Value)>,
    pub objects: Vec<SolvedValue>,
    pub pre_rects: Vec<Rect<Var>>,
    pub insts: Vec<InstanceRef>,
    pub order: Vec<(bool, usize)>,
    pub next_oid: u64,
    pub errors: Vec<ExecError>,
}

impl CellCtx {
    /// All values held by the context speak only of allocated variables.
    pub open spec fn wf(self) -> bool {
        &&& self.solver.inv()
        &&& forall|i: int|
            0 <= i < self.bindings@.len() ==> value_ok(
                (#[trigger] self.bindings@[i]).1,
                self.solver.var_count() as int,
            )
        &&& forall|i: int|
            0 <= i < self.pre_rects@.len() ==> rect_ok(
                #[trigger] self.pre_rects@[i],
                self.solver.var_count() as int,
            )
    }
}

pub open spec fn rect_ok(r: Rect<Var>, n: int) -> bool {
    (r.x0.0 as int) < n && (r.y0.0 as int) < n && (r.x1.0 as int) < n && (r.y1.0 as int) < n
}

pub open spec fn value_ok(v: Value, n: int) -> bool {
    match v {
        Value::Lin(e) => e.wf() && expr_vars_below(e, n),
        Value::RectV(r) => rect_ok(r, n),
        Value::Unit => true,
    }
}

/// The innermost binding of `id`: the newest entry wins, so an inner `let`
/// shadows an outer one.
fn lookup(bindings: &Vec<(BindId, Value)>, id: BindId) -> (r: Option<&Value>)
    ensures
        r is Some ==> exists|i: int|
            0 <= i < bindings@.len() && (#[trigger] bindings@[i]).0 == id && bindings@[i].1 == *r
                .unwrap() && (forall|i2: int|
                i < i2 < bindings@.len() ==> (#[trigger] bindings@[i2]).0 != id),
        r is None ==> forall|i: int| 0 <= i < bindings@.len() ==> (#[trigger] bindings@[i]).0
            != id,
{
    let mut i: usize = bindings.len();
    while i > 0
        invariant
            i <= bindings@.len(),
            forall|t: int| i <= t < bindings@.len() ==> (#[trigger] bindings@[t]).0 != id,
        decreases i,
    {
        i -= 1;
        if bindings[i].0 == id {
            return Some(&bindings[i].1);
        }
    }
    None
}


/// An owned copy of a value (the expression's term vector is copied
/// element by element).
fn copy_value(v: &Value) -> (r: Value)
    ensures
        forall|n: int| value_ok(*v, n) ==> value_ok(r, n),
{
    match v {
        Value::Lin(e) => {
            let e2 = LinearExpr { coeffs: crate::linear::copy_terms(&e.coeffs), constant: e.constant };
            proof {
                assert(e2.coeffs@ == e.coeffs@);
            }
            Value::Lin(e2)
        },
        Value::RectV(rc) => Value::RectV(
            Rect {
                layer: match &rc.layer {
                    None => None,
                    Some(s) => Some(s.clone()),
                },
                x0: rc.x0,
                y0: rc.y0,
                x1: rc.x1,
                y1: rc.y1,
                source: rc.source,
            },
        ),
        Value::Unit => Value::Unit,
    }
}

/// The global state of one compile: compiled cells, the memo table keyed by
/// declaration and parameter binding, and the collected errors.
pub struct Compiler {
    pub cells: Vec<CellData>,
    pub memo: Vec<(usize, Vec<Rat>, usize)>,
    pub errors: Vec<ExecError>,
}

impl Compiler {
    pub open spec fn wf(self) -> bool {
        forall|i: int| 0 <= i < self.memo@.len() ==> ((#[trigger] self.memo@[i]).2 as int)
            < self.cells@.len()
    }
}

/// Two parameter lists hold exactly the same rationals, pair for pair.
pub open spec fn rats_same(a: Seq<Rat>, b: Seq<Rat>) -> bool {
    a.len() == b.len() && forall|i: int| 0 <= i < a.len() ==> #[trigger] a[i] == b[i]
}

/// Exact structural equality of two parameter lists.
fn rats_equal(a: &Vec<Rat>, b: &Vec<Rat>) -> (r: bool)
    ensures
        r == rats_same(a@, b@),
{
    if a.len() != b.len() {
        return false;
    }
    let mut i: usize = 0;
    while i < a.len()
        invariant
            i <= a@.len(),
            a@.len() == b@.len(),
            forall|t: int| 0 <= t < i ==> #[trigger] a@[t] == b@[t],
        decreases a@.len() - i,
    {
        if a[i].num != b[i].num || a[i].den != b[i].den {
            return false;
        }
        i += 1;
    }
    true
}

/// The compiled record for this declaration and parameter binding, if the
/// same instantiation was compiled before.
fn find_cached(comp: &Compiler, decl: usize, params: &Vec<Rat>) -> (r: Option<usize>)
    requires
        comp.wf(),
    ensures
        r is Some ==> (r.unwrap() as int) < comp.cells@.len(),
        r is None ==> forall|i: int|
            0 <= i < comp.memo@.len() ==> !((#[trigger] comp.memo@[i]).0 == decl && rats_same(
                comp.memo@[i].1@,
                params@,
            )),
{
    let mut i: usize = 0;
    while i < comp.memo.len()
        invariant
            comp.wf(),
            i <= comp.memo@.len(),
            forall|t: int|
                0 <= t < i ==> !((#[trigger] comp.memo@[t]).0 == decl && rats_same(
                    comp.memo@[t].1@,
                    params@,
                )),
        decreases comp.memo@.len() - i,
    {
        if comp.memo[i].0 == decl && rats_equal(&comp.memo[i].1, params) {
            return Some(comp.memo[i].2);
        }
        i += 1;
    }
    None
}

pub open spec fn rats_wf(s: Seq<Rat>) -> bool {
    forall|i: int| 0 <= i < s.len() ==> (#[trigger] s[i]).wf()
}

/// Evaluate one expression inside a cell being compiled.  Errors carry the
/// expression's span; evaluation of the cell stops at the first error.
fn eval_expr(prog: &Program, cell: usize, e: &Expr, ctx: &mut CellCtx, comp: &mut Compiler) -> (res:
    Result<Value, ExecError>)
    requires
        cell < prog.cells@.len(),
        old(ctx).wf(),
        old(comp).wf(),
    ensures
        final(ctx).wf(),
        final(comp).wf(),
        final(ctx).solver.var_count() >= old(ctx).solver.var_count(),
        res is Ok ==> value_ok(res.unwrap(), final(ctx).solver.var_count() as int),
    decreases cell, 1int, *e,
{
    match e {
        Expr::Num(c, span) => {
            if c.den <= 0 {
                Err(ExecError::NumericRange(*span))
            } else {
                Ok(Value::Lin(LinearExpr::from_const(*c)))
            }
        },
        Expr::Ref(id, span) => {
            match lookup(&ctx.bindings, *id) {
                None => Err(ExecError::UndefinedName(*span)),
                Some(v) => {
                    let out = copy_value(v);
                    Ok(out)
                },
            }
        },
        Expr::Bin(op, l, r, span) => {
            let lv = match eval_expr(prog, cell, l, ctx, comp) {
                Err(er) => {
                    return Err(er);
                },
                Ok(v) => v,
            };
            let rv = match eval_expr(prog, cell, r, ctx, comp) {
                Err(er) => {
                    return Err(er);
                },
                Ok(v) => v,
            };
            match (lv, rv) {
                (Value::Lin(le), Value::Lin(re)) => {
                    proof {
                        lemma_value_ok_mono(Value::Lin(le), old(ctx).solver.var_count() as int,
                            ctx.solver.var_count() as int);
                    }
                    match eval_binop(*op, &le, &re, *span) {
                        Err(er) => Err(er),
                        Ok(out) => Ok(Value::Lin(out)),
                    }
                },
                _ => Err(ExecError::TypeMismatch(*span)),
            }
        },
        Expr::Field(base, kw, span) => {
            let bv = match eval_expr(prog, cell, base, ctx, comp) {
                Err(er) => {
                    return Err(er);
                },
                Ok(v) => v,
            };
            match bv {
                Value::RectV(rc) => {
                    let v = match kw {
                        CoordKw::X0 => rc.x0,
                        CoordKw::Y0 => rc.y0,
                        CoordKw::X1 => rc.x1,
                        CoordKw::Y1 => rc.y1,
                    };
                    Ok(Value::Lin(LinearExpr::from_var(v)))
                },
                _ => Err(ExecError::TypeMismatch(*span)),
            }
        },
        Expr::RectCall(layer, a_x0, a_y0, a_x1, a_y1, span) => {
            // evaluate the supplied coordinate expressions first
            let le_x0 = match eval_coord(prog, cell, a_x0, ctx, comp) {
                Err(er) => {
                    return Err(er);
                },
                Ok(v) => v,
            };
            let le_y0 = match eval_coord(prog, cell, a_y0, ctx, comp) {
                Err(er) => {
                    return Err(er);
                },
                Ok(v) => v,
            };
            let le_x1 = match eval_coord(prog, cell, a_x1, ctx, comp) {
                Err(er) => {
                    return Err(er);
                },
                Ok(v) => v,
            };
            let le_y1 = match eval_coord(prog, cell, a_y1, ctx, comp) {
                Err(er) => {
                    return Err(er);
                },
                Ok(v) => v,
            };
            if ctx.solver.n_vars() >= u64::MAX - 4 {
                return Err(ExecError::Resource(*span));
            }
            let ghost mid = *ctx;
            let x0 = ctx.solver.new_var();
            let y0 = ctx.solver.new_var();
            let x1 = ctx.solver.new_var();
            let y1 = ctx.solver.new_var();
            proof {
                lemma_ctx_values_mono(mid, *ctx);
            }
            if ctx.next_oid == u64::MAX {
                return Err(ExecError::Resource(*span));
            }
            let oid = ctx.next_oid;
            ctx.next_oid = oid + 1;
            let source = Some(SourceInfo { id: oid, start: span.start, end: span.end });
            let rc = Rect {
                layer: match layer {
                    None => None,
                    Some(sl) => Some(sl.clone()),
                },
                x0,
                y0,
                x1,
                y1,
                source,
            };
            // each supplied coordinate becomes an equality constraint
            if let Some(le) = le_x0 {
                proof {
                    lemma_value_ok_mono(Value::Lin(le), mid.solver.var_count() as int,
                        ctx.solver.var_count() as int);
                }
                if let Err(er) = constrain_coord(&le, x0, *span, ctx) {
                    return Err(er);
                }
            }
            if let Some(le) = le_y0 {
                proof {
                    lemma_value_ok_mono(Value::Lin(le), mid.solver.var_count() as int,
                        ctx.solver.var_count() as int);
                }
                if let Err(er) = constrain_coord(&le, y0, *span, ctx) {
                    return Err(er);
                }
            }
            if let Some(le) = le_x1 {
                proof {
                    lemma_value_ok_mono(Value::Lin(le), mid.solver.var_count() as int,
                        ctx.solver.var_count() as int);
                }
                if let Err(er) = constrain_coord(&le, x1, *span, ctx) {
                    return Err(er);
                }
            }
            if let Some(le) = le_y1 {
                proof {
                    lemma_value_ok_mono(Value::Lin(le), mid.solver.var_count() as int,
                        ctx.solver.var_count() as int);
                }
                if let Err(er) = constrain_coord(&le, y1, *span, ctx) {
                    return Err(er);
                }
            }
            let rc2 = Rect {
                layer: match &rc.layer {
                    None => None,
                    Some(sl) => Some(sl.clone()),
                },
                x0: rc.x0,
                y0: rc.y0,
                x1: rc.x1,
                y1: rc.y1,
                source: rc.source,
            };
            ctx.pre_rects.push(rc2);
            ctx.order.push((true, ctx.pre_rects.len() - 1));
            Ok(Value::RectV(rc))
        },
        Expr::EqCall(l, r, span) => {
            let lv = match eval_expr(prog, cell, l, ctx, comp) {
                Err(er) => {
                    return Err(er);
                },
                Ok(v) => v,
            };
            let rv = match eval_expr(prog, cell, r, ctx, comp) {
                Err(er) => {
                    return Err(er);
                },
                Ok(v) => v,
            };
            match (lv, rv) {
                (Value::Lin(le), Value::Lin(re)) => {
                    proof {
                        lemma_value_ok_mono(Value::Lin(le), old(ctx).solver.var_count() as int,
                            ctx.solver.var_count() as int);
                    }
                    match le.sub_expr(&re) {
                        None => Err(ExecError::NumericRange(*span)),
                        Some(diff) => {
                            if ctx.solver.n_constraints() == u64::MAX {
                                return Err(ExecError::Resource(*span));
                            }
                            proof {
                                lemma_below_either(le, re, diff);
                            }
                            let _cid = ctx.solver.constrain_eq0(diff);
                            Ok(Value::Unit)
                        },
                    }
                },
                _ => Err(ExecError::TypeMismatch(*span)),
            }
        },
        Expr::Inst(sub, params, place, name, span) => {
            if *sub >= cell {
                return Err(ExecError::NoSuchCell(*span));
            }
            let mut i: usize = 0;
            while i < params.len()
                invariant
                    i <= params@.len(),
                    forall|t: int| 0 <= t < i ==> (#[trigger] params@[t]).wf(),
                    ctx.wf(),
                    comp.wf(),
                    ctx.solver.var_count() >= old(ctx).solver.var_count(),
                decreases params@.len() - i,
            {
                if params[i].den <= 0 {
                    return Err(ExecError::NumericRange(*span));
                }
                i += 1;
            }
            if place.x.den <= 0 || place.y.den <= 0 {
                return Err(ExecError::NumericRange(*span));
            }
            if ctx.next_oid == u64::MAX {
                return Err(ExecError::Resource(*span));
            }
            let sub_idx = compile_cell(prog, *sub, params, false, comp);
            let oid = ctx.next_oid;
            ctx.next_oid = oid + 1;
            ctx.insts.push(InstanceRef { cell: sub_idx, place: *place, name: name.clone(), oid });
            ctx.order.push((false, ctx.insts.len() - 1));
            Ok(Value::Unit)
        },
    }
}

/// Evaluate an optional coordinate argument to a linear expression.
fn eval_coord(
    prog: &Program,
    cell: usize,
    ex: &Option<Box<Expr>>,
    ctx: &mut CellCtx,
    comp: &mut Compiler,
) -> (res: Result<Option<LinearExpr>, ExecError>)
    requires
        cell < prog.cells@.len(),
        old(ctx).wf(),
        old(comp).wf(),
    ensures
        final(ctx).wf(),
        final(comp).wf(),
        final(ctx).solver.var_count() >= old(ctx).solver.var_count(),
        res is Ok && res.unwrap() is Some ==> value_ok(
            Value::Lin(res.unwrap().unwrap()),
            final(ctx).solver.var_count() as int,
        ),
    decreases cell, 1int, *ex,
{
    match ex {
        None => Ok(None),
        Some(e) => {
            match eval_expr(prog, cell, e, ctx, comp) {
                Err(er) => Err(er),
                Ok(Value::Lin(le)) => Ok(Some(le)),
                Ok(_) => Err(ExecError::TypeMismatch(span_of(e))),
            }
        },
    }
}

/// Register `expr == coordinate variable` for one supplied rect argument.
fn constrain_coord(le: &LinearExpr, v: Var, span: SourceInfo, ctx: &mut CellCtx) -> (res: Result<
    (),
    ExecError,
>)
    requires
        old(ctx).wf(),
        le.wf(),
        expr_vars_below(*le, old(ctx).solver.var_count() as int),
        (v.0 as int) < old(ctx).solver.var_count() as int,
    ensures
        final(ctx).wf(),
        final(ctx).solver.var_count() == old(ctx).solver.var_count(),
        final(ctx).bindings@ == old(ctx).bindings@,
        final(ctx).pre_rects@ == old(ctx).pre_rects@,
{
    let vref = LinearExpr::from_var(v);
    match le.sub_expr(&vref) {
        None => Err(ExecError::NumericRange(span)),
        Some(diff) => {
            if ctx.solver.n_constraints() == u64::MAX {
                return Err(ExecError::Resource(span));
            }
            proof {
                lemma_below_either(*le, vref, diff);
                assert(expr_vars_below(vref, ctx.solver.var_count() as int));
            }
            let _cid = ctx.solver.constrain_eq0(diff);
            Ok(())
        },
    }
}

/// The span of an expression./// The span of an expression.
fn span_of(e: &Expr) -> (r: SourceInfo) {
    match e {
        Expr::Num(_, s) => *s,
        Expr::Ref(_, s) => *s,
        Expr::Bin(_, _, _, s) => *s,
        Expr::Field(_, _, s) => *s,
        Expr::RectCall(_, _, _, _, _, s) => *s,
        Expr::EqCall(_, _, s) => *s,
        Expr::Inst(_, _, _, _, s) => *s,
    }
}

/// Values valid for a smaller variable count stay valid for a larger one.
proof fn lemma_value_ok_mono(v: Value, n1: int, n2: int)
    requires
        n1 <= n2,
    ensures
        value_ok(v, n1) ==> value_ok(v, n2),
{
    if value_ok(v, n1) {
        match v {
            Value::Lin(e) => {
                assert forall|t: int| 0 <= t < e.coeffs@.len() implies ((
                #[trigger] e.coeffs@[t]).1.0 as int) < n2 by {
                    assert((e.coeffs@[t].1.0 as int) < n1);
                }
            },
            _ => {},
        }
    }
}

/// All of a context's held values stay valid when the variable count grows.
proof fn lemma_ctx_values_mono(pre: CellCtx, cur: CellCtx)
    requires
        pre.wf(),
        cur.solver.inv(),
        cur.bindings@ == pre.bindings@,
        cur.pre_rects@ == pre.pre_rects@,
        cur.solver.var_count() >= pre.solver.var_count(),
    ensures
        cur.wf(),
{
    assert forall|i: int| 0 <= i < cur.bindings@.len() implies value_ok(
        (#[trigger] cur.bindings@[i]).1,
        cur.solver.var_count() as int,
    ) by {
        lemma_value_ok_mono(cur.bindings@[i].1, pre.solver.var_count() as int,
            cur.solver.var_count() as int);
    }
}

/// Compile one cell declaration under a parameter binding, reusing the
/// record when the same instantiation was compiled before (so a sub-cell
/// instanced many times is compiled once).  Always produces a record;
/// failures are collected in the compiler's error list and leave a partial
/// record behind.
fn compile_cell(prog: &Program, decl_idx: usize, params: &Vec<Rat>, force: bool, comp: &mut Compiler)
    -> (idx: usize)
    requires
        decl_idx < prog.cells@.len(),
        rats_wf(params@),
        old(comp).wf(),
    ensures
        final(comp).wf(),
        (idx as int) < final(comp).cells@.len(),
        // a binding compiled before is reused, not compiled again
        (exists|i: int|
            0 <= i < old(comp).memo@.len() && (#[trigger] old(comp).memo@[i]).0 == decl_idx
                && rats_same(old(comp).memo@[i].1@, params@)) ==> *final(comp) == *old(comp),
        // a cell with no statements compiles without error
        prog.cells@[decl_idx as int].body@.len() == 0 && params@.len()
            == prog.cells@[decl_idx as int].params@.len() ==> final(comp).errors@ == old(
            comp,
        ).errors@,
    decreases decl_idx, 3int, prog.cells@[decl_idx as int],
{
    match find_cached(comp, decl_idx, params) {
        Some(hit) => {
            return hit;
        },
        None => {},
    }
    let mut ctx = CellCtx {
        solver: Solver::new(),
        bindings: Vec::new(),
        objects: Vec::new(),
        pre_rects: Vec::new(),
        insts: Vec::new(),
        order: Vec::new(),
        next_oid: 0,
        errors: Vec::new(),
    };
    // bind the declared parameters to the supplied constants
    let decl_params_len = prog.cells[decl_idx].params.len();
    if params.len() != decl_params_len {
        comp.errors.push(ExecError::Arity(SourceInfo { id: 0, start: 0, end: 0 }));
    } else {
        let mut i: usize = 0;
        while i < decl_params_len
            invariant
                i <= decl_params_len,
                decl_idx < prog.cells@.len(),
                decl_params_len == prog.cells@[decl_idx as int].params@.len(),
                params@.len() == decl_params_len,
                rats_wf(params@),
                ctx.wf(),
                ctx.solver.resolved() && ctx.solver.arith_ok() && ctx.solver.table().len() == 0,
                ctx.errors@.len() == 0,
                comp.errors@ == old(comp).errors@,
            decreases decl_params_len - i,
        {
            let pid = prog.cells[decl_idx].params[i];
            let pv = params[i];
            ctx.bindings.push((pid, Value::Lin(LinearExpr::from_const(pv))));
            i += 1;
        }
    }
    // walk the statements in program order; stop the cell at the first error
    let n_stmts = prog.cells[decl_idx].body.len();
    let mut s: usize = 0;
    while s < n_stmts
        invariant
            s <= n_stmts,
            decl_idx < prog.cells@.len(),
            n_stmts == prog.cells@[decl_idx as int].body@.len(),
            ctx.wf(),
            comp.wf(),
            n_stmts == 0 && params@.len() == prog.cells@[decl_idx as int].params@.len()
                ==> ctx.solver.resolved() && ctx.solver.arith_ok() && ctx.solver.table().len()
                == 0 && ctx.errors@.len() == 0 && comp.errors@ == old(comp).errors@,
        decreases n_stmts - s,
    {
        match &prog.cells[decl_idx].body[s] {
            Stmt::Let(id, ex) => {
                match eval_expr(prog, decl_idx, ex, &mut ctx, comp) {
                    Err(er) => {
                        ctx.errors.push(er);
                        if !recoverable(er) {
                            break;
                        }
                    },
                    Ok(v) => {
                        ctx.bindings.push((*id, v));
                    },
                }
            },
            Stmt::Bare(ex) => {
                match eval_expr(prog, decl_idx, ex, &mut ctx, comp) {
                    Err(er) => {
                        ctx.errors.push(er);
                        if !recoverable(er) {
                            break;
                        }
                    },
                    Ok(_) => {},
                }
            },
        }
        s += 1;
    }
    // resolve: back-substitution ran throughout; the batched pass unties
    // coupled systems, and forcing pins what is left when asked to
    ctx.solver.solve();
    if force {
        if ctx.solver.n_constraints() <= u64::MAX - ctx.solver.n_vars() {
            ctx.solver.force_solution();
        }
    }
    // a dropped constraint must never yield silently wrong geometry
    if !ctx.solver.arithmetic_ok() {
        ctx.errors.push(ExecError::NumericRange(SourceInfo { id: 0, start: 0, end: 0 }));
    }
    // read the geometry back
    let mut objects: Vec<SolvedValue> = Vec::new();
    let mut oi: usize = 0;
    while oi < ctx.order.len()
        invariant
            oi <= ctx.order@.len(),
            ctx.wf(),
        decreases ctx.order@.len() - oi,
    {
        let (is_rect, k) = ctx.order[oi];
        if is_rect {
            if k < ctx.pre_rects.len() {
                let pr = &ctx.pre_rects[k];
                let x0 = rat_of(&ctx.solver, pr.x0);
                let y0 = rat_of(&ctx.solver, pr.y0);
                let x1 = rat_of(&ctx.solver, pr.x1);
                let y1 = rat_of(&ctx.solver, pr.y1);
                objects.push(
                    SolvedValue::SRect(
                        Rect {
                            layer: match &pr.layer {
                                None => None,
                                Some(sl) => Some(sl.clone()),
                            },
                            x0,
                            y0,
                            x1,
                            y1,
                            source: pr.source,
                        },
                    ),
                );
            }
        } else {
            if k < ctx.insts.len() {
                let ir = &ctx.insts[k];
                objects.push(
                    SolvedValue::SInstance(
                        InstanceRef {
                            cell: ir.cell,
                            place: ir.place,
                            name: ir.name.clone(),
                            oid: ir.oid,
                        },
                    ),
                );
            }
        }
        oi += 1;
    }
    let mut errs = ctx.errors;
    let ghost comp_errs0 = comp.errors@;
    let mut ei: usize = 0;
    while ei < errs.len()
        invariant
            ei <= errs@.len(),
            comp.wf(),
            errs@.len() == 0 ==> comp.errors@ == comp_errs0,
        decreases errs@.len() - ei,
    {
        comp.errors.push(errs[ei]);
        ei += 1;
    }
    let data = CellData {
        decl: decl_idx,
        params: copy_rats(params),
        objects,
        unsolved: ctx.solver.unsolved_vars(),
        inconsistent: copy_ids(ctx.solver.inconsistent_constraints()),
        invalid_rounding: copy_vars(ctx.solver.invalid_roundings()),
    };
    let idx = comp.cells.len();
    let ghost pre_push = *comp;
    comp.cells.push(data);
    comp.memo.push((decl_idx, copy_rats(params), idx));
    proof {
        assert forall|i: int| 0 <= i < comp.memo@.len() implies ((#[trigger] comp.memo@[i]).2
            as int) < comp.cells@.len() by {
            if i < comp.memo@.len() - 1 {
                assert(comp.memo@[i] == pre_push.memo@[i]);
                assert(((pre_push.memo@[i]).2 as int) < pre_push.cells@.len());
            }
        }
    }
    idx
}

/// Whether evaluation of a cell can continue past this failure: name- and
/// reference-class errors spoil one statement only, while type, linearity
/// and resource failures make further evaluation meaningless.
fn recoverable(er: ExecError) -> (r: bool) {
    match er {
        ExecError::UndefinedName(_) => true,
        ExecError::NoSuchCell(_) => true,
        ExecError::Arity(_) => true,
        _ => false,
    }
}

/// The solved value of a coordinate, zero while unsolved (the variable is
/// reported in the cell's unsolved list).
fn rat_of(solver: &Solver, v: Var) -> (r: Rat)
    requires
        solver.inv(),
    ensures
        r.wf(),
{
    match solver.value_of(v) {
        None => Rat { num: 0, den: 1 },
        Some(x) => {
            proof {
                crate::rat::lemma_q_eq_refl(x.q());
            }
            x
        },
    }
}

fn copy_rats(src: &Vec<Rat>) -> (out: Vec<Rat>)
    ensures
        out@ == src@,
{
    let mut out: Vec<Rat> = Vec::new();
    let mut i: usize = 0;
    while i < src.len()
        invariant
            i <= src@.len(),
            out@ == src@.take(i as int),
        decreases src@.len() - i,
    {
        out.push(src[i]);
        proof {
            assert(out@ =~= src@.take(i as int + 1));
        }
        i += 1;
    }
    proof {
        assert(out@ =~= src@);
    }
    out
}

fn copy_ids(src: &Vec<u64>) -> (out: Vec<u64>)
    ensures
        out@ == src@,
{
    let mut out: Vec<u64> = Vec::new();
    let mut i: usize = 0;
    while i < src.len()
        invariant
            i <= src@.len(),
            out@ == src@.take(i as int),
        decreases src@.len() - i,
    {
        out.push(src[i]);
        proof {
            assert(out@ =~= src@.take(i as int + 1));
        }
        i += 1;
    }
    proof {
        assert(out@ =~= src@);
    }
    out
}

fn copy_vars(src: &Vec<Var>) -> (out: Vec<Var>)
    ensures
        out@ == src@,
{
    let mut out: Vec<Var> = Vec::new();
    let mut i: usize = 0;
    while i < src.len()
        invariant
            i <= src@.len(),
            out@ == src@.take(i as int),
        decreases src@.len() - i,
    {
        out.push(src[i]);
        proof {
            assert(out@ =~= src@.take(i as int + 1));
        }
        i += 1;
    }
    proof {
        assert(out@ =~= src@);
    }
    out
}

/// Compile `cell` of the program under the given parameter values.
/// Sub-cells it instances are compiled (and memoized) along the way; when
/// `force` is set, still-unsolved variables are pinned to zero so a
/// complete preview layout comes out.
pub fn compile(prog: &Program, cell: usize, params: &Vec<Rat>, force: bool) -> (out: CompileOutput)
    ensures
        cell >= prog.cells@.len() ==> out is ExecErrors,
        out is Valid ==> (out->Valid_0.top as int) < out->Valid_0.cells@.len(),
        out is ExecErrors ==> out->ExecErrors_errors@.len() > 0,
        // a well-formed instantiation of a cell with no statements always
        // compiles cleanly
        (cell as int) < prog.cells@.len() && rats_wf(params@) && prog.cells@[cell as int].body@.len()
            == 0 && params@.len() == prog.cells@[cell as int].params@.len() ==> out is Valid,
{
    if cell >= prog.cells.len() {
        let mut errors: Vec<ExecError> = Vec::new();
        errors.push(ExecError::NoSuchCell(SourceInfo { id: 0, start: 0, end: 0 }));
        return CompileOutput::ExecErrors { errors, output: None };
    }
    let mut i: usize = 0;
    while i < params.len()
        invariant
            i <= params@.len(),
            forall|t: int| 0 <= t < i ==> (#[trigger] params@[t]).wf(),
        decreases params@.len() - i,
    {
        if params[i].den <= 0 {
            let mut errors: Vec<ExecError> = Vec::new();
            errors.push(ExecError::NumericRange(SourceInfo { id: 0, start: 0, end: 0 }));
            return CompileOutput::ExecErrors { errors, output: None };
        }
        i += 1;
    }
    let mut comp = Compiler { cells: Vec::new(), memo: Vec::new(), errors: Vec::new() };
    let top = compile_cell(prog, cell, params, force, &mut comp);
    let data = CompiledData { cells: comp.cells, top };
    if comp.errors.len() == 0 {
        CompileOutput::Valid(data)
    } else {
        CompileOutput::ExecErrors { errors: comp.errors, output: Some(data) }
    }
}

} // verus!
