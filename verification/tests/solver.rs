use argon_core::linear::{LinearExpr, Var};
use argon_core::rat::Rat;
use argon_core::solver::Solver;

fn r(n: i64) -> Rat {
    Rat::from_i64(n)
}

fn rq(n: i64, d: i64) -> Rat {
    Rat::new(n, d).unwrap()
}

fn lin(coeffs: Vec<(i64, Var)>, constant: i64) -> LinearExpr {
    LinearExpr {
        coeffs: coeffs.into_iter().map(|(c, v)| (r(c), v)).collect(),
        constant: r(constant),
    }
}

#[test]
fn linear_constraints_solved_correctly() {
    let mut solver = Solver::new();
    let x = solver.new_var();
    let y = solver.new_var();
    let z = solver.new_var();
    solver.constrain_eq0(lin(vec![(1, x)], -5));
    solver.constrain_eq0(lin(vec![(1, y), (-1, x)], 0));
    solver.solve();
    assert!(solver.value_of(x).unwrap().eq_rat(&r(5)));
    assert!(solver.value_of(y).unwrap().eq_rat(&r(5)));
    assert!(solver.value_of(z).is_none());
}

#[test]
fn back_substitution_chains_without_batched_solve() {
    // x = 5; y = x: both solved by registration alone; z untouched.
    let mut solver = Solver::new();
    let x = solver.new_var();
    let y = solver.new_var();
    let z = solver.new_var();
    solver.constrain_eq0(lin(vec![(1, x)], -5));
    solver.constrain_eq0(lin(vec![(1, y), (-1, x)], 0));
    // no call to solve(): back-substitution alone must have fixed x and y
    assert!(solver.value_of(x).unwrap().eq_rat(&r(5)));
    assert!(solver.value_of(y).unwrap().eq_rat(&r(5)));
    assert!(!solver.is_solved(z));
    assert_eq!(solver.unsolved_vars(), vec![z]);
}

#[test]
fn order_independence_of_fully_determined_system() {
    // x + y = 10, x - y = 2, registered in both orders
    let mut s1 = Solver::new();
    let x1 = s1.new_var();
    let y1 = s1.new_var();
    s1.constrain_eq0(lin(vec![(1, x1), (1, y1)], -10));
    s1.constrain_eq0(lin(vec![(1, x1), (-1, y1)], -2));
    s1.solve();
    let mut s2 = Solver::new();
    let x2 = s2.new_var();
    let y2 = s2.new_var();
    s2.constrain_eq0(lin(vec![(1, x2), (-1, y2)], -2));
    s2.constrain_eq0(lin(vec![(1, x2), (1, y2)], -10));
    s2.solve();
    assert!(s1.value_of(x1).unwrap().eq_rat(&s2.value_of(x2).unwrap()));
    assert!(s1.value_of(y1).unwrap().eq_rat(&s2.value_of(y2).unwrap()));
    assert!(s1.value_of(x1).unwrap().eq_rat(&r(6)));
    assert!(s1.value_of(y1).unwrap().eq_rat(&r(4)));
}

#[test]
fn simplify_is_idempotent() {
    // fold a solved variable in, merge a duplicate, drop a cancelled term
    let x = Var(0);
    let y = Var(1);
    let z = Var(2);
    let solved = vec![Some(r(3)), None, None];
    let e = LinearExpr {
        coeffs: vec![(r(2), x), (r(1), y), (r(2), y), (r(1), z), (r(-1), z)],
        constant: r(1),
    };
    let once = e.simplify(&solved).unwrap();
    let twice = once.simplify(&solved).unwrap();
    assert_eq!(once, twice);
    // the folded form: 3*y + 7
    assert_eq!(once.coeffs.len(), 1);
    assert_eq!(once.coeffs[0].1, y);
    assert!(once.coeffs[0].0.eq_rat(&r(3)));
    assert!(once.constant.eq_rat(&r(7)));
}

#[test]
fn inconsistency_detected_and_first_value_kept() {
    // x = 5 then x = 6: the second constraint is flagged, x stays 5
    let mut solver = Solver::new();
    let x = solver.new_var();
    let first = solver.constrain_eq0(lin(vec![(1, x)], -5));
    let second = solver.constrain_eq0(lin(vec![(1, x)], -6));
    assert!(solver.value_of(x).unwrap().eq_rat(&r(5)));
    let flagged = solver.inconsistent_constraints().clone();
    assert!(flagged.contains(&second));
    assert!(!flagged.contains(&first));
    assert!(solver.value_of(x).unwrap().eq_rat(&r(5)));
}

#[test]
fn under_constraint_leaves_positions_unsolved() {
    // only the width is pinned: x0 and x1 stay open, the ys resolve
    let mut solver = Solver::new();
    let x0 = solver.new_var();
    let y0 = solver.new_var();
    let x1 = solver.new_var();
    let y1 = solver.new_var();
    solver.constrain_eq0(lin(vec![(1, x1), (-1, x0)], -50));
    solver.constrain_eq0(lin(vec![(1, y0)], 0));
    solver.constrain_eq0(lin(vec![(1, y1)], -10));
    solver.solve();
    assert_eq!(solver.unsolved_vars(), vec![x0, x1]);
    assert!(solver.value_of(y0).unwrap().eq_rat(&r(0)));
    assert!(solver.value_of(y1).unwrap().eq_rat(&r(10)));
    assert!(solver.inconsistent_constraints().is_empty());
    // pinning the position afterwards resolves the chain: x0 = 0, x1 = 50
    solver.constrain_eq0(lin(vec![(1, x0)], 0));
    assert!(solver.value_of(x0).unwrap().eq_rat(&r(0)));
    assert!(solver.value_of(x1).unwrap().eq_rat(&r(50)));
    let w = solver
        .eval_expr(&lin(vec![(1, x1), (-1, x0)], 0))
        .unwrap();
    assert!(w.eq_rat(&r(50)));
}

#[test]
fn grid_rounding_snaps_noise_and_flags_midpoints() {
    // grid step 1/10, tolerance 1/100
    let mut solver = Solver::with_config(rq(1, 10), rq(1, 100));
    let x = solver.new_var();
    let y = solver.new_var();
    // x = 10.00003: within tolerance of the grid point 10.0, snapped, no flag
    solver.constrain_eq0(LinearExpr {
        coeffs: vec![(r(1), x)],
        constant: rq(-1000003, 100000),
    });
    assert!(solver.value_of(x).unwrap().eq_rat(&r(10)));
    assert!(solver.invalid_roundings().is_empty());
    // y = 10.05: exactly midway between grid points, flagged, kept exact
    solver.constrain_eq0(LinearExpr {
        coeffs: vec![(r(1), y)],
        constant: rq(-201, 20),
    });
    assert_eq!(solver.invalid_roundings(), &vec![y]);
    assert!(solver.value_of(y).unwrap().eq_rat(&rq(201, 20)));
}

#[test]
fn on_grid_values_come_back_exact() {
    // grid step 1/2: a value solved to exactly 5/2 sits on the grid and is
    // handed back as that very rational, unflagged
    let mut solver = Solver::with_config(rq(1, 2), rq(1, 1000));
    let x = solver.new_var();
    solver.constrain_eq0(LinearExpr { coeffs: vec![(r(2), x)], constant: r(-5) });
    let v = solver.value_of(x).unwrap();
    assert!(v.eq_rat(&rq(5, 2)));
    assert!(solver.invalid_roundings().is_empty());
}

#[test]
fn coupled_rectangles_solved_batched() {
    // r1: x0 = 0, x1 - x0 = 50; r2: x0 - r1.x1 = 100, x1 - x0 = 200
    // widths registered first so registration alone cannot finish
    let mut solver = Solver::new();
    let a0 = solver.new_var();
    let a1 = solver.new_var();
    let b0 = solver.new_var();
    let b1 = solver.new_var();
    solver.constrain_eq0(lin(vec![(1, a1), (-1, a0)], -50));
    solver.constrain_eq0(lin(vec![(1, b0), (-1, a1)], -100));
    solver.constrain_eq0(lin(vec![(1, b1), (-1, b0)], -200));
    solver.constrain_eq0(lin(vec![(1, a0)], 0));
    solver.solve();
    assert!(solver.value_of(a0).unwrap().eq_rat(&r(0)));
    assert!(solver.value_of(a1).unwrap().eq_rat(&r(50)));
    assert!(solver.value_of(b0).unwrap().eq_rat(&r(150)));
    assert!(solver.value_of(b1).unwrap().eq_rat(&r(350)));
    assert!(solver.inconsistent_constraints().is_empty());
}

#[test]
fn elimination_resolves_sum_and_difference() {
    let mut solver = Solver::new();
    let x = solver.new_var();
    let y = solver.new_var();
    solver.constrain_eq0(lin(vec![(2, x), (1, y)], -8));
    solver.constrain_eq0(lin(vec![(1, x), (-1, y)], -1));
    assert!(!solver.is_solved(x));
    solver.solve();
    assert!(solver.value_of(x).unwrap().eq_rat(&r(3)));
    assert!(solver.value_of(y).unwrap().eq_rat(&r(2)));
}

#[test]
fn force_solution_pins_everything() {
    let mut solver = Solver::new();
    let x = solver.new_var();
    let y = solver.new_var();
    solver.constrain_eq0(lin(vec![(1, y), (-1, x)], -7));
    solver.force_solution();
    assert!(solver.fully_solved());
    assert!(solver.value_of(x).unwrap().eq_rat(&r(0)));
    assert!(solver.value_of(y).unwrap().eq_rat(&r(7)));
}

#[test]
fn rational_arithmetic_is_exact() {
    // 1/3 is represented exactly: 3 * (1/3) folds back to 1
    let mut solver = Solver::new();
    let x = solver.new_var();
    solver.constrain_eq0(lin(vec![(3, x)], -1));
    let v = solver.value_of(x).unwrap();
    assert_eq!(v, rq(1, 3));
    let triple = solver.eval_expr(&lin(vec![(3, x)], 0)).unwrap();
    assert!(triple.eq_rat(&r(1)));
}
