use argon_core::eval::{
    compile, eval_binop, BinOp, CellDecl, CompileOutput, CoordKw, ExecError, Expr, Program,
    SolvedValue, Stmt,
};
use argon_core::hier::{cell_bbox, check_compiled, object_path, Angle, BBox, Placement, SourceInfo};
use argon_core::linear::LinearExpr;
use argon_core::rat::Rat;

fn r(n: i64) -> Rat {
    Rat::from_i64(n)
}

fn sp(id: u64) -> SourceInfo {
    SourceInfo { id, start: id as usize, end: id as usize + 1 }
}

fn num(n: i64, id: u64) -> Expr {
    Expr::Num(r(n), sp(id))
}

fn simple_rect(x0: i64, y0: i64, x1: i64, y1: i64) -> Expr {
    Expr::RectCall(
        Some("met1".to_string()),
        Some(Box::new(num(x0, 1))),
        Some(Box::new(num(y0, 2))),
        Some(Box::new(num(x1, 3))),
        Some(Box::new(num(y1, 4))),
        sp(0),
    )
}

#[test]
fn rect_coordinates_come_back_solved() {
    let prog = Program {
        cells: vec![CellDecl { params: vec![], body: vec![Stmt::Bare(simple_rect(0, 0, 10, 20))] }],
    };
    let out = compile(&prog, 0, &vec![], false);
    match out {
        CompileOutput::Valid(data) => {
            assert_eq!(data.cells.len(), 1);
            let cell = &data.cells[data.top];
            assert_eq!(cell.objects.len(), 1);
            match &cell.objects[0] {
                SolvedValue::SRect(rc) => {
                    assert!(rc.x0.eq_rat(&r(0)));
                    assert!(rc.y0.eq_rat(&r(0)));
                    assert!(rc.x1.eq_rat(&r(10)));
                    assert!(rc.y1.eq_rat(&r(20)));
                    assert_eq!(rc.layer.as_deref(), Some("met1"));
                }
                other => panic!("expected a rect, got {other:?}"),
            }
            assert!(cell.unsolved.is_empty());
            assert!(cell.inconsistent.is_empty());
        }
        other => panic!("expected a valid compile, got {other:?}"),
    }
}

#[test]
fn nonlinear_multiplication_is_rejected_with_its_span() {
    // let a = rect(...); a.x0 * a.x1 is not linear
    let body = vec![
        Stmt::Let(1, simple_rect(0, 0, 10, 20)),
        Stmt::Bare(Expr::Bin(
            BinOp::Mul,
            Box::new(Expr::Field(Box::new(Expr::Ref(1, sp(7))), CoordKw::X0, sp(8))),
            Box::new(Expr::Field(Box::new(Expr::Ref(1, sp(9))), CoordKw::X1, sp(10))),
            sp(42),
        )),
    ];
    let prog = Program { cells: vec![CellDecl { params: vec![], body }] };
    let out = compile(&prog, 0, &vec![], false);
    match out {
        CompileOutput::ExecErrors { errors, output } => {
            assert_eq!(errors, vec![ExecError::Nonlinear(sp(42))]);
            assert!(output.is_some());
        }
        other => panic!("expected a nonlinear error, got {other:?}"),
    }
}

#[test]
fn eval_binop_accepts_scaling_but_not_products_of_unknowns() {
    let five = LinearExpr { coeffs: vec![], constant: r(5) };
    let var = LinearExpr {
        coeffs: vec![(r(1), argon_core::linear::Var(0))],
        constant: r(0),
    };
    assert!(eval_binop(BinOp::Mul, &five, &var, sp(1)).is_ok());
    assert!(eval_binop(BinOp::Mul, &var, &five, sp(1)).is_ok());
    assert_eq!(
        eval_binop(BinOp::Mul, &var, &var, sp(1)),
        Err(ExecError::Nonlinear(sp(1)))
    );
    assert_eq!(
        eval_binop(BinOp::Div, &five, &var, sp(2)),
        Err(ExecError::Nonlinear(sp(2)))
    );
    let zero = LinearExpr { coeffs: vec![], constant: r(0) };
    assert_eq!(
        eval_binop(BinOp::Div, &var, &zero, sp(3)),
        Err(ExecError::DivByZero(sp(3)))
    );
    // dividing a variable expression by a unit flips it exactly
    let minus_one = LinearExpr { coeffs: vec![], constant: r(-1) };
    let flipped = eval_binop(BinOp::Div, &var, &minus_one, sp(4)).unwrap();
    assert_eq!(flipped.coeffs.len(), 1);
    assert!(flipped.coeffs[0].0.eq_rat(&r(-1)));
}

#[test]
fn two_instances_share_one_compiled_sub_cell() {
    let sub = CellDecl { params: vec![], body: vec![Stmt::Bare(simple_rect(0, 0, 10, 20))] };
    let place_a = Placement { x: r(0), y: r(0), angle: Angle::R0, reflect: false };
    let place_b = Placement { x: r(100), y: r(50), angle: Angle::R90, reflect: false };
    let top = CellDecl {
        params: vec![],
        body: vec![
            Stmt::Bare(Expr::Inst(0, vec![], place_a.clone(), "u_a".to_string(), sp(1))),
            Stmt::Bare(Expr::Inst(0, vec![], place_b.clone(), "u_b".to_string(), sp(2))),
        ],
    };
    let prog = Program { cells: vec![sub, top] };
    let out = compile(&prog, 1, &vec![], false);
    match out {
        CompileOutput::Valid(data) => {
            // the sub-cell is compiled once; the top references it twice
            assert_eq!(data.cells.len(), 2);
            let topcell = &data.cells[data.top];
            assert_eq!(topcell.objects.len(), 2);
            let mut refs = vec![];
            for o in &topcell.objects {
                match o {
                    SolvedValue::SInstance(i) => refs.push((i.cell, i.place.clone())),
                    other => panic!("expected instances, got {other:?}"),
                }
            }
            assert_eq!(refs[0].0, refs[1].0);
            assert_eq!(refs[0].1, place_a);
            assert_eq!(refs[1].1, place_b);
        }
        other => panic!("expected a valid compile, got {other:?}"),
    }
}

#[test]
fn parameterized_sub_cell_compiled_per_binding() {
    // rect with width taken from the parameter: x1 - x0 = p, x0 = 0
    let body = vec![Stmt::Bare(Expr::RectCall(
        None,
        Some(Box::new(num(0, 1))),
        Some(Box::new(num(0, 2))),
        Some(Box::new(Expr::Ref(9, sp(3)))),
        Some(Box::new(num(5, 4))),
        sp(0),
    ))];
    let sub = CellDecl { params: vec![9], body };
    let pl = Placement { x: r(0), y: r(0), angle: Angle::R0, reflect: false };
    let top = CellDecl {
        params: vec![],
        body: vec![
            Stmt::Bare(Expr::Inst(0, vec![r(10)], pl.clone(), "a".to_string(), sp(1))),
            Stmt::Bare(Expr::Inst(0, vec![r(10)], pl.clone(), "b".to_string(), sp(2))),
            Stmt::Bare(Expr::Inst(0, vec![r(20)], pl.clone(), "c".to_string(), sp(3))),
        ],
    };
    let prog = Program { cells: vec![sub, top] };
    match compile(&prog, 1, &vec![], false) {
        CompileOutput::Valid(data) => {
            // two distinct parameter bindings plus the top: three records
            assert_eq!(data.cells.len(), 3);
        }
        other => panic!("expected a valid compile, got {other:?}"),
    }
}

#[test]
fn hierarchy_bbox_is_computed_bottom_up() {
    // sub cell: one 10x20 rectangle at the origin
    let sub = CellDecl { params: vec![], body: vec![Stmt::Bare(simple_rect(0, 0, 10, 20))] };
    let place_a = Placement { x: r(0), y: r(0), angle: Angle::R0, reflect: false };
    let place_b = Placement { x: r(100), y: r(50), angle: Angle::R90, reflect: false };
    let top = CellDecl {
        params: vec![],
        body: vec![
            Stmt::Bare(Expr::Inst(0, vec![], place_a, "u_a".to_string(), sp(11))),
            Stmt::Bare(Expr::Inst(0, vec![], place_b, "u_b".to_string(), sp(12))),
        ],
    };
    let prog = Program { cells: vec![sub, top] };
    let data = match compile(&prog, 1, &vec![], false) {
        CompileOutput::Valid(data) => data,
        other => panic!("expected a valid compile, got {other:?}"),
    };
    assert!(check_compiled(&data));
    // the sub cell's own box
    let sb = cell_bbox(&data, 0).unwrap().unwrap();
    assert_eq!(sb, BBox { x0: r(0), y0: r(0), x1: r(10), y1: r(20) });
    // the top: identity placement gives (0,0,10,20); the quarter turn at
    // (100,50) gives (80,50,100,60); the union spans both
    let tb = cell_bbox(&data, data.top).unwrap().unwrap();
    assert_eq!(tb, BBox { x0: r(0), y0: r(0), x1: r(100), y1: r(60) });
    // name paths resolve through the instances
    let oid_a = match &data.cells[data.top].objects[0] {
        SolvedValue::SInstance(i) => i.oid,
        other => panic!("expected an instance, got {other:?}"),
    };
    let rect_oid = match &data.cells[0].objects[0] {
        SolvedValue::SRect(rc) => rc.source.unwrap().id,
        other => panic!("expected a rect, got {other:?}"),
    };
    let path = object_path(&data, data.top, &vec![oid_a, rect_oid]).unwrap();
    assert_eq!(path, vec!["u_a".to_string(), "met1".to_string()]);
    // a missing id does not resolve
    assert!(object_path(&data, data.top, &vec![oid_a, 999]).is_none());
    // a rectangle cannot be descended into
    assert!(object_path(&data, 0, &vec![rect_oid, rect_oid]).is_none());
}

#[test]
fn recoverable_errors_do_not_stop_the_cell() {
    // an undefined name spoils its own statement; the rectangle after it
    // is still produced, and the compile reports the error beside output
    let body = vec![
        Stmt::Bare(Expr::Ref(77, sp(5))),
        Stmt::Bare(simple_rect(0, 0, 10, 20)),
    ];
    let prog = Program { cells: vec![CellDecl { params: vec![], body }] };
    match compile(&prog, 0, &vec![], false) {
        CompileOutput::ExecErrors { errors, output } => {
            assert_eq!(errors, vec![ExecError::UndefinedName(sp(5))]);
            let data = output.expect("partial output expected");
            assert_eq!(data.cells[data.top].objects.len(), 1);
        }
        other => panic!("expected a recoverable error, got {other:?}"),
    }
}
