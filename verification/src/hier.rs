//! Scope addressing and solved-geometry arithmetic.
//!
//! A compiled cell owns a tree of scopes; every `(cell, scope)` pair is
//! addressed by a `ScopeAddress`.  Placements of instances rotate in
//! quarter turns, then mirror, then translate, in that fixed order, and
//! bounding boxes are united with `None` as the identity element.
use vstd::prelude::*;

use crate::eval::CompiledData;
use crate::eval::SolvedValue;
use crate::rat::Q;
use crate::rat::Rat;
use crate::rat::q_add;
use crate::rat::q_eq;
use crate::rat::q_le;
use crate::rat::q_neg;

verus! {

/// A source region, for diagnostics: byte offsets plus the originating
/// object id.
#[derive(Clone, Copy, Debug, PartialEq, Eq, Structural)]
pub struct SourceInfo {
    pub id: u64,
    pub start: usize,
    pub end: usize,
}

/// A rotation in quarter turns, counter-clockwise.
#[derive(Clone, Copy, Debug, PartialEq, Eq, Structural)]
pub enum Angle {
    R0,
    R90,
    R180,
    R270,
}

/// The placement of an instance: rotate, then mirror (flip the y axis),
/// then translate.
#[derive(Clone, Copy, Debug, PartialEq)]
pub struct Placement {
    pub x: Rat,
    pub y: Rat,
    pub angle: Angle,
    pub reflect: bool,
}

/// An axis-aligned rectangle; `T` is `Var` before solving and `Rat` after.
#[derive(Clone, Debug, PartialEq)]
pub struct Rect<T> {
    pub layer: Option<String>,
    pub x0: T,
    pub y0: T,
    pub x1: T,
    pub y1: T,
    pub source: Option<SourceInfo>,
}

/// A solved bounding box.
#[derive(Clone, Copy, Debug, PartialEq)]
pub struct BBox {
    pub x0: Rat,
    pub y0: Rat,
    pub x1: Rat,
    pub y1: Rat,
}

/// A stable composite key for one scope of one compiled cell.
#[derive(Clone, Copy, Debug, PartialEq, Eq, Hash, Structural)]
pub struct ScopeAddress {
    pub cell: u64,
    pub scope: u64,
}

impl BBox {
    pub open spec fn wf(self) -> bool {
        self.x0.wf() && self.y0.wf() && self.x1.wf() && self.y1.wf()
    }
}

impl Placement {
    pub open spec fn wf(self) -> bool {
        self.x.wf() && self.y.wf()
    }
}

/// Where the placement carries the point `(x, y)`: rotation by the quarter
/// angle, then the optional mirror, then the translation.
pub open spec fn placed(pl: Placement, x: Q, y: Q) -> (Q, Q) {
    let r = match pl.angle {
        Angle::R0 => (x, y),
        Angle::R90 => (q_neg(y), x),
        Angle::R180 => (q_neg(x), q_neg(y)),
        Angle::R270 => (y, q_neg(x)),
    };
    let s = if pl.reflect {
        (r.0, q_neg(r.1))
    } else {
        r
    };
    (q_add(s.0, pl.x.q()), q_add(s.1, pl.y.q()))
}

/// The coordinates a placement produces are well-formed rationals.
pub proof fn lemma_placed_wf(pl: Placement, x: Q, y: Q)
    requires
        crate::rat::q_wf(x),
        crate::rat::q_wf(y),
        pl.wf(),
    ensures
        crate::rat::q_wf(placed(pl, x, y).0),
        crate::rat::q_wf(placed(pl, x, y).1),
{
    let r = match pl.angle {
        Angle::R0 => (x, y),
        Angle::R90 => (q_neg(y), x),
        Angle::R180 => (q_neg(x), q_neg(y)),
        Angle::R270 => (y, q_neg(x)),
    };
    let s = if pl.reflect {
        (r.0, q_neg(r.1))
    } else {
        r
    };
    crate::rat::lemma_q_add_wf(s.0, pl.x.q());
    crate::rat::lemma_q_add_wf(s.1, pl.y.q());
}

/// All four quantities are integers of at most half the representable
/// magnitude: placements of such points always stay in range.
pub open spec fn placeable_ints(x: Rat, y: Rat, pl: Placement) -> bool {
    &&& x.den == 1 && -0x3fff_ffff_ffff_ffff <= x.num <= 0x3fff_ffff_ffff_ffff
    &&& y.den == 1 && -0x3fff_ffff_ffff_ffff <= y.num <= 0x3fff_ffff_ffff_ffff
    &&& pl.x.den == 1 && -0x3fff_ffff_ffff_ffff <= pl.x.num <= 0x3fff_ffff_ffff_ffff
    &&& pl.y.den == 1 && -0x3fff_ffff_ffff_ffff <= pl.y.num <= 0x3fff_ffff_ffff_ffff
}

/// Apply a placement to a point, exactly.  `None` when a coordinate leaves
/// the rational range.
pub fn transform_point(x: &Rat, y: &Rat, pl: &Placement) -> (r: Option<(Rat, Rat)>)
    requires
        x.wf(),
        y.wf(),
        pl.wf(),
    ensures
        r is Some ==> {
            let p = placed(*pl, x.q(), y.q());
            &&& r.unwrap().0.wf()
            &&& r.unwrap().1.wf()
            &&& q_eq(r.unwrap().0.q(), p.0)
            &&& q_eq(r.unwrap().1.q(), p.1)
        },
        placeable_ints(*x, *y, *pl) ==> r is Some,
{
    let sx: Rat;
    let sy: Rat;
    match (pl.angle, pl.reflect) {
        (Angle::R0, false) => {
            sx = *x;
            sy = *y;
        },
        (Angle::R90, false) => {
            match y.neg() {
                None => {
                    return None;
                },
                Some(ny) => {
                    sx = ny;
                    sy = *x;
                },
            }
        },
        (Angle::R180, false) => {
            match (x.neg(), y.neg()) {
                (Some(nx), Some(ny)) => {
                    sx = nx;
                    sy = ny;
                },
                _ => {
                    return None;
                },
            }
        },
        (Angle::R270, false) => {
            match x.neg() {
                None => {
                    return None;
                },
                Some(nx) => {
                    sx = *y;
                    sy = nx;
                },
            }
        },
        (Angle::R0, true) => {
            match y.neg() {
                None => {
                    return None;
                },
                Some(ny) => {
                    sx = *x;
                    sy = ny;
                },
            }
        },
        (Angle::R90, true) => {
            match (y.neg(), x.neg()) {
                (Some(ny), Some(nx)) => {
                    sx = ny;
                    sy = nx;
                },
                _ => {
                    return None;
                },
            }
        },
        (Angle::R180, true) => {
            match x.neg() {
                None => {
                    return None;
                },
                Some(nx) => {
                    sx = nx;
                    sy = *y;
                },
            }
        },
        (Angle::R270, true) => {
            sx = *y;
            sy = *x;
        },
    }
    proof {
        let rq = match pl.angle {
            Angle::R0 => (x.q(), y.q()),
            Angle::R90 => (q_neg(y.q()), x.q()),
            Angle::R180 => (q_neg(x.q()), q_neg(y.q())),
            Angle::R270 => (y.q(), q_neg(x.q())),
        };
        let sq = if pl.reflect {
            (rq.0, q_neg(rq.1))
        } else {
            rq
        };
        assert(q_eq(sx.q(), sq.0) && q_eq(sy.q(), sq.1) && sx.wf() && sy.wf());
        if placeable_ints(*x, *y, *pl) {
            assert(sx.den == 1 && -0x3fff_ffff_ffff_ffff <= sx.num <= 0x3fff_ffff_ffff_ffff);
            assert(sy.den == 1 && -0x3fff_ffff_ffff_ffff <= sy.num <= 0x3fff_ffff_ffff_ffff);
        }
    }
    match (sx.add(&pl.x), sy.add(&pl.y)) {
        (Some(fx), Some(fy)) => {
            proof {
                let rq = match pl.angle {
                    Angle::R0 => (x.q(), y.q()),
                    Angle::R90 => (q_neg(y.q()), x.q()),
                    Angle::R180 => (q_neg(x.q()), q_neg(y.q())),
                    Angle::R270 => (y.q(), q_neg(x.q())),
                };
                let sq = if pl.reflect {
                    (rq.0, q_neg(rq.1))
                } else {
                    rq
                };
                crate::rat::lemma_q_add_congr(sx.q(), sq.0, pl.x.q(), pl.x.q());
                crate::rat::lemma_q_add_congr(sy.q(), sq.1, pl.y.q(), pl.y.q());
                crate::rat::lemma_q_add_wf(sx.q(), pl.x.q());
                crate::rat::lemma_q_add_wf(sy.q(), pl.y.q());
                crate::rat::lemma_q_add_wf(sq.0, pl.x.q());
                crate::rat::lemma_q_add_wf(sq.1, pl.y.q());
                crate::rat::lemma_q_eq_trans(fx.q(), q_add(sx.q(), pl.x.q()), placed(*pl, x.q(), y.q()).0);
                crate::rat::lemma_q_eq_trans(fy.q(), q_add(sy.q(), pl.y.q()), placed(*pl, x.q(), y.q()).1);
            }
            Some((fx, fy))
        },
        _ => None,
    }
}

/// The smaller of two rationals by value.
fn rat_min(a: Rat, b: Rat) -> (r: Rat)
    requires
        a.wf(),
        b.wf(),
    ensures
        r.wf(),
        r == a || r == b,
        q_le(r.q(), a.q()) && q_le(r.q(), b.q()),
{
    if a.le(&b) {
        a
    } else {
        b
    }
}

/// The larger of two rationals by value.
fn rat_max(a: Rat, b: Rat) -> (r: Rat)
    requires
        a.wf(),
        b.wf(),
    ensures
        r.wf(),
        r == a || r == b,
        q_le(a.q(), r.q()) && q_le(b.q(), r.q()),
{
    if a.le(&b) {
        b
    } else {
        a
    }
}

/// Apply a placement to a solved box: both corners are carried over and the
/// result is re-normalized so `x0 <= x1` and `y0 <= y1`.
pub fn transform_bbox(b: &BBox, pl: &Placement) -> (r: Option<BBox>)
    requires
        b.wf(),
        pl.wf(),
    ensures
        r is Some ==> {
            let p0 = placed(*pl, b.x0.q(), b.y0.q());
            let p1 = placed(*pl, b.x1.q(), b.y1.q());
            let o = r.unwrap();
            &&& o.wf()
            &&& q_le(o.x0.q(), o.x1.q())
            &&& q_le(o.y0.q(), o.y1.q())
            &&& (q_eq(o.x0.q(), p0.0) || q_eq(o.x0.q(), p1.0))
            &&& (q_eq(o.x1.q(), p0.0) || q_eq(o.x1.q(), p1.0))
            &&& (q_eq(o.y0.q(), p0.1) || q_eq(o.y0.q(), p1.1))
            &&& (q_eq(o.y1.q(), p0.1) || q_eq(o.y1.q(), p1.1))
            &&& q_le(o.x0.q(), p0.0) && q_le(o.x0.q(), p1.0)
            &&& q_le(p0.0, o.x1.q()) && q_le(p1.0, o.x1.q())
            &&& q_le(o.y0.q(), p0.1) && q_le(o.y0.q(), p1.1)
            &&& q_le(p0.1, o.y1.q()) && q_le(p1.1, o.y1.q())
        },
        placeable_ints(b.x0, b.y0, *pl) && placeable_ints(b.x1, b.y1, *pl) ==> r is Some,
{
    let c0 = match transform_point(&b.x0, &b.y0, pl) {
        None => {
            return None;
        },
        Some(c) => c,
    };
    let c1 = match transform_point(&b.x1, &b.y1, pl) {
        None => {
            return None;
        },
        Some(c) => c,
    };
    let x0 = rat_min(c0.0, c1.0);
    let x1 = rat_max(c0.0, c1.0);
    let y0 = rat_min(c0.1, c1.1);
    let y1 = rat_max(c0.1, c1.1);
    proof {
        crate::rat::lemma_q_le_trans(x0.q(), c0.0.q(), x1.q());
        crate::rat::lemma_q_le_trans(y0.q(), c0.1.q(), y1.q());
        let p0 = placed(*pl, b.x0.q(), b.y0.q());
        let p1 = placed(*pl, b.x1.q(), b.y1.q());
        lemma_placed_wf(*pl, b.x0.q(), b.y0.q());
        lemma_placed_wf(*pl, b.x1.q(), b.y1.q());
        crate::rat::lemma_q_le_congr(x0.q(), x0.q(), c0.0.q(), p0.0);
        crate::rat::lemma_q_le_congr(x0.q(), x0.q(), c1.0.q(), p1.0);
        crate::rat::lemma_q_le_congr(c0.0.q(), p0.0, x1.q(), x1.q());
        crate::rat::lemma_q_le_congr(c1.0.q(), p1.0, x1.q(), x1.q());
        crate::rat::lemma_q_le_congr(y0.q(), y0.q(), c0.1.q(), p0.1);
        crate::rat::lemma_q_le_congr(y0.q(), y0.q(), c1.1.q(), p1.1);
        crate::rat::lemma_q_le_congr(c0.1.q(), p0.1, y1.q(), y1.q());
        crate::rat::lemma_q_le_congr(c1.1.q(), p1.1, y1.q(), y1.q());
    }
    Some(BBox { x0, y0, x1, y1 })
}

/// Unite two optional boxes.  `None` is the identity element: the union of
/// `None` with `None` is `None`, and a single present box is returned
/// unchanged.
pub fn bbox_union(a: &Option<BBox>, b: &Option<BBox>) -> (r: Option<BBox>)
    requires
        a is Some ==> a.unwrap().wf(),
        b is Some ==> b.unwrap().wf(),
    ensures
        a is None && b is None ==> r is None,
        a is Some && b is None ==> r == *a,
        a is None && b is Some ==> r == *b,
        a is Some && b is Some ==> {
            let o = r.unwrap();
            let ab = a.unwrap();
            let bb = b.unwrap();
            &&& r is Some
            &&& o.wf()
            &&& q_le(o.x0.q(), ab.x0.q()) && q_le(o.x0.q(), bb.x0.q())
            &&& (o.x0 == ab.x0 || o.x0 == bb.x0)
            &&& q_le(ab.x1.q(), o.x1.q()) && q_le(bb.x1.q(), o.x1.q())
            &&& (o.x1 == ab.x1 || o.x1 == bb.x1)
            &&& q_le(o.y0.q(), ab.y0.q()) && q_le(o.y0.q(), bb.y0.q())
            &&& (o.y0 == ab.y0 || o.y0 == bb.y0)
            &&& q_le(ab.y1.q(), o.y1.q()) && q_le(bb.y1.q(), o.y1.q())
            &&& (o.y1 == ab.y1 || o.y1 == bb.y1)
        },
{
    match (a, b) {
        (None, None) => None,
        (Some(ab), None) => Some(*ab),
        (None, Some(bb)) => Some(*bb),
        (Some(ab), Some(bb)) => Some(
            BBox {
                x0: rat_min(ab.x0, bb.x0),
                y0: rat_min(ab.y0, bb.y0),
                x1: rat_max(ab.x1, bb.x1),
                y1: rat_max(ab.y1, bb.y1),
            },
        ),
    }
}


/// The smaller of two rationals, by value.
pub open spec fn q_min2(a: Q, b: Q) -> Q {
    if q_le(a, b) {
        a
    } else {
        b
    }
}

/// The larger of two rationals, by value.
pub open spec fn q_max2(a: Q, b: Q) -> Q {
    if q_le(a, b) {
        b
    } else {
        a
    }
}

/// A bounding box over exact rational pairs: x0, y0, x1, y1.
pub type QBox = (Q, Q, Q, Q);

pub open spec fn qbox_wf(b: QBox) -> bool {
    crate::rat::q_wf(b.0) && crate::rat::q_wf(b.1) && crate::rat::q_wf(b.2) && crate::rat::q_wf(
        b.3,
    )
}

/// Union of two optional boxes over exact pairs; `None` is the identity.
pub open spec fn qbox_union(a: Option<QBox>, b: Option<QBox>) -> Option<QBox> {
    match (a, b) {
        (Option::None, Option::None) => Option::None,
        (Option::Some(x), Option::None) => Option::Some(x),
        (Option::None, Option::Some(y)) => Option::Some(y),
        (Option::Some(x), Option::Some(y)) => Option::Some(
            (q_min2(x.0, y.0), q_min2(x.1, y.1), q_max2(x.2, y.2), q_max2(x.3, y.3)),
        ),
    }
}

/// A box carried through a placement: both corners are mapped and the
/// result is re-normalized.
pub open spec fn qbox_placed(b: QBox, pl: Placement) -> QBox {
    let p0 = placed(pl, b.0, b.1);
    let p1 = placed(pl, b.2, b.3);
    (q_min2(p0.0, p1.0), q_min2(p0.1, p1.1), q_max2(p0.0, p1.0), q_max2(p0.1, p1.1))
}

/// Instances reference strictly earlier cells (the hierarchy is a DAG by
/// construction), solved rectangles carry well-formed coordinates, and
/// placements are well-formed: what `compile` produces.
pub open spec fn compiled_wf(data: CompiledData) -> bool {
    forall|ci: int, oj: int|
        0 <= ci < data.cells@.len() && 0 <= oj < data.cells@[ci].objects@.len()
            ==> match #[trigger] data.cells@[ci].objects@[oj] {
            SolvedValue::SRect(rc) => rc.x0.wf() && rc.y0.wf() && rc.x1.wf() && rc.y1.wf(),
            SolvedValue::SInstance(ir) => (ir.cell as int) < ci && ir.place.wf(),
        }
}

/// Whether the data is fit for the hierarchy walks, checked once by the
/// consumer.
pub fn check_compiled(data: &CompiledData) -> (r: bool)
    ensures
        r == compiled_wf(*data),
{
    let nc = data.cells.len();
    let mut ci: usize = 0;
    while ci < nc
        invariant
            ci <= nc,
            nc == data.cells@.len(),
            forall|c2: int, oj: int|
                0 <= c2 < ci && 0 <= oj < data.cells@[c2].objects@.len()
                    ==> match #[trigger] data.cells@[c2].objects@[oj] {
                    SolvedValue::SRect(rc) => rc.x0.wf() && rc.y0.wf() && rc.x1.wf()
                        && rc.y1.wf(),
                    SolvedValue::SInstance(ir) => (ir.cell as int) < c2 && ir.place.wf(),
                },
        decreases nc - ci,
    {
        let no = data.cells[ci].objects.len();
        let mut oj: usize = 0;
        while oj < no
            invariant
                oj <= no,
                ci < nc,
                nc == data.cells@.len(),
                no == data.cells@[ci as int].objects@.len(),
                forall|o2: int|
                    0 <= o2 < oj ==> match #[trigger] data.cells@[ci as int].objects@[o2] {
                        SolvedValue::SRect(rc) => rc.x0.wf() && rc.y0.wf() && rc.x1.wf()
                            && rc.y1.wf(),
                        SolvedValue::SInstance(ir) => (ir.cell as int) < ci as int
                            && ir.place.wf(),
                    },
            decreases no - oj,
        {
            match &data.cells[ci].objects[oj] {
                SolvedValue::SRect(rc) => {
                    if rc.x0.den <= 0 || rc.y0.den <= 0 || rc.x1.den <= 0 || rc.y1.den <= 0 {
                        return false;
                    }
                },
                SolvedValue::SInstance(ir) => {
                    if ir.cell >= ci || ir.place.x.den <= 0 || ir.place.y.den <= 0 {
                        return false;
                    }
                },
            }
            oj += 1;
        }
        ci += 1;
    }
    true
}

/// The bounding box of one compiled cell, over exact pairs: the union of
/// its solved rectangles and, for every instance, the placed box of the
/// referenced (earlier) cell — computed bottom-up through the DAG.
/// `shadow_fold` is the union over the first `j` objects.
pub open spec fn shadow_fold(data: CompiledData, cell: int, j: int) -> Option<QBox>
    decreases cell, j, 0int,
{
    if j <= 0 || cell < 0 {
        Option::None
    } else {
        let prev = shadow_fold(data, cell, j - 1);
        let cur: Option<QBox> = if 0 <= cell < data.cells@.len() && j - 1
            < data.cells@[cell].objects@.len() {
            match data.cells@[cell].objects@[j - 1] {
                SolvedValue::SRect(rc) => Option::Some(
                    (rc.x0.q(), rc.y0.q(), rc.x1.q(), rc.y1.q()),
                ),
                SolvedValue::SInstance(ir) => if 0 <= (ir.cell as int) < cell {
                    match shadow(data, ir.cell as int) {
                        Option::None => Option::None,
                        Option::Some(bs) => Option::Some(qbox_placed(bs, ir.place)),
                    }
                } else {
                    Option::None
                },
            }
        } else {
            Option::None
        };
        qbox_union(prev, cur)
    }
}

/// The bounding box of a whole cell: `shadow_fold` over all its objects.
pub open spec fn shadow(data: CompiledData, cell: int) -> Option<QBox>
    decreases cell, data.cells@[cell].objects@.len() + 1, 1int,
{
    if 0 <= cell < data.cells@.len() {
        shadow_fold(data, cell, data.cells@[cell].objects@.len() as int)
    } else {
        Option::None
    }
}

/// Exact arithmetic left the rational range during a hierarchy walk.
#[derive(Clone, Copy, Debug, PartialEq, Eq, Structural)]
pub struct RangeExceeded;

/// The computed optional box matches the exact one: present together, and
/// corner for corner equal as rational values.
pub open spec fn agrees_qbox(r: Option<BBox>, s: Option<QBox>) -> bool {
    match (r, s) {
        (Option::None, Option::None) => true,
        (Option::Some(b), Option::Some(q)) => b.wf() && qbox_wf(q) && q_eq(b.x0.q(), q.0)
            && q_eq(b.y0.q(), q.1) && q_eq(b.x1.q(), q.2) && q_eq(b.y1.q(), q.3),
        _ => false,
    }
}

/// A value below two others and equal to one of them is their minimum.
proof fn lemma_pick_min(v: Q, a: Q, b: Q)
    requires
        crate::rat::q_wf(v),
        crate::rat::q_wf(a),
        crate::rat::q_wf(b),
        q_eq(v, a) || q_eq(v, b),
        q_le(v, a),
        q_le(v, b),
    ensures
        q_eq(v, q_min2(a, b)),
{
    if q_le(a, b) {
        if q_eq(v, b) {
            crate::rat::lemma_q_le_congr(a, a, b, v);
            crate::rat::lemma_q_le_antisym(v, a);
        }
    } else {
        if q_eq(v, a) {
            crate::rat::lemma_q_le_congr(b, b, a, v);
            crate::rat::lemma_q_le_antisym(v, b);
        }
    }
}

/// A value above two others and equal to one of them is their maximum.
proof fn lemma_pick_max(v: Q, a: Q, b: Q)
    requires
        crate::rat::q_wf(v),
        crate::rat::q_wf(a),
        crate::rat::q_wf(b),
        q_eq(v, a) || q_eq(v, b),
        q_le(a, v),
        q_le(b, v),
    ensures
        q_eq(v, q_max2(a, b)),
{
    if q_le(a, b) {
        if q_eq(v, a) {
            crate::rat::lemma_q_eq_sym(v, a);
            crate::rat::lemma_q_le_congr(a, v, b, b);
            crate::rat::lemma_q_le_antisym(v, b);
        }
    } else {
        if q_eq(v, b) {
            crate::rat::lemma_q_eq_sym(v, b);
            crate::rat::lemma_q_le_congr(b, v, a, a);
            crate::rat::lemma_q_le_antisym(v, a);
        }
    }
}

/// `placed` respects rational equality of the input coordinates.
proof fn lemma_placed_congr(pl: Placement, x: Q, y: Q, x2: Q, y2: Q)
    requires
        crate::rat::q_wf(x),
        crate::rat::q_wf(y),
        crate::rat::q_wf(x2),
        crate::rat::q_wf(y2),
        pl.wf(),
        q_eq(x, x2),
        q_eq(y, y2),
    ensures
        q_eq(placed(pl, x, y).0, placed(pl, x2, y2).0),
        q_eq(placed(pl, x, y).1, placed(pl, x2, y2).1),
{
    assert(q_eq(q_neg(x), q_neg(x2))) by (nonlinear_arith)
        requires
            q_eq(x, x2),
    ;
    assert(q_eq(q_neg(y), q_neg(y2))) by (nonlinear_arith)
        requires
            q_eq(y, y2),
    ;
    let r = match pl.angle {
        Angle::R0 => (x, y),
        Angle::R90 => (q_neg(y), x),
        Angle::R180 => (q_neg(x), q_neg(y)),
        Angle::R270 => (y, q_neg(x)),
    };
    let r2 = match pl.angle {
        Angle::R0 => (x2, y2),
        Angle::R90 => (q_neg(y2), x2),
        Angle::R180 => (q_neg(x2), q_neg(y2)),
        Angle::R270 => (y2, q_neg(x2)),
    };
    let s = if pl.reflect {
        (r.0, q_neg(r.1))
    } else {
        r
    };
    let s2 = if pl.reflect {
        (r2.0, q_neg(r2.1))
    } else {
        r2
    };
    assert(q_eq(s.0, s2.0) && q_eq(s.1, s2.1)) by (nonlinear_arith)
        requires
            q_eq(r.0, r2.0),
            q_eq(r.1, r2.1),
            s.0 == r.0 && s2.0 == r2.0,
            s.1 == if pl.reflect {
                q_neg(r.1)
            } else {
                r.1
            },
            s2.1 == if pl.reflect {
                q_neg(r2.1)
            } else {
                r2.1
            },
    ;
    crate::rat::lemma_q_add_congr(s.0, s2.0, pl.x.q(), pl.x.q());
    crate::rat::lemma_q_add_congr(s.1, s2.1, pl.y.q(), pl.y.q());
}

/// The bounding box of one compiled cell, bottom-up: rectangles directly,
/// instances through the referenced cell's box carried by its placement.
/// Matches the exact-pair box `shadow` corner for corner; `Err` only when
/// exact arithmetic leaves the representable range.
pub fn cell_bbox(data: &CompiledData, cell: usize) -> (r: Result<Option<BBox>, RangeExceeded>)
    requires
        compiled_wf(*data),
        (cell as int) < data.cells@.len(),
    ensures
        r is Ok ==> agrees_qbox(r.unwrap(), shadow(*data, cell as int)),
        data.cells@[cell as int].objects@.len() == 0 ==> r is Ok,
        (forall|oj: int|
            0 <= oj < data.cells@[cell as int].objects@.len()
                ==> (#[trigger] data.cells@[cell as int].objects@[oj]) is SRect) ==> r is Ok,
    decreases cell,
{
    let mut acc: Option<BBox> = None;
    let n = data.cells[cell].objects.len();
    let mut j: usize = 0;
    while j < n
        invariant
            j <= n,
            compiled_wf(*data),
            (cell as int) < data.cells@.len(),
            n == data.cells@[cell as int].objects@.len(),
            agrees_qbox(acc, shadow_fold(*data, cell as int, j as int)),
        decreases n - j,
    {
        let ghost prev_acc = acc;
        let cur: Option<BBox> = match &data.cells[cell].objects[j] {
            SolvedValue::SRect(rc) => Some(
                BBox { x0: rc.x0, y0: rc.y0, x1: rc.x1, y1: rc.y1 },
            ),
            SolvedValue::SInstance(ir) => {
                let sub = match cell_bbox(data, ir.cell) {
                    Err(e) => {
                        return Err(e);
                    },
                    Ok(s) => s,
                };
                match sub {
                    None => None,
                    Some(bs) => {
                        match transform_bbox(&bs, &ir.place) {
                            None => {
                                return Err(RangeExceeded);
                            },
                            Some(tb) => {
                                proof {
                                    let sq = shadow(*data, ir.cell as int).unwrap();
                                    let mq = qbox_placed(sq, ir.place);
                                    let p0 = placed(ir.place, bs.x0.q(), bs.y0.q());
                                    let p1 = placed(ir.place, bs.x1.q(), bs.y1.q());
                                    let p0m = placed(ir.place, sq.0, sq.1);
                                    let p1m = placed(ir.place, sq.2, sq.3);
                                    lemma_placed_wf(ir.place, bs.x0.q(), bs.y0.q());
                                    lemma_placed_wf(ir.place, bs.x1.q(), bs.y1.q());
                                    lemma_placed_wf(ir.place, sq.0, sq.1);
                                    lemma_placed_wf(ir.place, sq.2, sq.3);
                                    lemma_placed_congr(ir.place, bs.x0.q(), bs.y0.q(), sq.0, sq.1);
                                    lemma_placed_congr(ir.place, bs.x1.q(), bs.y1.q(), sq.2, sq.3);
                                    // each output corner is the matching
                                    // extreme of the mirrored images
                                    crate::rat::lemma_q_le_congr(tb.x0.q(), tb.x0.q(), p0.0, p0m.0);
                                    crate::rat::lemma_q_le_congr(tb.x0.q(), tb.x0.q(), p1.0, p1m.0);
                                    crate::rat::lemma_q_le_congr(p0.0, p0m.0, tb.x1.q(), tb.x1.q());
                                    crate::rat::lemma_q_le_congr(p1.0, p1m.0, tb.x1.q(), tb.x1.q());
                                    crate::rat::lemma_q_le_congr(tb.y0.q(), tb.y0.q(), p0.1, p0m.1);
                                    crate::rat::lemma_q_le_congr(tb.y0.q(), tb.y0.q(), p1.1, p1m.1);
                                    crate::rat::lemma_q_le_congr(p0.1, p0m.1, tb.y1.q(), tb.y1.q());
                                    crate::rat::lemma_q_le_congr(p1.1, p1m.1, tb.y1.q(), tb.y1.q());
                                    if q_eq(tb.x0.q(), p0.0) {
                                        crate::rat::lemma_q_eq_trans(tb.x0.q(), p0.0, p0m.0);
                                    } else {
                                        crate::rat::lemma_q_eq_trans(tb.x0.q(), p1.0, p1m.0);
                                    }
                                    if q_eq(tb.x1.q(), p0.0) {
                                        crate::rat::lemma_q_eq_trans(tb.x1.q(), p0.0, p0m.0);
                                    } else {
                                        crate::rat::lemma_q_eq_trans(tb.x1.q(), p1.0, p1m.0);
                                    }
                                    if q_eq(tb.y0.q(), p0.1) {
                                        crate::rat::lemma_q_eq_trans(tb.y0.q(), p0.1, p0m.1);
                                    } else {
                                        crate::rat::lemma_q_eq_trans(tb.y0.q(), p1.1, p1m.1);
                                    }
                                    if q_eq(tb.y1.q(), p0.1) {
                                        crate::rat::lemma_q_eq_trans(tb.y1.q(), p0.1, p0m.1);
                                    } else {
                                        crate::rat::lemma_q_eq_trans(tb.y1.q(), p1.1, p1m.1);
                                    }
                                    lemma_pick_min(tb.x0.q(), p0m.0, p1m.0);
                                    lemma_pick_min(tb.y0.q(), p0m.1, p1m.1);
                                    lemma_pick_max(tb.x1.q(), p0m.0, p1m.0);
                                    lemma_pick_max(tb.y1.q(), p0m.1, p1m.1);
                                    assert(q_eq(tb.x0.q(), mq.0) && q_eq(tb.y0.q(), mq.1) && q_eq(
                                        tb.x1.q(),
                                        mq.2,
                                    ) && q_eq(tb.y1.q(), mq.3));
                                }
                                Some(tb)
                            },
                        }
                    },
                }
            },
        };
        let next = bbox_union(&acc, &cur);
        proof {
            let sprev = shadow_fold(*data, cell as int, j as int);
            let snext = shadow_fold(*data, cell as int, j as int + 1);
            let scur: Option<QBox> = match data.cells@[cell as int].objects@[j as int] {
                SolvedValue::SRect(rc) => Option::Some(
                    (rc.x0.q(), rc.y0.q(), rc.x1.q(), rc.y1.q()),
                ),
                SolvedValue::SInstance(ir) => match shadow(*data, ir.cell as int) {
                    Option::None => Option::None,
                    Option::Some(bsq) => Option::Some(qbox_placed(bsq, ir.place)),
                },
            };
            assert(snext == qbox_union(sprev, scur));
            assert(agrees_qbox(cur, scur));
            if prev_acc is Some && cur is Some {
                let pb = prev_acc.unwrap();
                let cb = cur.unwrap();
                let pq = sprev.unwrap();
                let cq = scur.unwrap();
                let ob = next.unwrap();
                crate::rat::lemma_q_le_congr(ob.x0.q(), ob.x0.q(), pb.x0.q(), pq.0);
                crate::rat::lemma_q_le_congr(ob.x0.q(), ob.x0.q(), cb.x0.q(), cq.0);
                crate::rat::lemma_q_le_congr(ob.y0.q(), ob.y0.q(), pb.y0.q(), pq.1);
                crate::rat::lemma_q_le_congr(ob.y0.q(), ob.y0.q(), cb.y0.q(), cq.1);
                crate::rat::lemma_q_le_congr(pb.x1.q(), pq.2, ob.x1.q(), ob.x1.q());
                crate::rat::lemma_q_le_congr(cb.x1.q(), cq.2, ob.x1.q(), ob.x1.q());
                crate::rat::lemma_q_le_congr(pb.y1.q(), pq.3, ob.y1.q(), ob.y1.q());
                crate::rat::lemma_q_le_congr(cb.y1.q(), cq.3, ob.y1.q(), ob.y1.q());
                if ob.x0 == pb.x0 {
                    crate::rat::lemma_q_eq_refl(ob.x0.q());
                    crate::rat::lemma_q_eq_trans(ob.x0.q(), pb.x0.q(), pq.0);
                } else {
                    crate::rat::lemma_q_eq_trans(ob.x0.q(), cb.x0.q(), cq.0);
                }
                if ob.y0 == pb.y0 {
                    crate::rat::lemma_q_eq_trans(ob.y0.q(), pb.y0.q(), pq.1);
                } else {
                    crate::rat::lemma_q_eq_trans(ob.y0.q(), cb.y0.q(), cq.1);
                }
                if ob.x1 == pb.x1 {
                    crate::rat::lemma_q_eq_trans(ob.x1.q(), pb.x1.q(), pq.2);
                } else {
                    crate::rat::lemma_q_eq_trans(ob.x1.q(), cb.x1.q(), cq.2);
                }
                if ob.y1 == pb.y1 {
                    crate::rat::lemma_q_eq_trans(ob.y1.q(), pb.y1.q(), pq.3);
                } else {
                    crate::rat::lemma_q_eq_trans(ob.y1.q(), cb.y1.q(), cq.3);
                }
                lemma_pick_min(ob.x0.q(), pq.0, cq.0);
                lemma_pick_min(ob.y0.q(), pq.1, cq.1);
                lemma_pick_max(ob.x1.q(), pq.2, cq.2);
                lemma_pick_max(ob.y1.q(), pq.3, cq.3);
            }
            assert(agrees_qbox(next, snext));
        }
        acc = next;
        j += 1;
    }
    Ok(acc)
}


/// The object id an emitted object carries.
pub open spec fn oid_of(o: SolvedValue) -> u64 {
    match o {
        SolvedValue::SRect(rc) => match rc.source {
            Option::Some(si) => si.id,
            Option::None => 0,
        },
        SolvedValue::SInstance(ir) => ir.oid,
    }
}

/// The display name of an emitted object: an instance's given name, a
/// rectangle's layer (or nothing).
pub open spec fn name_of(o: SolvedValue) -> Seq<char> {
    match o {
        SolvedValue::SRect(rc) => match rc.layer {
            Option::Some(l) => l@,
            Option::None => Seq::<char>::empty(),
        },
        SolvedValue::SInstance(ir) => ir.name@,
    }
}

/// The first object carrying the id, if any.
pub open spec fn find_obj(objs: Seq<SolvedValue>, oid: u64) -> Option<SolvedValue>
    decreases objs.len(),
{
    if objs.len() == 0 {
        Option::None
    } else if oid_of(objs[0]) == oid {
        Option::Some(objs[0])
    } else {
        find_obj(objs.drop_first(), oid)
    }
}

/// The name path an object-id path resolves to: each leading id must name
/// an instance, whose referenced cell the next id is looked up in; the
/// last id may name any object.  `None` when the path does not resolve.
pub open spec fn path_spec(data: CompiledData, cell: int, ids: Seq<u64>) -> Option<Seq<Seq<char>>>
    decreases ids.len(),
{
    if ids.len() == 0 || !(0 <= cell < data.cells@.len()) {
        Option::None
    } else {
        match find_obj(data.cells@[cell].objects@, ids[0]) {
            Option::None => Option::None,
            Option::Some(o) => if ids.len() == 1 {
                Option::Some(seq![name_of(o)])
            } else {
                match o {
                    SolvedValue::SInstance(ir) => match path_spec(
                        data,
                        ir.cell as int,
                        ids.drop_first(),
                    ) {
                        Option::None => Option::None,
                        Option::Some(rest) => Option::Some(seq![name_of(o)] + rest),
                    },
                    SolvedValue::SRect(_) => Option::None,
                }
            },
        }
    }
}

/// Prefix a resolved tail path with already-collected components.
pub open spec fn opt_prepend(pre: Seq<Seq<char>>, o: Option<Seq<Seq<char>>>) -> Option<
    Seq<Seq<char>>,
> {
    match o {
        Option::None => Option::None,
        Option::Some(rest) => Option::Some(pre + rest),
    }
}

/// Skipping a prefix without the id leaves the lookup unchanged.
proof fn lemma_find_skip(objs: Seq<SolvedValue>, oid: u64, i: int)
    requires
        0 <= i <= objs.len(),
        forall|t: int| 0 <= t < i ==> oid_of(#[trigger] objs[t]) != oid,
    ensures
        find_obj(objs, oid) == find_obj(objs.skip(i), oid),
    decreases i,
{
    if i > 0 {
        assert(objs.len() > 0);
        assert(oid_of(objs[0]) != oid);
        assert(objs.drop_first() =~= objs.skip(1));
        lemma_find_skip(objs.drop_first(), oid, i - 1);
        assert(objs.drop_first().skip(i - 1) =~= objs.skip(i));
    } else {
        assert(objs.skip(0) =~= objs);
    }
}

/// A found object is one of the sequence's members.
proof fn lemma_find_mem(objs: Seq<SolvedValue>, oid: u64)
    requires
        find_obj(objs, oid) is Some,
    ensures
        exists|t: int| 0 <= t < objs.len() && #[trigger] objs[t] == find_obj(objs, oid).unwrap(),
    decreases objs.len(),
{
    if objs.len() > 0 {
        if oid_of(objs[0]) == oid {
        } else {
            lemma_find_mem(objs.drop_first(), oid);
            let t0 = choose|t: int|
                0 <= t < objs.drop_first().len() && #[trigger] objs.drop_first()[t] == find_obj(
                    objs.drop_first(),
                    oid,
                ).unwrap();
            assert(objs[t0 + 1] == objs.drop_first()[t0]);
        }
    }
}

/// The first object of the cell carrying the id.
fn find_first(objs: &Vec<SolvedValue>, oid: u64) -> (r: Option<&SolvedValue>)
    ensures
        match r {
            Option::Some(o) => find_obj(objs@, oid) == Option::Some(*o),
            Option::None => find_obj(objs@, oid) is None,
        },
{
    let n = objs.len();
    let mut i: usize = 0;
    while i < n
        invariant
            i <= n,
            n == objs@.len(),
            forall|t: int| 0 <= t < i ==> oid_of(#[trigger] objs@[t]) != oid,
        decreases n - i,
    {
        let hit = match &objs[i] {
            SolvedValue::SRect(rc) => match &rc.source {
                Some(si) => si.id == oid,
                None => 0 == oid,
            },
            SolvedValue::SInstance(ir) => ir.oid == oid,
        };
        if hit {
            proof {
                lemma_find_skip(objs@, oid, i as int);
                assert(objs@.skip(i as int).drop_first() =~= objs@.skip(i as int + 1));
                assert(objs@.skip(i as int)[0] == objs@[i as int]);
            }
            return Some(&objs[i]);
        }
        i += 1;
    }
    proof {
        lemma_find_skip(objs@, oid, n as int);
        assert(objs@.skip(n as int) =~= Seq::<SolvedValue>::empty());
    }
    None
}

/// Resolve an object-id path through the instance hierarchy to the
/// human-readable name path: each leading id must name an instance in the
/// current cell, the walk descends into the referenced compiled record,
/// and the last id may name any object.  `None` exactly when the path
/// does not resolve.
pub fn object_path(data: &CompiledData, cell: usize, ids: &Vec<u64>) -> (r: Option<Vec<String>>)
    requires
        compiled_wf(*data),
        (cell as int) < data.cells@.len(),
        ids@.len() >= 1,
    ensures
        r is Some <==> path_spec(*data, cell as int, ids@) is Some,
        r is Some ==> {
            let names = path_spec(*data, cell as int, ids@).unwrap();
            &&& r.unwrap()@.len() == ids@.len()
            &&& names.len() == ids@.len()
            &&& forall|k: int| 0 <= k < ids@.len() ==> (#[trigger] r.unwrap()@[k])@ == names[k]
        },
{
    let mut out: Vec<String> = Vec::new();
    let mut cur: usize = cell;
    let n = ids.len();
    let mut k: usize = 0;
    proof {
        assert(ids@.skip(0) =~= ids@);
        assert(out@.map_values(|s: String| s@) =~= Seq::<Seq<char>>::empty());
        let x = path_spec(*data, cell as int, ids@);
        if x is Some {
            assert(Seq::<Seq<char>>::empty() + x.unwrap() =~= x.unwrap());
        }
    }
    while k < n - 1
        invariant
            compiled_wf(*data),
            1 <= n,
            n == ids@.len(),
            k <= n - 1,
            (cur as int) < data.cells@.len(),
            out@.len() == k,
            path_spec(*data, cell as int, ids@) == opt_prepend(
                out@.map_values(|s: String| s@),
                path_spec(*data, cur as int, ids@.skip(k as int)),
            ),
        decreases n - k,
    {
        let ghost pre = out@.map_values(|s: String| s@);
        let ghost tail = ids@.skip(k as int);
        proof {
            assert(tail.len() >= 2);
            assert(tail[0] == ids@[k as int]);
        }
        let o = match find_first(&data.cells[cur].objects, ids[k]) {
            None => {
                return None;
            },
            Some(o) => o,
        };
        match o {
            SolvedValue::SRect(_) => {
                return None;
            },
            SolvedValue::SInstance(ir) => {
                let ghost prev_cur = cur as int;
                out.push(ir.name.clone());
                cur = ir.cell;
                proof {
                    let ghost o_spec = find_obj(
                        data.cells@[prev_cur].objects@,
                        ids@[k as int],
                    ).unwrap();
                    lemma_find_mem(data.cells@[prev_cur].objects@, ids@[k as int]);
                    let t0 = choose|t: int|
                        0 <= t < data.cells@[prev_cur].objects@.len()
                            && #[trigger] data.cells@[prev_cur].objects@[t] == o_spec;
                    assert((ir.cell as int) < prev_cur);
                    assert(name_of(o_spec) == ir.name@);
                    assert(tail.drop_first() =~= ids@.skip(k as int + 1));
                    assert(out@.map_values(|s: String| s@) =~= pre + seq![ir.name@]);
                    let rest = path_spec(*data, cur as int, ids@.skip(k as int + 1));
                    if rest is Some {
                        assert((pre + seq![ir.name@]) + rest.unwrap() =~= pre + (seq![ir.name@]
                            + rest.unwrap()));
                    }
                }
            },
        }
        k += 1;
    }
    // the last id may name any object
    let ghost tail = ids@.skip(k as int);
    proof {
        assert(tail.len() == 1);
        assert(tail[0] == ids@[k as int]);
    }
    let o = match find_first(&data.cells[cur].objects, ids[k]) {
        None => {
            return None;
        },
        Some(o) => o,
    };
    let last_name: String = match o {
        SolvedValue::SRect(rc) => match &rc.layer {
            Some(l) => l.clone(),
            None => String::new(),
        },
        SolvedValue::SInstance(ir) => ir.name.clone(),
    };
    let ghost pre = out@.map_values(|s: String| s@);
    out.push(last_name);
    proof {
        let o_spec = find_obj(data.cells@[cur as int].objects@, ids@[k as int]).unwrap();
        assert(path_spec(*data, cur as int, tail) == Option::Some(seq![name_of(o_spec)]));
        assert(out@.map_values(|s: String| s@) =~= pre + seq![name_of(o_spec)]);
        assert(out@.map_values(|s: String| s@) == path_spec(*data, cell as int, ids@).unwrap());
        assert forall|k2: int| 0 <= k2 < ids@.len() implies (#[trigger] out@[k2])@ == path_spec(
            *data,
            cell as int,
            ids@,
        ).unwrap()[k2] by {
            assert(out@.map_values(|s: String| s@)[k2] == out@[k2]@);
        }
    }
    Some(out)
}

} // verus!
