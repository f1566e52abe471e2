//! Convex collision volumes and the two derived query wedges, with the
//! separating-axis intersection test they are evaluated through.
//!
//! Polygon vertices carry a further per-mille scale on top of the fixed-point
//! coordinates, so that rotating by the per-mille trigonometry stays exact
//! integer arithmetic.
use vstd::prelude::*;

use crate::geometry::{Pose, iabs, spec_norm_angle, normalize_angle, valid_coord, PI_CR, TWO_PI_CR, HALF_PI_CR};

verus! {

/// Largest vertex magnitude the intersection test accepts.
pub const VERT_LIMIT: i128 = 1_000_000_000_000;

/// Largest half width of a unit's body square, in coordinate hundredths.
pub const MAX_HALF_WIDTH: i64 = 10_000;

/// A unit's body volume: a square of the given half width (in coordinate
/// hundredths), centred on and rotated with the unit's pose.
#[derive(Clone, Copy, Debug, PartialEq, Eq, Structural)]
pub struct UnitShape {
    pub half_width: i64,
}

impl UnitShape {
    pub open spec fn valid(self) -> bool {
        0 < self.half_width <= MAX_HALF_WIDTH
    }

    pub fn new(half_width: i64) -> (r: UnitShape)
        ensures
            r == (UnitShape { half_width }),
    {
        UnitShape { half_width }
    }
}

/// Sine in per mille, by the rational approximation that is exact at every
/// quarter turn, for angles in `[0, PI_CR]`.
pub open spec fn spec_sin_half(a: int) -> int {
    let t = a * (PI_CR as int - a);
    16000 * t / (492_980 - 4 * t)
}

/// Sine in per mille of an angle in `[0, TWO_PI_CR)`.
pub open spec fn spec_sin_pm(a: int) -> int {
    if a <= PI_CR as int { spec_sin_half(a) } else { -spec_sin_half(a - PI_CR as int) }
}

/// Cosine in per mille of an angle in `[0, TWO_PI_CR)`.
pub open spec fn spec_cos_pm(a: int) -> int {
    spec_sin_pm((a + HALF_PI_CR as int) % (TWO_PI_CR as int))
}

proof fn lemma_sin_half_bounds(a: int)
    requires
        0 <= a <= PI_CR as int,
    ensures
        0 <= spec_sin_half(a) <= 1000,
{
    let t = a * (PI_CR as int - a);
    assert(0 <= t <= 24_649) by (nonlinear_arith)
        requires 0 <= a <= 314, t == a * (314 - a);
    let den = 492_980 - 4 * t;
    assert(den >= 394_384);
    assert(0 <= 16000 * t);
    vstd::arithmetic::div_mod::lemma_div_pos_is_pos(16000 * t, den);
    assert(16000 * t <= 1000 * den) by (nonlinear_arith)
        requires 0 <= t <= 24_649, den == 492_980 - 4 * t;
    vstd::arithmetic::div_mod::lemma_div_is_ordered(16000 * t, 1000 * den, den);
    vstd::arithmetic::div_mod::lemma_div_multiples_vanish(1000, den);
}

fn sin_half(a: i64) -> (r: i64)
    requires
        0 <= a <= PI_CR,
    ensures
        r == spec_sin_half(a as int),
        0 <= r <= 1000,
{
    proof {
        assert(0 <= a as int * (PI_CR as int - a as int) <= 24_649) by (nonlinear_arith)
            requires 0 <= a <= 314;
        lemma_sin_half_bounds(a as int);
    }
    let t: i64 = a * (PI_CR - a);
    16000 * t / (492_980 - 4 * t)
}

/// Sine in per mille of a normalized angle.
pub fn sin_pm(a: i64) -> (r: i64)
    requires
        0 <= a < TWO_PI_CR,
    ensures
        r == spec_sin_pm(a as int),
        -1000 <= r <= 1000,
{
    if a <= PI_CR {
        sin_half(a)
    } else {
        -sin_half(a - PI_CR)
    }
}

/// Cosine in per mille of a normalized angle.
pub fn cos_pm(a: i64) -> (r: i64)
    requires
        0 <= a < TWO_PI_CR,
    ensures
        r == spec_cos_pm(a as int),
        -1000 <= r <= 1000,
{
    let s: i64 = a + HALF_PI_CR;
    let f: i64 = if s >= TWO_PI_CR { s - TWO_PI_CR } else { s };
    proof {
        if s >= TWO_PI_CR as int {
            vstd::arithmetic::div_mod::lemma_fundamental_div_mod_converse(
                s as int, TWO_PI_CR as int, 1, f as int);
        } else {
            vstd::arithmetic::div_mod::lemma_fundamental_div_mod_converse(
                s as int, TWO_PI_CR as int, 0, f as int);
        }
    }
    sin_pm(f)
}

/// A vertex within the intersection test's machine limit.
pub open spec fn vert_ok(p: (i128, i128)) -> bool {
    iabs(p.0 as int) <= VERT_LIMIT as int && iabs(p.1 as int) <= VERT_LIMIT as int
}

pub open spec fn poly_ok(p: Seq<(i128, i128)>) -> bool {
    forall|i: int| 0 <= i < p.len() ==> #[trigger] vert_ok(p[i])
}

/// Projection of a vertex onto an axis.
pub open spec fn spec_proj(v: (i128, i128), axis: (i128, i128)) -> int {
    v.0 as int * axis.0 as int + v.1 as int * axis.1 as int
}

/// Least projection of the first `n` vertices onto an axis.
pub open spec fn spec_min_proj(p: Seq<(i128, i128)>, axis: (i128, i128), n: int) -> int
    decreases n,
{
    if n <= 1 {
        spec_proj(p[0], axis)
    } else {
        let m = spec_min_proj(p, axis, n - 1);
        let q = spec_proj(p[n - 1], axis);
        if q < m { q } else { m }
    }
}

/// Greatest projection of the first `n` vertices onto an axis.
pub open spec fn spec_max_proj(p: Seq<(i128, i128)>, axis: (i128, i128), n: int) -> int
    decreases n,
{
    if n <= 1 {
        spec_proj(p[0], axis)
    } else {
        let m = spec_max_proj(p, axis, n - 1);
        let q = spec_proj(p[n - 1], axis);
        if q > m { q } else { m }
    }
}

/// Whether the projections of two polygons onto an axis are disjoint.
pub open spec fn spec_sep_axis(a: Seq<(i128, i128)>, b: Seq<(i128, i128)>, axis: (i128, i128)) -> bool {
    spec_max_proj(a, axis, a.len() as int) < spec_min_proj(b, axis, b.len() as int)
    || spec_max_proj(b, axis, b.len() as int) < spec_min_proj(a, axis, a.len() as int)
}

/// The outward axis of the polygon edge leaving vertex `i`.
pub open spec fn spec_edge_axis(p: Seq<(i128, i128)>, i: int) -> (i128, i128) {
    let u = p[i];
    let v = p[if i + 1 == p.len() { 0int } else { i + 1 }];
    (((u.1 as int - v.1 as int) as i128), ((v.0 as int - u.0 as int) as i128))
}

/// Whether some edge of `p` yields an axis separating `a` from `b`.
pub open spec fn spec_has_sep(a: Seq<(i128, i128)>, b: Seq<(i128, i128)>, p: Seq<(i128, i128)>) -> bool {
    exists|i: int| 0 <= i < p.len() && spec_sep_axis(a, b, #[trigger] spec_edge_axis(p, i))
}

/// Separating-axis intersection of two non-empty convex polygons: they
/// intersect exactly when no edge axis of either separates them.
pub open spec fn spec_polys_intersect(a: Seq<(i128, i128)>, b: Seq<(i128, i128)>) -> bool {
    a.len() > 0 && b.len() > 0 && !spec_has_sep(a, b, a) && !spec_has_sep(a, b, b)
}

/// Intersection is symmetric: every axis test compares the same two
/// projection intervals whichever polygon supplied the axis.
pub proof fn lemma_polys_intersect_symmetric(a: Seq<(i128, i128)>, b: Seq<(i128, i128)>)
    ensures
        spec_polys_intersect(a, b) == spec_polys_intersect(b, a),
{
    assert forall|p: Seq<(i128, i128)>| #[trigger] spec_has_sep(a, b, p) == spec_has_sep(b, a, p) by {
        assert forall|i: int| 0 <= i < p.len() implies
            spec_sep_axis(a, b, #[trigger] spec_edge_axis(p, i))
                == spec_sep_axis(b, a, spec_edge_axis(p, i)) by {}
    }
}

fn proj(v: (i128, i128), axis: (i128, i128)) -> (r: i128)
    requires
        vert_ok(v),
        iabs(axis.0 as int) <= 2 * VERT_LIMIT as int,
        iabs(axis.1 as int) <= 2 * VERT_LIMIT as int,
    ensures
        r == spec_proj(v, axis),
        iabs(r as int) <= 4_000_000_000_000_000_000_000_000,
{
    proof {
        assert(iabs(v.0 as int * axis.0 as int) <= 2_000_000_000_000_000_000_000_000)
            by (nonlinear_arith)
            requires iabs(v.0 as int) <= 1_000_000_000_000int, iabs(axis.0 as int) <= 2_000_000_000_000int;
        assert(iabs(v.1 as int * axis.1 as int) <= 2_000_000_000_000_000_000_000_000)
            by (nonlinear_arith)
            requires iabs(v.1 as int) <= 1_000_000_000_000int, iabs(axis.1 as int) <= 2_000_000_000_000int;
    }
    v.0 * axis.0 + v.1 * axis.1
}

fn min_proj(p: &Vec<(i128, i128)>, axis: (i128, i128)) -> (r: i128)
    requires
        p@.len() > 0,
        poly_ok(p@),
        iabs(axis.0 as int) <= 2 * VERT_LIMIT as int,
        iabs(axis.1 as int) <= 2 * VERT_LIMIT as int,
    ensures
        r == spec_min_proj(p@, axis, p@.len() as int),
{
    let mut m = proj(p[0], axis);
    let mut i: usize = 1;
    while i < p.len()
        invariant
            1 <= i <= p@.len(),
            poly_ok(p@),
            iabs(axis.0 as int) <= 2 * VERT_LIMIT as int,
            iabs(axis.1 as int) <= 2 * VERT_LIMIT as int,
            m == spec_min_proj(p@, axis, i as int),
        decreases p@.len() - i,
    {
        let q = proj(p[i], axis);
        if q < m {
            m = q;
        }
        i = i + 1;
    }
    m
}

fn max_proj(p: &Vec<(i128, i128)>, axis: (i128, i128)) -> (r: i128)
    requires
        p@.len() > 0,
        poly_ok(p@),
        iabs(axis.0 as int) <= 2 * VERT_LIMIT as int,
        iabs(axis.1 as int) <= 2 * VERT_LIMIT as int,
    ensures
        r == spec_max_proj(p@, axis, p@.len() as int),
{
    let mut m = proj(p[0], axis);
    let mut i: usize = 1;
    while i < p.len()
        invariant
            1 <= i <= p@.len(),
            poly_ok(p@),
            iabs(axis.0 as int) <= 2 * VERT_LIMIT as int,
            iabs(axis.1 as int) <= 2 * VERT_LIMIT as int,
            m == spec_max_proj(p@, axis, i as int),
        decreases p@.len() - i,
    {
        let q = proj(p[i], axis);
        if q > m {
            m = q;
        }
        i = i + 1;
    }
    m
}

fn has_sep(a: &Vec<(i128, i128)>, b: &Vec<(i128, i128)>, p: &Vec<(i128, i128)>) -> (r: bool)
    requires
        a@.len() > 0,
        b@.len() > 0,
        poly_ok(a@),
        poly_ok(b@),
        poly_ok(p@),
    ensures
        r == spec_has_sep(a@, b@, p@),
{
    let mut i: usize = 0;
    while i < p.len()
        invariant
            0 <= i <= p@.len(),
            a@.len() > 0,
            b@.len() > 0,
            poly_ok(a@),
            poly_ok(b@),
            poly_ok(p@),
            forall|j: int| 0 <= j < i ==> !spec_sep_axis(a@, b@, #[trigger] spec_edge_axis(p@, j)),
        decreases p@.len() - i,
    {
        let u = p[i];
        proof {
            assert(vert_ok(p@[i as int]));
            assert(vert_ok(p@[0]));
            if i + 1 < p@.len() {
                assert(vert_ok(p@[i as int + 1]));
            }
        }
        let v = if i + 1 == p.len() { p[0] } else { p[i + 1] };
        let axis: (i128, i128) = (u.1 - v.1, v.0 - u.0);
        proof {
            assert(axis == spec_edge_axis(p@, i as int));
        }
        if max_proj(a, axis) < min_proj(b, axis) || max_proj(b, axis) < min_proj(a, axis) {
            proof {
                assert(spec_sep_axis(a@, b@, spec_edge_axis(p@, i as int)));
            }
            return true;
        }
        i = i + 1;
    }
    false
}

/// Whether two non-empty convex polygons intersect, by the separating-axis
/// test over the edge axes of both.
pub fn polys_intersect(a: &Vec<(i128, i128)>, b: &Vec<(i128, i128)>) -> (r: bool)
    requires
        poly_ok(a@),
        poly_ok(b@),
    ensures
        r == spec_polys_intersect(a@, b@),
{
    if a.len() == 0 || b.len() == 0 {
        return false;
    }
    if has_sep(a, b, a) {
        return false;
    }
    if has_sep(a, b, b) {
        return false;
    }
    true
}

/// Local x extent of the field-of-view wedge, in coordinate hundredths.
pub const FOV_REACH: i64 = 20_000;
/// Local half height of the field-of-view wedge.
pub const FOV_SPREAD: i64 = 15_000;
/// Local x extent of the weapon-range wedge.
pub const RANGE_REACH: i64 = 12_000;
/// Local half height of the weapon-range wedge.
pub const RANGE_SPREAD: i64 = 2_000;

/// Sine (per mille) of a pose's normalized heading.
pub open spec fn spec_pose_sin(p: Pose) -> int {
    spec_sin_pm(spec_norm_angle(p.rotation as int))
}

/// Cosine (per mille) of a pose's normalized heading.
pub open spec fn spec_pose_cos(p: Pose) -> int {
    spec_cos_pm(spec_norm_angle(p.rotation as int))
}

/// Where the local point `(xl, yl)` of a shape sits in the world, in
/// per-mille-scaled world coordinates: the pose's position plus the local
/// point rotated so that the shape's nose (local positive x) points along
/// the heading.
pub open spec fn spec_world_point(p: Pose, xl: int, yl: int) -> (i128, i128) {
    (
        ((p.x as int * 1000 + xl * spec_pose_sin(p) + yl * spec_pose_cos(p)) as i128),
        ((p.y as int * 1000 - xl * spec_pose_cos(p) + yl * spec_pose_sin(p)) as i128),
    )
}

/// The four corners of a pose's body square of half width `hw`.
pub open spec fn spec_body_poly(p: Pose, hw: int) -> Seq<(i128, i128)> {
    seq![
        spec_world_point(p, hw, hw),
        spec_world_point(p, -hw, hw),
        spec_world_point(p, -hw, -hw),
        spec_world_point(p, hw, -hw),
    ]
}

/// The field-of-view wedge of a pose: a triangle opening along the heading.
pub open spec fn spec_fov_poly(p: Pose) -> Seq<(i128, i128)> {
    seq![
        spec_world_point(p, 0, 0),
        spec_world_point(p, FOV_REACH as int, FOV_SPREAD as int),
        spec_world_point(p, FOV_REACH as int, -(FOV_SPREAD as int)),
    ]
}

/// The weapon-range wedge of a pose: a narrower, shorter triangle.
pub open spec fn spec_range_poly(p: Pose) -> Seq<(i128, i128)> {
    seq![
        spec_world_point(p, 0, 0),
        spec_world_point(p, RANGE_REACH as int, RANGE_SPREAD as int),
        spec_world_point(p, RANGE_REACH as int, -(RANGE_SPREAD as int)),
    ]
}

/// A point of the world as a one-vertex polygon.
pub open spec fn spec_point_poly(x: int, y: int) -> Seq<(i128, i128)> {
    seq![(((x * 1000) as i128), ((y * 1000) as i128))]
}

fn world_point(p: &Pose, s: i64, c: i64, xl: i64, yl: i64) -> (r: (i128, i128))
    requires
        p.valid(),
        s == spec_pose_sin(*p),
        c == spec_pose_cos(*p),
        -1000 <= s <= 1000,
        -1000 <= c <= 1000,
        -30_000 <= xl <= 30_000,
        -30_000 <= yl <= 30_000,
    ensures
        r == spec_world_point(*p, xl as int, yl as int),
        vert_ok(r),
{
    proof {
        assert(iabs(xl as int * s as int) <= 30_000_000) by (nonlinear_arith)
            requires -30_000 <= xl <= 30_000, -1000 <= s <= 1000;
        assert(iabs(xl as int * c as int) <= 30_000_000) by (nonlinear_arith)
            requires -30_000 <= xl <= 30_000, -1000 <= c <= 1000;
        assert(iabs(yl as int * s as int) <= 30_000_000) by (nonlinear_arith)
            requires -30_000 <= yl <= 30_000, -1000 <= s <= 1000;
        assert(iabs(yl as int * c as int) <= 30_000_000) by (nonlinear_arith)
            requires -30_000 <= yl <= 30_000, -1000 <= c <= 1000;
    }
    let wx: i128 = p.x as i128 * 1000 + xl as i128 * s as i128 + yl as i128 * c as i128;
    let wy: i128 = p.y as i128 * 1000 - xl as i128 * c as i128 + yl as i128 * s as i128;
    (wx, wy)
}

/// The world-space body square of a pose and body shape.
pub fn body_poly(p: &Pose, shape: &UnitShape) -> (r: Vec<(i128, i128)>)
    requires
        p.valid(),
        p.rotation > i64::MIN,
        shape.valid(),
    ensures
        r@ == spec_body_poly(*p, shape.half_width as int),
        poly_ok(r@),
        r@.len() == 4,
{
    let rot = normalize_angle(p.rotation);
    let s = sin_pm(rot);
    let c = cos_pm(rot);
    let hw = shape.half_width;
    let mut v: Vec<(i128, i128)> = Vec::new();
    v.push(world_point(p, s, c, hw, hw));
    v.push(world_point(p, s, c, -hw, hw));
    v.push(world_point(p, s, c, -hw, -hw));
    v.push(world_point(p, s, c, hw, -hw));
    proof {
        assert(v@ =~= spec_body_poly(*p, shape.half_width as int));
    }
    v
}

/// The world-space field-of-view wedge of a pose.
pub fn fov_poly(p: &Pose) -> (r: Vec<(i128, i128)>)
    requires
        p.valid(),
        p.rotation > i64::MIN,
    ensures
        r@ == spec_fov_poly(*p),
        poly_ok(r@),
        r@.len() == 3,
{
    let rot = normalize_angle(p.rotation);
    let s = sin_pm(rot);
    let c = cos_pm(rot);
    let mut v: Vec<(i128, i128)> = Vec::new();
    v.push(world_point(p, s, c, 0, 0));
    v.push(world_point(p, s, c, FOV_REACH, FOV_SPREAD));
    v.push(world_point(p, s, c, FOV_REACH, -FOV_SPREAD));
    proof {
        assert(v@ =~= spec_fov_poly(*p));
    }
    v
}

/// The world-space weapon-range wedge of a pose.
pub fn range_poly(p: &Pose) -> (r: Vec<(i128, i128)>)
    requires
        p.valid(),
        p.rotation > i64::MIN,
    ensures
        r@ == spec_range_poly(*p),
        poly_ok(r@),
        r@.len() == 3,
{
    let rot = normalize_angle(p.rotation);
    let s = sin_pm(rot);
    let c = cos_pm(rot);
    let mut v: Vec<(i128, i128)> = Vec::new();
    v.push(world_point(p, s, c, 0, 0));
    v.push(world_point(p, s, c, RANGE_REACH, RANGE_SPREAD));
    v.push(world_point(p, s, c, RANGE_REACH, -RANGE_SPREAD));
    proof {
        assert(v@ =~= spec_range_poly(*p));
    }
    v
}

/// A world point as a one-vertex polygon, for point-in-wedge queries.
pub fn point_poly(x: i64, y: i64) -> (r: Vec<(i128, i128)>)
    requires
        valid_coord(x as int),
        valid_coord(y as int),
    ensures
        r@ == spec_point_poly(x as int, y as int),
        poly_ok(r@),
        r@.len() == 1,
{
    let mut v: Vec<(i128, i128)> = Vec::new();
    v.push((x as i128 * 1000, y as i128 * 1000));
    proof {
        assert(v@ =~= spec_point_poly(x as int, y as int));
    }
    v
}

} // verus!
