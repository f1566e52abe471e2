//! Pose and the motion primitives: straight-line movement with a
//! proportional per-axis split, and bounded rotation towards a bearing.
//!
//! Coordinates are `i64` hundredths of a world unit; angles are `i64`
//! hundredths of a radian, normalized into `[0, TWO_PI_CR)` by comparisons.
use vstd::prelude::*;

verus! {

/// A full turn, in hundredths of a radian.
pub const TWO_PI_CR: i64 = 628;
/// Half a turn.
pub const PI_CR: i64 = 314;
/// A quarter turn.
pub const HALF_PI_CR: i64 = 157;

/// Largest coordinate magnitude the geometry accepts; a machine limit that
/// keeps every product of the fixed-point arithmetic inside its integer type.
pub const COORD_MAX: i64 = 100_000_000;
/// Largest per-tick travel distance accepted by `move_towards`.
pub const DIST_MAX: i64 = 100_000_000;

pub open spec fn valid_coord(c: int) -> bool {
    -(COORD_MAX as int) <= c <= COORD_MAX as int
}

/// Position plus heading. Replaced wholesale each tick; never mutated in place.
#[derive(Clone, Copy, Debug, PartialEq, Eq, Structural)]
pub struct Pose {
    pub x: i64,
    pub y: i64,
    pub rotation: i64,
}

/// Absolute value over `int`.
pub open spec fn iabs(x: int) -> int {
    if x < 0 { -x } else { x }
}

/// Combined per-axis (L1) distance from a pose to a target point.
pub open spec fn l1_dist(p: Pose, x: int, y: int) -> int {
    iabs(x - p.x as int) + iabs(y - p.y as int)
}

/// The open box around the target within which `move_towards` snaps exactly.
pub open spec fn in_snap_box(px: int, py: int, x: int, y: int, dist: int) -> bool {
    x < px + dist && x > px - dist && y < py + dist && y > py - dist
}

/// Signed movement along one axis: `dist` split proportionally by the two
/// remaining per-axis distances, truncated towards zero.
pub open spec fn axis_delta(cur: int, target: int, dist: int, this_dist: int, total: int) -> int {
    if target > cur {
        dist * this_dist / total
    } else if target < cur {
        -(dist * this_dist / total)
    } else {
        0
    }
}

/// Where a pose ends up after moving at most `dist` towards `(x, y)`:
/// snaps inside the snap box, otherwise splits `dist` across the axes in
/// proportion to the remaining per-axis distances, so that both axes reach
/// zero together.
pub open spec fn spec_move_towards(p: Pose, x: int, y: int, dist: int) -> (int, int) {
    if in_snap_box(p.x as int, p.y as int, x, y, dist) {
        (x, y)
    } else {
        let xdist = iabs(x - p.x as int);
        let ydist = iabs(y - p.y as int);
        if xdist + ydist == 0 {
            (p.x as int, p.y as int)
        } else {
            (
                p.x as int + axis_delta(p.x as int, x, dist, xdist, xdist + ydist),
                p.y as int + axis_delta(p.y as int, y, dist, ydist, xdist + ydist),
            )
        }
    }
}

impl Pose {
    pub open spec fn valid(self) -> bool {
        valid_coord(self.x as int) && valid_coord(self.y as int)
    }

    pub fn new(x: i64, y: i64, rotation: i64) -> (r: Pose)
        ensures
            r == (Pose { x, y, rotation }),
    {
        Pose { x, y, rotation }
    }

    /// Moves along the straight line to `(x, y)`, splitting `dist`
    /// proportionally across the axes; snaps exactly to the target when both
    /// axis distances are within `dist`. The heading is unchanged.
    pub fn move_towards(&self, x: i64, y: i64, dist: i64) -> (r: Pose)
        requires
            self.valid(),
            valid_coord(x as int),
            valid_coord(y as int),
            0 <= dist <= DIST_MAX,
        ensures
            (r.x as int, r.y as int) == spec_move_towards(*self, x as int, y as int, dist as int),
            r.rotation == self.rotation,
            r.valid(),
    {
        if x < self.x + dist && x > self.x - dist && y < self.y + dist && y > self.y - dist {
            return Pose { x, y, rotation: self.rotation };
        }

        let xdist: i64 = if x >= self.x { x - self.x } else { self.x - x };
        let ydist: i64 = if y >= self.y { y - self.y } else { self.y - y };
        let total: i64 = xdist + ydist;
        if total == 0 {
            return Pose { x: self.x, y: self.y, rotation: self.rotation };
        }

        proof {
            assert(0 <= dist as int * xdist as int <= 100_000_000int * 400_000_000int)
                by (nonlinear_arith)
                requires 0 <= dist <= 100_000_000, 0 <= xdist <= 400_000_000;
            assert(0 <= dist as int * ydist as int <= 100_000_000int * 400_000_000int)
                by (nonlinear_arith)
                requires 0 <= dist <= 100_000_000, 0 <= ydist <= 400_000_000;
        }
        let xstep: i64 = dist * xdist / total;
        let ystep: i64 = dist * ydist / total;
        proof {
            lemma_axis_step_bounded(dist as int, xdist as int, total as int);
            lemma_axis_step_bounded(dist as int, ydist as int, total as int);
        }
        let xdelta: i64 = if x > self.x { xstep } else if x < self.x { -xstep } else { 0 };
        let ydelta: i64 = if y > self.y { ystep } else if y < self.y { -ystep } else { 0 };

        Pose { x: self.x + xdelta, y: self.y + ydelta, rotation: self.rotation }
    }
}

/// The scene's height, in coordinate hundredths, used when a pose is drawn.
pub const SCENE_HEIGHT: i64 = 80_000;

impl Pose {
    /// The pose as a renderer draws it: the drawing plane's y axis points
    /// down, so y is flipped across the scene height and the heading negated.
    pub fn render_pose(&self) -> (r: (i64, i64, i64))
        requires
            self.valid(),
            self.rotation > i64::MIN,
        ensures
            r.0 == self.x,
            r.1 == SCENE_HEIGHT - self.y,
            r.2 == -self.rotation,
    {
        (self.x, SCENE_HEIGHT - self.y, -self.rotation)
    }
}

/// Termination of repeated movement: one `move_towards` step towards a target
/// not yet reached never lengthens either axis distance, strictly shrinks both
/// the combined (L1) and the squared Euclidean distance, and — short of the
/// final snap — shrinks the combined distance by at least `dist - 1`. With
/// `dist >= 2` the target is therefore reached exactly within a bounded
/// number of ticks.
pub proof fn lemma_move_towards_progress(p: Pose, x: int, y: int, dist: int)
    requires
        p.valid(),
        valid_coord(x),
        valid_coord(y),
        2 <= dist <= DIST_MAX as int,
        !(p.x as int == x && p.y as int == y),
    ensures
        ({
            let (nx, ny) = spec_move_towards(p, x, y, dist);
            &&& iabs(x - nx) <= iabs(x - p.x as int)
            &&& iabs(y - ny) <= iabs(y - p.y as int)
            &&& iabs(x - nx) + iabs(y - ny) < l1_dist(p, x, y)
            &&& (x - nx) * (x - nx) + (y - ny) * (y - ny)
                < (x - p.x as int) * (x - p.x as int) + (y - p.y as int) * (y - p.y as int)
            &&& !in_snap_box(p.x as int, p.y as int, x, y, dist)
                ==> iabs(x - nx) + iabs(y - ny) <= l1_dist(p, x, y) - (dist - 1)
        }),
{
    let (nx, ny) = spec_move_towards(p, x, y, dist);
    let xdist = iabs(x - p.x as int);
    let ydist = iabs(y - p.y as int);
    let total = xdist + ydist;
    if in_snap_box(p.x as int, p.y as int, x, y, dist) {
        assert(nx == x && ny == y);
        assert(xdist > 0 || ydist > 0);
        assert(xdist * xdist + ydist * ydist > 0) by (nonlinear_arith)
            requires 0 <= xdist, 0 <= ydist, xdist > 0 || ydist > 0;
        assert((x - p.x as int) * (x - p.x as int) == xdist * xdist) by (nonlinear_arith)
            requires xdist == x - p.x as int || xdist == p.x as int - x;
        assert((y - p.y as int) * (y - p.y as int) == ydist * ydist) by (nonlinear_arith)
            requires ydist == y - p.y as int || ydist == p.y as int - y;
    } else {
        assert(dist <= total);
        let xstep = dist * xdist / total;
        let ystep = dist * ydist / total;
        lemma_axis_step_bounded(dist, xdist, total);
        lemma_axis_step_bounded(dist, ydist, total);
        assert(iabs(x - nx) == xdist - xstep);
        assert(iabs(y - ny) == ydist - ystep);
        vstd::arithmetic::div_mod::lemma_fundamental_div_mod(dist * xdist, total);
        vstd::arithmetic::div_mod::lemma_fundamental_div_mod(dist * ydist, total);
        vstd::arithmetic::div_mod::lemma_mod_bound(dist * xdist, total);
        vstd::arithmetic::div_mod::lemma_mod_bound(dist * ydist, total);
        let r1 = (dist * xdist) % total;
        let r2 = (dist * ydist) % total;
        assert(dist * xdist + dist * ydist == dist * total) by (nonlinear_arith)
            requires total == xdist + ydist;
        assert(total * xstep + total * ystep + r1 + r2 == total * dist) by (nonlinear_arith)
            requires
                dist * xdist == total * xstep + r1,
                dist * ydist == total * ystep + r2,
                dist * xdist + dist * ydist == dist * total,
        ;
        assert(r1 + r2 == total * (dist - xstep - ystep)) by (nonlinear_arith)
            requires total * xstep + total * ystep + r1 + r2 == total * dist;
        // The two remainders sum to a multiple of `total` below `2 * total`,
        // so the steps together cover all of `dist` but at most one count.
        assert(dist - xstep - ystep <= 1) by (nonlinear_arith)
            requires
                r1 + r2 == total * (dist - xstep - ystep),
                0 <= r1 < total,
                0 <= r2 < total,
                0 < total,
        ;
        assert(xstep + ystep >= dist - 1);
        // Squared Euclidean distance shrinks because no axis grows and one
        // strictly shrinks.
        let a = xdist;
        let b = ydist;
        let a2 = xdist - xstep;
        let b2 = ydist - ystep;
        assert(a2 * a2 <= a * a) by (nonlinear_arith)
            requires 0 <= a2 <= a;
        assert(b2 * b2 <= b * b) by (nonlinear_arith)
            requires 0 <= b2 <= b;
        if xstep > 0 {
            assert(a2 * a2 < a * a) by (nonlinear_arith)
                requires 0 <= a2 < a;
        } else {
            assert(b2 * b2 < b * b) by (nonlinear_arith)
                requires 0 <= b2 < b;
        }
        assert((x - nx) * (x - nx) == a2 * a2) by (nonlinear_arith)
            requires a2 == x - nx || a2 == nx - x;
        assert((y - ny) * (y - ny) == b2 * b2) by (nonlinear_arith)
            requires b2 == y - ny || b2 == ny - y;
        assert((x - p.x as int) * (x - p.x as int) == a * a) by (nonlinear_arith)
            requires a == x - p.x as int || a == p.x as int - x;
        assert((y - p.y as int) * (y - p.y as int) == b * b) by (nonlinear_arith)
            requires b == y - p.y as int || b == p.y as int - y;
    }
}

/// An angle folded into `[0, TWO_PI_CR)`.
pub open spec fn spec_norm_angle(a: int) -> int {
    a % (TWO_PI_CR as int)
}

/// The counter-clockwise offset from `from` to `to`, in `[0, TWO_PI_CR)`.
pub open spec fn spec_ang_delta(from: int, to: int) -> int {
    (to - from) % (TWO_PI_CR as int)
}

/// The shorter angular distance between two headings, in `[0, PI_CR]`.
pub open spec fn spec_ang_dist(a: int, b: int) -> int {
    let d = spec_ang_delta(a, b);
    if d <= PI_CR as int { d } else { TWO_PI_CR as int - d }
}

/// Folds any angle into `[0, TWO_PI_CR)`.
pub fn normalize_angle(a: i64) -> (r: i64)
    requires
        a > i64::MIN,
    ensures
        r == spec_norm_angle(a as int),
        0 <= r < TWO_PI_CR,
{
    if a >= 0 {
        let r = a % TWO_PI_CR;
        proof {
            vstd::arithmetic::div_mod::lemma_fundamental_div_mod(a as int, TWO_PI_CR as int);
        }
        r
    } else {
        let m = (-a) % TWO_PI_CR;
        proof {
            vstd::arithmetic::div_mod::lemma_fundamental_div_mod(-a as int, TWO_PI_CR as int);
            let q = (-a as int) / (TWO_PI_CR as int);
            if m == 0 {
                vstd::arithmetic::div_mod::lemma_fundamental_div_mod_converse(
                    a as int, TWO_PI_CR as int, -q, 0);
            } else {
                vstd::arithmetic::div_mod::lemma_fundamental_div_mod_converse(
                    a as int, TWO_PI_CR as int, -q - 1, TWO_PI_CR as int - m);
            }
        }
        if m == 0 { 0 } else { TWO_PI_CR - m }
    }
}

/// One bounded rotation step: snaps to `dest` when it is within `max_delta`,
/// otherwise advances `max_delta` in the direction of the shorter angular
/// distance. The contract pins the step down exactly: the heading changes by
/// at most `max_delta`, the angular distance to `dest` drops by exactly
/// `max_delta` (to zero at the snap), and the result lies in `[0, TWO_PI_CR)`.
pub fn rotate_step(curr: i64, dest: i64, max_delta: i64) -> (r: i64)
    requires
        0 <= curr < TWO_PI_CR,
        0 <= dest < TWO_PI_CR,
        0 <= max_delta <= 1_000_000,
    ensures
        r == spec_rotate_step(curr as int, dest as int, max_delta as int),
        0 <= r < TWO_PI_CR,
        spec_ang_dist(curr as int, r as int) <= max_delta,
        spec_ang_dist(r as int, dest as int)
            == if spec_ang_dist(curr as int, dest as int) <= max_delta { 0 }
               else { spec_ang_dist(curr as int, dest as int) - max_delta },
{
    let wraw: i64 = dest - curr;
    let w: i64 = if wraw < 0 { wraw + TWO_PI_CR } else { wraw };
    proof {
        if wraw < 0 {
            vstd::arithmetic::div_mod::lemma_fundamental_div_mod_converse(
                wraw as int, TWO_PI_CR as int, -1, wraw + TWO_PI_CR as int);
        } else {
            vstd::arithmetic::div_mod::lemma_fundamental_div_mod_converse(
                wraw as int, TWO_PI_CR as int, 0, wraw as int);
        }
    }
    let d: i64 = if w <= PI_CR { w } else { TWO_PI_CR - w };
    proof {
        lemma_ang_delta_self(curr as int, dest as int, w as int);
    }
    if d <= max_delta {
        return dest;
    }
    if w < PI_CR {
        let s = curr + max_delta;
        let r = if s >= TWO_PI_CR { s - TWO_PI_CR } else { s };
        proof {
            lemma_rotate_step_ccw(curr as int, dest as int, max_delta as int, w as int, r as int);
        }
        r
    } else {
        let s = curr - max_delta;
        let r = if s < 0 { s + TWO_PI_CR } else { s };
        proof {
            lemma_rotate_step_cw(curr as int, dest as int, max_delta as int, w as int, r as int);
        }
        r
    }
}

/// What `rotate_step` returns.
pub open spec fn spec_rotate_step(curr: int, dest: int, max_delta: int) -> int {
    if spec_ang_dist(curr, dest) <= max_delta {
        dest
    } else if spec_ang_delta(curr, dest) < PI_CR as int {
        spec_norm_angle(curr + max_delta)
    } else {
        spec_norm_angle(curr - max_delta)
    }
}

proof fn lemma_ang_delta_self(curr: int, dest: int, w: int)
    requires
        0 <= curr < TWO_PI_CR as int,
        0 <= dest < TWO_PI_CR as int,
        0 <= w < TWO_PI_CR as int,
        w == (dest - curr) % (TWO_PI_CR as int),
    ensures
        spec_ang_delta(curr, dest) == w,
        spec_ang_delta(curr, curr) == 0,
        spec_ang_dist(curr, curr) == 0,
        spec_ang_dist(curr, dest) == if w <= PI_CR as int { w } else { TWO_PI_CR as int - w },
{
    vstd::arithmetic::div_mod::lemma_fundamental_div_mod_converse(0, TWO_PI_CR as int, 0, 0);
}

proof fn lemma_rotate_step_ccw(curr: int, dest: int, max_delta: int, w: int, r: int)
    requires
        0 <= curr < TWO_PI_CR as int,
        0 <= dest < TWO_PI_CR as int,
        0 <= max_delta,
        w == spec_ang_delta(curr, dest),
        0 < w < PI_CR as int,
        max_delta < w,
        r == if curr + max_delta >= TWO_PI_CR as int { curr + max_delta - TWO_PI_CR as int }
             else { curr + max_delta },
    ensures
        r == spec_rotate_step(curr, dest, max_delta),
        0 <= r < TWO_PI_CR as int,
        spec_ang_dist(curr, r) <= max_delta,
        spec_ang_dist(r, dest) == spec_ang_dist(curr, dest) - max_delta,
{
    let two_pi = TWO_PI_CR as int;
    // r is curr + max_delta, folded.
    if curr + max_delta >= two_pi {
        vstd::arithmetic::div_mod::lemma_fundamental_div_mod_converse(
            curr + max_delta, two_pi, 1, r);
    } else {
        vstd::arithmetic::div_mod::lemma_fundamental_div_mod_converse(
            curr + max_delta, two_pi, 0, r);
    }
    assert(r == spec_norm_angle(curr + max_delta));
    // Offset from curr to r is exactly max_delta.
    if r - curr >= 0 {
        vstd::arithmetic::div_mod::lemma_fundamental_div_mod_converse(
            r - curr, two_pi, 0, max_delta);
    } else {
        vstd::arithmetic::div_mod::lemma_fundamental_div_mod_converse(
            r - curr, two_pi, -1, max_delta);
    }
    assert(spec_ang_delta(curr, r) == max_delta);
    // Offset from r to dest is what remains of w.
    if dest - r >= 0 {
        vstd::arithmetic::div_mod::lemma_fundamental_div_mod_converse(
            dest - r, two_pi, 0, w - max_delta);
    } else {
        vstd::arithmetic::div_mod::lemma_fundamental_div_mod_converse(
            dest - r, two_pi, -1, w - max_delta);
    }
    assert(spec_ang_delta(r, dest) == w - max_delta);
}

proof fn lemma_rotate_step_cw(curr: int, dest: int, max_delta: int, w: int, r: int)
    requires
        0 <= curr < TWO_PI_CR as int,
        0 <= dest < TWO_PI_CR as int,
        0 <= max_delta,
        w == spec_ang_delta(curr, dest),
        PI_CR as int <= w < TWO_PI_CR as int,
        max_delta < TWO_PI_CR as int - w,
        r == if curr - max_delta < 0 { curr - max_delta + TWO_PI_CR as int }
             else { curr - max_delta },
    ensures
        r == spec_rotate_step(curr, dest, max_delta),
        0 <= r < TWO_PI_CR as int,
        spec_ang_dist(curr, r) <= max_delta,
        spec_ang_dist(r, dest) == spec_ang_dist(curr, dest) - max_delta,
{
    let two_pi = TWO_PI_CR as int;
    if curr - max_delta < 0 {
        vstd::arithmetic::div_mod::lemma_fundamental_div_mod_converse(
            curr - max_delta, two_pi, -1, r);
    } else {
        vstd::arithmetic::div_mod::lemma_fundamental_div_mod_converse(
            curr - max_delta, two_pi, 0, r);
    }
    assert(r == spec_norm_angle(curr - max_delta));
    // Offset from curr to r wraps all the way round, less max_delta.
    if max_delta == 0 {
        vstd::arithmetic::div_mod::lemma_fundamental_div_mod_converse(
            r - curr, two_pi, 0, 0);
    } else if r - curr >= 0 {
        vstd::arithmetic::div_mod::lemma_fundamental_div_mod_converse(
            r - curr, two_pi, 0, two_pi - max_delta);
    } else {
        vstd::arithmetic::div_mod::lemma_fundamental_div_mod_converse(
            r - curr, two_pi, -1, two_pi - max_delta);
    }
    // Offset from r to dest grows by max_delta.
    if dest - r >= 0 {
        vstd::arithmetic::div_mod::lemma_fundamental_div_mod_converse(
            dest - r, two_pi, 0, w + max_delta);
    } else {
        vstd::arithmetic::div_mod::lemma_fundamental_div_mod_converse(
            dest - r, two_pi, -1, w + max_delta);
    }
    assert(spec_ang_delta(r, dest) == w + max_delta);
}

/// First-octant arctangent approximation: `atan(n / d)` in hundredths of a
/// radian, for `0 <= n <= d`.
pub open spec fn spec_atan_core(n: int, d: int) -> int {
    let z = n * 1000 / d;
    (z * 785 + 273 * z * (1000 - z) / 1000) / 10000
}

/// First-quadrant angle of the direction `(ax, ay)`, both non-negative,
/// in `[0, HALF_PI_CR]`.
pub open spec fn spec_first_quadrant(ax: int, ay: int) -> int {
    if ay <= ax {
        if ax == 0 { 0 } else { spec_atan_core(ay, ax) }
    } else {
        HALF_PI_CR as int - spec_atan_core(ax, ay)
    }
}

/// Counter-clockwise angle of the direction `(dx, dy)` from the positive
/// x axis, in `[0, TWO_PI_CR)`. The origin direction maps to zero.
pub open spec fn spec_atan2_cr(dy: int, dx: int) -> int {
    let ax = iabs(dx);
    let ay = iabs(dy);
    if dx >= 0 && dy >= 0 {
        spec_first_quadrant(ax, ay)
    } else if dx < 0 && dy >= 0 {
        PI_CR as int - spec_first_quadrant(ax, ay)
    } else if dx < 0 {
        PI_CR as int + spec_first_quadrant(ax, ay)
    } else {
        let q = spec_first_quadrant(ax, ay);
        if q == 0 { 0 } else { TWO_PI_CR as int - q }
    }
}

/// The heading that faces a unit towards the direction `(dx, dy)`: the
/// direction's angle offset by a quarter turn, so that heading zero points
/// along the negative y axis.
pub open spec fn spec_bearing(dx: int, dy: int) -> int {
    spec_norm_angle(spec_atan2_cr(dy, dx) + HALF_PI_CR as int)
}

fn atan_core(n: i64, d: i64) -> (r: i64)
    requires
        0 <= n <= d,
        0 < d <= 4 * COORD_MAX,
    ensures
        r == spec_atan_core(n as int, d as int),
        0 <= r <= 100,
{
    proof {
        assert(0 <= n as int * 1000 <= d as int * 1000) by (nonlinear_arith)
            requires 0 <= n <= d;
        vstd::arithmetic::div_mod::lemma_div_pos_is_pos(n as int * 1000, d as int);
        vstd::arithmetic::div_mod::lemma_div_is_ordered(n as int * 1000, d as int * 1000, d as int);
        vstd::arithmetic::div_mod::lemma_div_multiples_vanish(1000, d as int);
    }
    let z: i64 = n * 1000 / d;
    proof {
        assert(0 <= 273 * z as int * (1000 - z as int) <= 68_250_000) by (nonlinear_arith)
            requires 0 <= z <= 1000;
        vstd::arithmetic::div_mod::lemma_div_pos_is_pos(273 * z as int * (1000 - z as int), 1000);
        vstd::arithmetic::div_mod::lemma_div_is_ordered(
            273 * z as int * (1000 - z as int), 68_250_000, 1000);
        vstd::arithmetic::div_mod::lemma_div_pos_is_pos(
            z as int * 785 + 273 * z as int * (1000 - z as int) / 1000, 10000);
        vstd::arithmetic::div_mod::lemma_div_is_ordered(
            z as int * 785 + 273 * z as int * (1000 - z as int) / 1000, 1_000_000, 10000);
    }
    (z * 785 + 273 * z * (1000 - z) / 1000) / 10000
}

fn first_quadrant(ax: i64, ay: i64) -> (r: i64)
    requires
        0 <= ax <= 2 * COORD_MAX,
        0 <= ay <= 2 * COORD_MAX,
    ensures
        r == spec_first_quadrant(ax as int, ay as int),
        0 <= r <= HALF_PI_CR,
{
    if ay <= ax {
        if ax == 0 { 0 } else { atan_core(ay, ax) }
    } else {
        HALF_PI_CR - atan_core(ax, ay)
    }
}

/// The heading that faces a pose at `(px, py)` towards `(x, y)`.
pub fn bearing(px: i64, py: i64, x: i64, y: i64) -> (r: i64)
    requires
        valid_coord(px as int),
        valid_coord(py as int),
        valid_coord(x as int),
        valid_coord(y as int),
    ensures
        r == spec_bearing(x - px as int, y - py as int),
        0 <= r < TWO_PI_CR,
{
    let dx: i64 = x - px;
    let dy: i64 = y - py;
    let ax: i64 = if dx >= 0 { dx } else { -dx };
    let ay: i64 = if dy >= 0 { dy } else { -dy };
    let q = first_quadrant(ax, ay);
    let a: i64 = if dx >= 0 && dy >= 0 {
        q
    } else if dx < 0 && dy >= 0 {
        PI_CR - q
    } else if dx < 0 {
        PI_CR + q
    } else {
        if q == 0 { 0 } else { TWO_PI_CR - q }
    };
    let s: i64 = a + HALF_PI_CR;
    let r: i64 = if s >= TWO_PI_CR { s - TWO_PI_CR } else { s };
    proof {
        if s >= TWO_PI_CR as int {
            vstd::arithmetic::div_mod::lemma_fundamental_div_mod_converse(
                s as int, TWO_PI_CR as int, 1, r as int);
        } else {
            vstd::arithmetic::div_mod::lemma_fundamental_div_mod_converse(
                s as int, TWO_PI_CR as int, 0, r as int);
        }
    }
    r
}

impl Pose {
    /// Turns the heading towards the point `(x, y)` by at most `max_delta`,
    /// leaving the position unchanged. The resulting heading is normalized
    /// into `[0, TWO_PI_CR)`.
    pub fn rotate_towards(&self, x: i64, y: i64, max_delta: i64) -> (r: Pose)
        requires
            self.valid(),
            self.rotation > i64::MIN,
            valid_coord(x as int),
            valid_coord(y as int),
            0 <= max_delta <= 1_000_000,
        ensures
            r.x == self.x,
            r.y == self.y,
            r.valid(),
            r.rotation == spec_rotate_step(
                spec_norm_angle(self.rotation as int),
                spec_bearing(x - self.x as int, y - self.y as int),
                max_delta as int,
            ),
            0 <= r.rotation < TWO_PI_CR,
    {
        let curr = normalize_angle(self.rotation);
        let dest = bearing(self.x, self.y, x, y);
        let rot = rotate_step(curr, dest, max_delta);
        Pose { x: self.x, y: self.y, rotation: rot }
    }
}

/// A proportional step along one axis never exceeds that axis's remaining
/// distance.
proof fn lemma_axis_step_bounded(dist: int, adist: int, total: int)
    requires
        0 <= dist <= total,
        0 <= adist <= total,
        0 < total,
    ensures
        0 <= dist * adist / total <= adist,
        dist * adist / total <= dist,
{
    assert(0 <= dist * adist) by (nonlinear_arith)
        requires 0 <= dist, 0 <= adist;
    vstd::arithmetic::div_mod::lemma_div_pos_is_pos(dist * adist, total);
    assert(dist * adist <= dist * total) by (nonlinear_arith)
        requires 0 <= dist, adist <= total;
    vstd::arithmetic::div_mod::lemma_div_is_ordered(dist * adist, dist * total, total);
    vstd::arithmetic::div_mod::lemma_div_multiples_vanish(dist, total);
    assert(dist * adist <= adist * total) by (nonlinear_arith)
        requires 0 <= adist, dist <= total;
    vstd::arithmetic::div_mod::lemma_div_is_ordered(dist * adist, adist * total, total);
    vstd::arithmetic::div_mod::lemma_div_multiples_vanish(adist, total);
}

} // verus!
