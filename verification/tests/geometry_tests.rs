use tactics::geometry::{Pose, normalize_angle, rotate_step, bearing, TWO_PI_CR, HALF_PI_CR};
use tactics::shape::{sin_pm, cos_pm, UnitShape, body_poly, fov_poly, polys_intersect};

fn ang_dist(a: i64, b: i64) -> i64 {
    let mut d = (b - a) % TWO_PI_CR;
    if d < 0 {
        d += TWO_PI_CR;
    }
    if d <= 314 { d } else { TWO_PI_CR - d }
}

#[test]
fn move_towards_splits_proportionally() {
    let p = Pose::new(0, 0, 0);
    let q = p.move_towards(10_000, 10_000, 5_000);
    assert_eq!((q.x, q.y), (2_500, 2_500));
    assert_eq!(q.rotation, 0);
}

#[test]
fn move_towards_snaps_inside_box() {
    let p = Pose::new(9_990, 9_990, 17);
    let q = p.move_towards(10_000, 10_000, 50);
    assert_eq!((q.x, q.y), (10_000, 10_000));
    assert_eq!(q.rotation, 17);
}

#[test]
fn move_towards_uneven_axes() {
    // 30 units east, 10 north; a 4-unit step splits 3:1.
    let p = Pose::new(0, 0, 0);
    let q = p.move_towards(3_000, 1_000, 400);
    assert_eq!((q.x, q.y), (300, 100));
}

#[test]
fn movement_terminates_with_monotone_distance() {
    let mut p = Pose::new(0, 0, 0);
    let (tx, ty) = (10_000i64, 3_000i64);
    let mut last = (tx - p.x).abs() + (ty - p.y).abs();
    let mut ticks = 0;
    while (p.x, p.y) != (tx, ty) {
        p = p.move_towards(tx, ty, 999);
        let d = (tx - p.x).abs() + (ty - p.y).abs();
        assert!(d < last, "distance must shrink every tick");
        last = d;
        ticks += 1;
        assert!(ticks <= 20, "must reach the target within a bounded tick count");
    }
    assert_eq!((p.x, p.y), (tx, ty));
}

#[test]
fn rotate_step_advances_short_way() {
    // Counter-clockwise when the target is less than half a turn ahead.
    assert_eq!(rotate_step(0, 300, 50), 50);
    // Clockwise when it is more than half a turn ahead, wrapping below zero.
    assert_eq!(rotate_step(0, 400, 50), TWO_PI_CR - 50);
    // Snaps when within the budget, across the wrap.
    assert_eq!(rotate_step(620, 10, 50), 10);
    assert_eq!(rotate_step(10, 620, 50), 620);
}

#[test]
fn rotate_step_bounded_and_in_range() {
    let cases = [(0i64, 300i64, 50i64), (0, 400, 50), (600, 100, 30), (100, 600, 30),
        (157, 157, 10), (0, 314, 25)];
    for (curr, dest, maxd) in cases {
        let r = rotate_step(curr, dest, maxd);
        assert!(0 <= r && r < TWO_PI_CR);
        assert!(ang_dist(curr, r) <= maxd, "step exceeded budget");
        let before = ang_dist(curr, dest);
        let after = ang_dist(r, dest);
        let expected = if before <= maxd { 0 } else { before - maxd };
        assert_eq!(after, expected, "must advance towards the target exactly");
    }
}

#[test]
fn bearing_on_axes() {
    assert_eq!(bearing(0, 0, 10_000, 0), 157);
    assert_eq!(bearing(0, 0, 0, 10_000), 314);
    assert_eq!(bearing(0, 0, -10_000, 0), 471);
    assert_eq!(bearing(0, 0, 0, -10_000), 0);
}

#[test]
fn bearing_off_axis_value() {
    // The first-octant arctangent approximation at a diagonal: one eighth
    // of a turn, offset by the quarter-turn nose alignment.
    assert_eq!(bearing(0, 0, 10_000, 10_000), 78 + 157);
}

#[test]
fn sine_off_quarter_value() {
    // The rational sine approximation at an eighth of a turn.
    assert_eq!(sin_pm(78), 702);
}

#[test]
fn rotate_towards_turns_then_snaps() {
    let p = Pose::new(0, 0, 0);
    let q = p.rotate_towards(10_000, 0, 30);
    assert_eq!((q.x, q.y, q.rotation), (0, 0, 30));
    let r = p.rotate_towards(10_000, 0, 200);
    assert_eq!(r.rotation, 157);
}

#[test]
fn normalize_angle_folds() {
    assert_eq!(normalize_angle(0), 0);
    assert_eq!(normalize_angle(TWO_PI_CR), 0);
    assert_eq!(normalize_angle(-1), TWO_PI_CR - 1);
    assert_eq!(normalize_angle(1000), 1000 - TWO_PI_CR);
}

#[test]
fn trig_exact_at_quarters() {
    assert_eq!(sin_pm(0), 0);
    assert_eq!(sin_pm(HALF_PI_CR), 1000);
    assert_eq!(sin_pm(314), 0);
    assert_eq!(sin_pm(471), -1000);
    assert_eq!(cos_pm(0), 1000);
    assert_eq!(cos_pm(HALF_PI_CR), 0);
    assert_eq!(cos_pm(314), -1000);
}

#[test]
fn render_pose_flips_y() {
    let p = Pose::new(1_000, 2_000, 157);
    assert_eq!(p.render_pose(), (1_000, 78_000, -157));
}

#[test]
fn polygons_intersect_and_separate() {
    let shape = UnitShape::new(1_250);
    let a = body_poly(&Pose::new(0, 0, 0), &shape);
    let b = body_poly(&Pose::new(1_000, 0, 0), &shape);
    let c = body_poly(&Pose::new(50_000, 0, 0), &shape);
    assert!(polys_intersect(&a, &b));
    assert!(!polys_intersect(&a, &c));
    // A wedge facing east reaches a body in front, not one far behind.
    let fov = fov_poly(&Pose::new(0, 0, 157));
    let ahead = body_poly(&Pose::new(10_000, 0, 0), &shape);
    let behind = body_poly(&Pose::new(-10_000, 0, 0), &shape);
    assert!(polys_intersect(&fov, &ahead));
    assert!(!polys_intersect(&fov, &behind));
}
