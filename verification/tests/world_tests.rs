use tactics::ident::Id;
use tactics::interpreter::{Delta, Interpreter};
use tactics::unit::{Unit, UnitRole, UnitState, Views};
use tactics::world::{State, run_collisions};

const ID_A: Id = 0x00000000_0000_4000_8000_00000000000a;
const ID_B: Id = 0x00000000_0000_4000_8000_00000000000b;
const ID_C: Id = 0x00000000_0000_4000_8000_00000000000c;

const EAST: i64 = 157;

fn soldier(id: Id, x: i64, y: i64, rotation: i64, state: UnitState) -> Unit {
    Unit::new(UnitRole::Soldier, id, x, y, rotation, 1, state)
}

fn views_of(units: &[&Unit]) -> Views {
    let mut v: Views = Vec::new();
    for u in units {
        v.push((u.id, u.pose, u.shape));
    }
    v
}

#[test]
fn overlap_is_symmetric() {
    let a = soldier(ID_A, 0, 0, 0, UnitState::Idle);
    let near = soldier(ID_B, 1_000, 500, 200, UnitState::Idle);
    let far = soldier(ID_C, 50_000, 0, 0, UnitState::Idle);
    assert_eq!(a.overlaps(&near), near.overlaps(&a));
    assert!(a.overlaps(&near));
    assert_eq!(a.overlaps(&far), far.overlaps(&a));
    assert!(!a.overlaps(&far));
}

#[test]
fn view_is_asymmetric() {
    // Both face east; B stands ahead of A, so A sees B while A is behind
    // B's wedge.
    let a = soldier(ID_A, 0, 0, EAST, UnitState::Idle);
    let b = soldier(ID_B, 10_000, 0, EAST, UnitState::Idle);
    assert!(a.can_see(&b));
    assert!(!b.can_see(&a));
}

#[test]
fn movement_scenario_reaches_target_and_pops() {
    // A soldier ordered to (100, 100) at speed 100 with half-second ticks
    // advances 25 units per axis per tick and pops to idle on arrival.
    let mut u = soldier(ID_A, 0, 0, 0, UnitState::Move(10_000, 10_000));
    let views = views_of(&[&u]);
    let expected = [(2_500, 2_500), (5_000, 5_000), (7_500, 7_500), (10_000, 10_000)];
    for (i, (ex, ey)) in expected.iter().enumerate() {
        let res = u.update(500, &views);
        assert!(res.unit.is_none() && res.command.is_none());
        assert_eq!((u.pose.x, u.pose.y), (*ex, *ey), "tick {}", i + 1);
        if i + 1 < expected.len() {
            assert_eq!(u.state, UnitState::Move(10_000, 10_000));
        } else {
            assert_eq!(u.state, UnitState::Idle);
        }
    }
}

#[test]
fn movement_scenario_fires_one_state_change() {
    let mut world = State::new();
    world.add_unit(soldier(ID_A, 0, 0, 0, UnitState::Move(10_000, 10_000)));
    let key = b"soldier_on_state_change".to_vec();
    for tick in 1..=4 {
        let events = world.update(500, Vec::new());
        let changes = events.iter().filter(|e| e.0 == key).count();
        if tick < 4 {
            assert_eq!(changes, 0, "no state change before arrival (tick {})", tick);
        } else {
            assert_eq!(changes, 1, "exactly one state change on arrival");
        }
    }
    assert_eq!(world.units.len(), 1);
    assert_eq!(world.units[0].state, UnitState::Idle);
}

#[test]
fn shoot_scenario_spawns_one_bullet_in_range() {
    // Out of range: the shooter turns and advances, spawning nothing.
    let far = soldier(ID_B, 50_000, 0, 0, UnitState::Idle);
    let mut u = soldier(ID_A, 0, 0, EAST, UnitState::Shoot(ID_B));
    let views = views_of(&[&u, &far]);
    let res = u.update(500, &views);
    assert!(res.unit.is_none() && res.command.is_none());
    assert_eq!(u.state, UnitState::Shoot(ID_B));
    assert!(u.pose.x > 0, "the shooter closes in on the target");

    // In range: exactly one bullet, aimed at the target, one body width
    // ahead of the shooter along its heading; the shooter resumes its queue.
    let near = soldier(ID_B, 10_000, 0, 0, UnitState::Idle);
    let mut u = soldier(ID_A, 0, 0, EAST, UnitState::Shoot(ID_B));
    let views = views_of(&[&u, &near]);
    let res = u.update(500, &views);
    let bullet = res.unit.expect("a bullet must spawn");
    assert_eq!(bullet.role, UnitRole::Bullet);
    assert_eq!(bullet.state, UnitState::Move(10_000, 0));
    assert_eq!((bullet.pose.x, bullet.pose.y), (2_500, 0));
    assert_eq!(bullet.team, u.team);
    assert_eq!(u.state, UnitState::Idle);
    assert_eq!((u.pose.x, u.pose.y), (0, 0));
}

#[test]
fn bullet_spawns_along_heading_not_toward_target() {
    // Facing south with the target off to the side: the bullet starts one
    // body width along the heading, not on the line to the target.
    let target = soldier(ID_B, 1_000, -10_000, 0, UnitState::Idle);
    let mut u = soldier(ID_A, 0, 0, 0, UnitState::Shoot(ID_B));
    let views = views_of(&[&u, &target]);
    let res = u.update(500, &views);
    let bullet = res.unit.expect("a bullet must spawn");
    assert_eq!((bullet.pose.x, bullet.pose.y), (0, -2_500));
    assert_eq!(bullet.state, UnitState::Move(1_000, -10_000));
}

#[test]
fn shoot_scenario_through_the_world() {
    let mut world = State::new();
    world.add_unit(soldier(ID_A, 0, 0, EAST, UnitState::Shoot(ID_B)));
    world.add_unit(soldier(ID_B, 10_000, 0, 0, UnitState::Idle));
    world.update(500, Vec::new());
    assert_eq!(world.units.len(), 3, "exactly one unit spawned");
    let bullets: Vec<&Unit> = world.units.iter().filter(
        |u| u.role == UnitRole::Bullet).collect();
    assert_eq!(bullets.len(), 1);
    assert_eq!(bullets[0].state, UnitState::Move(10_000, 0));
}

#[test]
fn missing_shoot_target_pops_silently() {
    let mut u = soldier(ID_A, 0, 0, EAST, UnitState::Shoot(ID_B));
    let views = views_of(&[&u]);
    let res = u.update(500, &views);
    assert!(res.unit.is_none() && res.command.is_none());
    assert_eq!(u.state, UnitState::Idle);
}

#[test]
fn command_in_range_surfaces_cross_unit_delta() {
    let near = soldier(ID_B, 10_000, 0, 0, UnitState::Idle);
    let mut u = soldier(ID_A, 0, 0, EAST,
        UnitState::Command(ID_B, Box::new(UnitState::Move(0, 0))));
    let views = views_of(&[&u, &near]);
    let res = u.update(500, &views);
    assert!(res.unit.is_none());
    assert_eq!(res.command, Some((ID_B, UnitState::Move(0, 0))));
    assert_eq!(u.state, UnitState::Idle);
}

#[test]
fn collision_events_are_edge_triggered() {
    let a = soldier(ID_A, 0, 0, 0, UnitState::Idle);
    let b = soldier(ID_B, 1_000, 0, 0, UnitState::Idle);
    let mut units: Vec<Unit> = Vec::new();
    units.push(a);
    units.push(b);
    let mut interp = Interpreter::new();

    // First tick of overlap: one collision event for the pair.
    let mut seen: Vec<Id> = Vec::new();
    let (current, events) = run_collisions(&mut interp, &units[0], &seen, &units);
    assert_eq!(current, vec![ID_B]);
    assert_eq!(events.len(), 1);
    assert_eq!(events[0].0, b"soldier_on_collision".to_vec());
    assert_eq!(events[0].1.id, ID_A);
    assert_eq!(events[0].2.as_ref().unwrap().id, ID_B);

    // The overlap persists: the cache holds it and nothing fires again.
    seen = current;
    for _ in 0..4 {
        let (current, events) = run_collisions(&mut interp, &units[0], &seen, &units);
        assert_eq!(current, vec![ID_B]);
        assert!(events.is_empty(), "a continuing overlap reports nothing");
        seen = current;
    }

    // The pair separates: the overlap set empties without an event.
    let apart = soldier(ID_B, 50_000, 0, 0, UnitState::Idle);
    units.remove(1);
    units.insert(1, apart);
    let (current, events) = run_collisions(&mut interp, &units[0], &seen, &units);
    assert!(current.is_empty());
    assert!(events.is_empty());
}

#[test]
fn dead_units_ignore_updates_and_leave_the_world() {
    let mut world = State::new();
    let mut dead = soldier(ID_A, 0, 0, 0, UnitState::Idle);
    dead.state = UnitState::Dead;
    world.add_unit(dead);

    // Terminal-state idempotence: any further update delta leaves it dead.
    let r = world.apply_delta(Delta::UpdateState(ID_A, UnitState::Move(100, 100)));
    assert!(r.is_none());
    assert_eq!(world.units[0].state, UnitState::Dead);
    let r = world.apply_delta(Delta::UpdateState(ID_A, UnitState::Idle));
    assert!(r.is_none());
    assert_eq!(world.units[0].state, UnitState::Dead);

    // The tick removes it, together with its cache entries.
    world.update(500, Vec::new());
    assert_eq!(world.units.len(), 0);
    assert_eq!(world.collision_cache.len(), 0);
    assert_eq!(world.view_cache.len(), 0);
}

#[test]
fn deltas_apply_in_arrival_order() {
    let mut world = State::new();
    world.add_unit(soldier(ID_A, 0, 0, 0, UnitState::Idle));
    let r = world.apply_delta(Delta::UpdateState(ID_A, UnitState::Move(100, 100)));
    assert_eq!(r, Some(ID_A));
    // The same state again is not a change.
    let r = world.apply_delta(Delta::UpdateState(ID_A, UnitState::Move(100, 100)));
    assert!(r.is_none());
    // The last applied delta wins for the unit.
    world.apply_delta(Delta::UpdateState(ID_A, UnitState::Look(1, 2)));
    assert_eq!(world.units[0].state, UnitState::Look(1, 2));
    // A delta for a missing unit is dropped.
    assert!(world.apply_delta(Delta::UpdateState(ID_C, UnitState::Idle)).is_none());
}

#[test]
fn new_unit_delta_adds_a_unit() {
    let mut world = State::new();
    world.apply_delta(Delta::NewUnit(UnitRole::General, ID_A, 100, 200, 314, 2));
    assert_eq!(world.units.len(), 1);
    let u = &world.units[0];
    assert_eq!(u.role, UnitRole::General);
    assert_eq!((u.pose.x, u.pose.y, u.pose.rotation), (100, 200, 314));
    assert_eq!(u.team, 2);
    assert_eq!(u.state, UnitState::Idle);
    // A unit with an identifier already present replaces it.
    world.apply_delta(Delta::NewUnit(UnitRole::Bullet, ID_A, 0, 0, 0, 2));
    assert_eq!(world.units.len(), 1);
    assert_eq!(world.units[0].role, UnitRole::Bullet);
}

#[test]
fn queue_resumes_after_current_state() {
    let mut u = soldier(ID_A, 0, 0, 0, UnitState::Move(1_000, 0));
    u.state_queue.push(UnitState::Look(5_000, 0));
    assert_eq!(u.peek_next_state(), UnitState::Look(5_000, 0));
    let views = views_of(&[&u]);
    u.update(500, &views);
    assert_eq!((u.pose.x, u.pose.y), (1_000, 0));
    assert_eq!(u.state, UnitState::Look(5_000, 0));
    assert_eq!(u.peek_next_state(), UnitState::Idle);
}

#[test]
fn exit_view_for_vanished_unit_has_no_snapshot() {
    // A unit that left the world can still be flushed out of the view
    // cache; the exit event then carries no snapshot of it.
    let a = soldier(ID_A, 0, 0, EAST, UnitState::Idle);
    let units = vec![a];
    let seen = vec![ID_B];
    let mut interp = Interpreter::new();
    let (current, events) = tactics::world::run_views(&mut interp, &units[0], &seen, &units);
    assert!(current.is_empty());
    assert_eq!(events.len(), 1);
    assert_eq!(events[0].0, b"soldier_on_exit_view".to_vec());
    assert!(events[0].2.is_none());
}

#[test]
fn world_ticks_fire_collisions_once() {
    let mut world = State::new();
    world.add_unit(soldier(ID_A, 0, 0, 0, UnitState::Idle));
    world.add_unit(soldier(ID_B, 1_000, 0, 0, UnitState::Idle));
    let key = b"soldier_on_collision".to_vec();
    let events = world.update(500, Vec::new());
    // Each of the pair reports the new overlap once.
    assert_eq!(events.iter().filter(|e| e.0 == key).count(), 2);
    for _ in 0..4 {
        let events = world.update(500, Vec::new());
        assert_eq!(events.iter().filter(|e| e.0 == key).count(), 0);
    }
}
