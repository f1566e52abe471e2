//! The world: the entity table, the per-unit relationship caches, and the
//! per-tick pipeline that advances every unit, detects relationship
//! transitions, applies deltas and removes the dead.
use vstd::prelude::*;

use crate::ident::Id;
use crate::interpreter::{Interpreter, EventType, ExecState, Delta, spec_behavior_key,
    spec_snapshot};
use crate::unit::{Unit, UnitState, Views, views_valid, spec_unit_overlaps, spec_unit_can_see,
    state_targets_valid, spec_unit_step, UpdateResults};
use crate::geometry::{valid_coord, Pose};
use crate::shape::UnitShape;
use crate::unit::UnitRole;

verus! {

/// Every unit in a table is well formed and no two share an identifier.
pub open spec fn units_wf(units: Seq<Unit>) -> bool {
    &&& forall|i: int| 0 <= i < units.len() ==> (#[trigger] units[i]).valid()
    &&& forall|i: int, j: int| 0 <= i < j < units.len()
        ==> (#[trigger] units[i]).id != (#[trigger] units[j]).id
}

/// The first index holding a unit with the identifier, or `-1`.
pub open spec fn spec_unit_index(units: Seq<Unit>, id: Id) -> int
    decreases units.len(),
{
    if units.len() == 0 {
        -1
    } else if units[0].id == id {
        0
    } else {
        let r = spec_unit_index(units.drop_first(), id);
        if r < 0 { -1 } else { r + 1 }
    }
}

proof fn lemma_unit_index(units: Seq<Unit>, id: Id)
    ensures
        spec_unit_index(units, id) >= 0 ==> {
            &&& spec_unit_index(units, id) < units.len()
            &&& units[spec_unit_index(units, id)].id == id
        },
        spec_unit_index(units, id) < 0 ==> forall|j: int| 0 <= j < units.len()
            ==> (#[trigger] units[j]).id != id,
    decreases units.len(),
{
    if units.len() > 0 && units[0].id != id {
        lemma_unit_index(units.drop_first(), id);
        assert forall|j: int| 1 <= j < units.len() implies
            units.drop_first()[j - 1] == units[j] by {}
    }
}

/// Finds the first unit carrying the identifier.
fn find_unit_index(units: &Vec<Unit>, id: Id) -> (r: Option<usize>)
    ensures
        match r {
            Some(j) => j == spec_unit_index(units@, id) && j < units@.len()
                && units@[j as int].id == id,
            None => spec_unit_index(units@, id) < 0,
        },
{
    proof {
        lemma_unit_index(units@, id);
    }
    let mut i: usize = 0;
    while i < units.len()
        invariant
            0 <= i <= units@.len(),
            forall|j: int| 0 <= j < i ==> (#[trigger] units@[j]).id != id,
            spec_unit_index(units@, id) >= 0 ==> {
                &&& spec_unit_index(units@, id) < units@.len()
                &&& units@[spec_unit_index(units@, id)].id == id
            },
            spec_unit_index(units@, id) < 0 ==> forall|j: int| 0 <= j < units@.len()
                ==> (#[trigger] units@[j]).id != id,
        decreases units@.len() - i,
    {
        if units[i].id == id {
            proof {
                if spec_unit_index(units@, id) != i {
                    let k = spec_unit_index(units@, id);
                    if k < 0 {
                        assert(units@[i as int].id != id);
                    } else if k < i {
                        assert(units@[k].id != id);
                    } else {
                        lemma_unit_index_first(units@, id, i as int);
                    }
                }
            }
            return Some(i);
        }
        i = i + 1;
    }
    None
}

/// The first index with the identifier is no later than any other index
/// with it.
proof fn lemma_unit_index_first(units: Seq<Unit>, id: Id, j: int)
    requires
        0 <= j < units.len(),
        units[j].id == id,
    ensures
        0 <= spec_unit_index(units, id) <= j,
    decreases units.len(),
{
    if units[0].id != id {
        lemma_unit_index_first(units.drop_first(), id, j - 1);
    }
}

/// The identifiers of the units, other than `u` itself, whose body volume
/// intersects `u`'s, walking the first `n` units in table order.
pub open spec fn spec_detect_collisions(units: Seq<Unit>, u: Unit, n: int) -> Seq<Id>
    decreases n,
{
    if n <= 0 {
        Seq::empty()
    } else {
        let prev = spec_detect_collisions(units, u, n - 1);
        if units[n - 1].id != u.id && spec_unit_overlaps(u, units[n - 1]) {
            prev.push(units[n - 1].id)
        } else {
            prev
        }
    }
}

/// The identifiers of the units, other than `u` itself, whose body volume
/// intersects `u`'s field-of-view wedge.
pub open spec fn spec_detect_views(units: Seq<Unit>, u: Unit, n: int) -> Seq<Id>
    decreases n,
{
    if n <= 0 {
        Seq::empty()
    } else {
        let prev = spec_detect_views(units, u, n - 1);
        if units[n - 1].id != u.id && spec_unit_can_see(u, units[n - 1]) {
            prev.push(units[n - 1].id)
        } else {
            prev
        }
    }
}

/// Each detected identifier belongs to some other unit of the table.
proof fn lemma_detect_collisions_ids(units: Seq<Unit>, u: Unit, n: int)
    requires
        0 <= n <= units.len(),
    ensures
        forall|k: int| 0 <= k < spec_detect_collisions(units, u, n).len()
            ==> spec_unit_index(units, #[trigger] spec_detect_collisions(units, u, n)[k]) >= 0,
    decreases n,
{
    if n > 0 {
        lemma_detect_collisions_ids(units, u, n - 1);
        let prev = spec_detect_collisions(units, u, n - 1);
        let cur = spec_detect_collisions(units, u, n);
        if units[n - 1].id != u.id && spec_unit_overlaps(u, units[n - 1]) {
            lemma_unit_index_first(units, units[n - 1].id, n - 1);
        }
        assert forall|k: int| 0 <= k < cur.len() implies
            spec_unit_index(units, cur[k]) >= 0 by {
            if k < prev.len() {
                assert(cur[k] == prev[k]);
                assert(spec_unit_index(units, prev[k]) >= 0);
            }
        }
    }
}

proof fn lemma_detect_views_ids(units: Seq<Unit>, u: Unit, n: int)
    requires
        0 <= n <= units.len(),
    ensures
        forall|k: int| 0 <= k < spec_detect_views(units, u, n).len()
            ==> spec_unit_index(units, #[trigger] spec_detect_views(units, u, n)[k]) >= 0,
    decreases n,
{
    if n > 0 {
        lemma_detect_views_ids(units, u, n - 1);
        let prev = spec_detect_views(units, u, n - 1);
        let cur = spec_detect_views(units, u, n);
        if units[n - 1].id != u.id && spec_unit_can_see(u, units[n - 1]) {
            lemma_unit_index_first(units, units[n - 1].id, n - 1);
        }
        assert forall|k: int| 0 <= k < cur.len() implies
            spec_unit_index(units, cur[k]) >= 0 by {
            if k < prev.len() {
                assert(cur[k] == prev[k]);
                assert(spec_unit_index(units, prev[k]) >= 0);
            }
        }
    }
}

/// The identifiers of all units whose body intersects `unit`'s, in table
/// order.
pub fn detect_collisions(units: &Vec<Unit>, unit: &Unit) -> (r: Vec<Id>)
    requires
        units_wf(units@),
        unit.valid(),
    ensures
        r@ == spec_detect_collisions(units@, *unit, units@.len() as int),
{
    let mut r: Vec<Id> = Vec::new();
    let mut i: usize = 0;
    while i < units.len()
        invariant
            0 <= i <= units@.len(),
            units_wf(units@),
            unit.valid(),
            r@ == spec_detect_collisions(units@, *unit, i as int),
        decreases units@.len() - i,
    {
        let other = &units[i];
        proof {
            assert(units@[i as int].valid());
        }
        if other.id != unit.id && unit.overlaps(other) {
            r.push(other.id);
        }
        i = i + 1;
    }
    r
}

/// The identifiers of all units whose body lies in `unit`'s field of view,
/// in table order.
pub fn detect_views(units: &Vec<Unit>, unit: &Unit) -> (r: Vec<Id>)
    requires
        units_wf(units@),
        unit.valid(),
    ensures
        r@ == spec_detect_views(units@, *unit, units@.len() as int),
{
    let mut r: Vec<Id> = Vec::new();
    let mut i: usize = 0;
    while i < units.len()
        invariant
            0 <= i <= units@.len(),
            units_wf(units@),
            unit.valid(),
            r@ == spec_detect_views(units@, *unit, i as int),
        decreases units@.len() - i,
    {
        let other = &units[i];
        proof {
            assert(units@[i as int].valid());
        }
        if other.id != unit.id && unit.can_see(other) {
            r.push(other.id);
        }
        i = i + 1;
    }
    r
}

/// Of the first `n` entries of `current`, those not yet in `seen`: the
/// newly appeared relationships, which alone are reported.
pub open spec fn spec_fresh_ids(current: Seq<Id>, seen: Seq<Id>, n: int) -> Seq<Id>
    decreases n,
{
    if n <= 0 {
        Seq::empty()
    } else {
        let prev = spec_fresh_ids(current, seen, n - 1);
        if !seen.contains(current[n - 1]) {
            prev.push(current[n - 1])
        } else {
            prev
        }
    }
}

/// What `spec_fresh_ids` holds: exactly the entries of `current` absent
/// from `seen`.
pub proof fn lemma_fresh_membership(current: Seq<Id>, seen: Seq<Id>, n: int, x: Id)
    requires
        0 <= n <= current.len(),
    ensures
        spec_fresh_ids(current, seen, n).contains(x)
            <==> ((exists|j: int| 0 <= j < n && current[j] == x) && !seen.contains(x)),
    decreases n,
{
    if n > 0 {
        lemma_fresh_membership(current, seen, n - 1, x);
        let prev = spec_fresh_ids(current, seen, n - 1);
        let cur = spec_fresh_ids(current, seen, n);
        if !seen.contains(current[n - 1]) {
            assert forall|k: int| 0 <= k < cur.len() && cur[k] == x implies
                prev.contains(x) || current[n - 1] == x by {
                if k < prev.len() {
                    assert(cur[k] == prev[k]);
                }
            }
            if prev.contains(x) {
                let k = choose|k: int| 0 <= k < prev.len() && prev[k] == x;
                assert(cur[k] == x);
            }
            if current[n - 1] == x {
                assert(cur[cur.len() - 1] == x);
            }
        }
    }
}

/// An edge-triggered relationship: once a pair's overlap has been recorded
/// in the cache, re-detecting it on a later tick reports nothing for that
/// pair; it is reported exactly on the tick it first appears.
pub proof fn lemma_edge_triggered(seen_before: Seq<Id>, current_prev: Seq<Id>,
    current_now: Seq<Id>, id: Id)
    requires
        current_prev.contains(id),
    ensures
        spec_fresh_ids(current_prev, seen_before, current_prev.len() as int).contains(id)
            <==> !seen_before.contains(id),
        !spec_fresh_ids(current_now, current_prev, current_now.len() as int).contains(id),
{
    lemma_fresh_membership(current_prev, seen_before, current_prev.len() as int, id);
    lemma_fresh_membership(current_now, current_prev, current_now.len() as int, id);
    let j = choose|j: int| 0 <= j < current_prev.len() && current_prev[j] == id;
    assert(current_prev[j] == id);
}

/// Whether a sequence of identifiers holds one.
fn ids_contain(ids: &Vec<Id>, id: Id) -> (r: bool)
    ensures
        r == ids@.contains(id),
{
    let mut i: usize = 0;
    while i < ids.len()
        invariant
            0 <= i <= ids@.len(),
            forall|j: int| 0 <= j < i ==> ids@[j] != id,
        decreases ids@.len() - i,
    {
        if ids[i] == id {
            return true;
        }
        i = i + 1;
    }
    false
}

/// Detects `unit`'s current overlaps and reports a collision event for each
/// one not yet in the cache: the event carries the behaviour key, a snapshot
/// of the unit, and a snapshot of the other unit. Continuing overlaps report
/// nothing.
pub fn run_collisions(interp: &mut Interpreter, unit: &Unit, seen: &Vec<Id>, units: &Vec<Unit>)
    -> (r: (Vec<Id>, Vec<ExecState>))
    requires
        unit.valid(),
        units_wf(units@),
    ensures
        r.0@ == spec_detect_collisions(units@, *unit, units@.len() as int),
        ({
            let fresh = spec_fresh_ids(r.0@, seen@, r.0@.len() as int);
            &&& r.1@.len() == fresh.len()
            &&& forall|k: int| 0 <= k < fresh.len() ==> {
                &&& (#[trigger] r.1@[k]).0@ == spec_behavior_key(unit.role, EventType::Collision)
                &&& r.1@[k].1 == spec_snapshot(*unit)
                &&& r.1@[k].2 == Some(spec_snapshot(
                    units@[spec_unit_index(units@, fresh[k])]))
            }
        }),
{
    let current = detect_collisions(units, unit);
    proof {
        lemma_detect_collisions_ids(units@, *unit, units@.len() as int);
    }
    let mut events: Vec<ExecState> = Vec::new();
    let mut i: usize = 0;
    while i < current.len()
        invariant
            0 <= i <= current@.len(),
            current@ == spec_detect_collisions(units@, *unit, units@.len() as int),
            units_wf(units@),
            unit.valid(),
            forall|k: int| 0 <= k < current@.len()
                ==> spec_unit_index(units@, #[trigger] current@[k]) >= 0,
            events@.len() == spec_fresh_ids(current@, seen@, i as int).len(),
            forall|k: int| 0 <= k < events@.len() ==> {
                let fresh = spec_fresh_ids(current@, seen@, i as int);
                &&& (#[trigger] events@[k]).0@ == spec_behavior_key(
                    unit.role, EventType::Collision)
                &&& events@[k].1 == spec_snapshot(*unit)
                &&& events@[k].2 == Some(spec_snapshot(
                    units@[spec_unit_index(units@, fresh[k])]))
            },
        decreases current@.len() - i,
    {
        let cid = current[i];
        let ghost prev_fresh = spec_fresh_ids(current@, seen@, i as int);
        if !ids_contain(seen, cid) {
            let j = match find_unit_index(units, cid) {
                Some(j) => j,
                None => {
                    proof {
                        assert(spec_unit_index(units@, current@[i as int]) >= 0);
                    }
                    vstd::pervasive::unreached()
                },
            };
            let ev = interp.exec(&unit.role, &EventType::Collision, unit, Some(&units[j]));
            events.push(ev);
        }
        proof {
            let fresh = spec_fresh_ids(current@, seen@, i + 1);
            if !seen@.contains(current@[i as int]) {
                assert(fresh == prev_fresh.push(current@[i as int]));
            } else {
                assert(fresh == prev_fresh);
            }
            assert forall|k: int| 0 <= k < events@.len() implies {
                &&& (#[trigger] events@[k]).0@ == spec_behavior_key(
                    unit.role, EventType::Collision)
                &&& events@[k].1 == spec_snapshot(*unit)
                &&& events@[k].2 == Some(spec_snapshot(
                    units@[spec_unit_index(units@, fresh[k])]))
            } by {
                if k < prev_fresh.len() {
                    assert(fresh[k] == prev_fresh[k]);
                }
            }
        }
        i = i + 1;
    }
    (current, events)
}

/// Detects the units currently in `unit`'s view, reports an enter-view
/// event for each one not yet in the cache, and an exit-view event for each
/// cached one no longer in view; for an exited unit that has left the world
/// the event carries no other snapshot.
#[verifier::spinoff_prover]
#[verifier::rlimit(60)]
pub fn run_views(interp: &mut Interpreter, unit: &Unit, seen: &Vec<Id>, units: &Vec<Unit>)
    -> (r: (Vec<Id>, Vec<ExecState>))
    requires
        unit.valid(),
        units_wf(units@),
    ensures
        r.0@ == spec_detect_views(units@, *unit, units@.len() as int),
        ({
            let fresh = spec_fresh_ids(r.0@, seen@, r.0@.len() as int);
            let gone = spec_fresh_ids(seen@, r.0@, seen@.len() as int);
            &&& r.1@.len() == fresh.len() + gone.len()
            &&& forall|k: int| 0 <= k < fresh.len() ==> {
                &&& (#[trigger] r.1@[k]).0@ == spec_behavior_key(unit.role, EventType::EnterView)
                &&& r.1@[k].1 == spec_snapshot(*unit)
                &&& r.1@[k].2 == Some(spec_snapshot(
                    units@[spec_unit_index(units@, fresh[k])]))
            }
            &&& forall|k: int| fresh.len() <= k < fresh.len() + gone.len() ==> {
                let gid = gone[k - fresh.len()];
                &&& (#[trigger] r.1@[k]).0@ == spec_behavior_key(unit.role, EventType::ExitView)
                &&& r.1@[k].1 == spec_snapshot(*unit)
                &&& r.1@[k].2 == (if spec_unit_index(units@, gid) >= 0 {
                    Some(spec_snapshot(units@[spec_unit_index(units@, gid)]))
                } else {
                    None
                })
            }
        }),
{
    let current = detect_views(units, unit);
    proof {
        lemma_detect_views_ids(units@, *unit, units@.len() as int);
    }
    let mut events: Vec<ExecState> = Vec::new();
    let mut i: usize = 0;
    while i < current.len()
        invariant
            0 <= i <= current@.len(),
            current@ == spec_detect_views(units@, *unit, units@.len() as int),
            units_wf(units@),
            unit.valid(),
            forall|k: int| 0 <= k < current@.len()
                ==> spec_unit_index(units@, #[trigger] current@[k]) >= 0,
            events@.len() == spec_fresh_ids(current@, seen@, i as int).len(),
            forall|k: int| 0 <= k < events@.len() ==> {
                let fresh = spec_fresh_ids(current@, seen@, i as int);
                &&& (#[trigger] events@[k]).0@ == spec_behavior_key(
                    unit.role, EventType::EnterView)
                &&& events@[k].1 == spec_snapshot(*unit)
                &&& events@[k].2 == Some(spec_snapshot(
                    units@[spec_unit_index(units@, fresh[k])]))
            },
        decreases current@.len() - i,
    {
        let cid = current[i];
        let ghost prev_fresh = spec_fresh_ids(current@, seen@, i as int);
        if !ids_contain(seen, cid) {
            let j = match find_unit_index(units, cid) {
                Some(j) => j,
                None => {
                    proof {
                        assert(spec_unit_index(units@, current@[i as int]) >= 0);
                    }
                    vstd::pervasive::unreached()
                },
            };
            let ev = interp.exec(&unit.role, &EventType::EnterView, unit, Some(&units[j]));
            events.push(ev);
        }
        proof {
            let fresh = spec_fresh_ids(current@, seen@, i + 1);
            if !seen@.contains(current@[i as int]) {
                assert(fresh == prev_fresh.push(current@[i as int]));
            } else {
                assert(fresh == prev_fresh);
            }
            assert forall|k: int| 0 <= k < events@.len() implies {
                &&& (#[trigger] events@[k]).0@ == spec_behavior_key(
                    unit.role, EventType::EnterView)
                &&& events@[k].1 == spec_snapshot(*unit)
                &&& events@[k].2 == Some(spec_snapshot(
                    units@[spec_unit_index(units@, fresh[k])]))
            } by {
                if k < prev_fresh.len() {
                    assert(fresh[k] == prev_fresh[k]);
                }
            }
        }
        i = i + 1;
    }
    let ghost fresh_total = spec_fresh_ids(current@, seen@, current@.len() as int);
    let mut i2: usize = 0;
    while i2 < seen.len()
        invariant
            0 <= i2 <= seen@.len(),
            current@ == spec_detect_views(units@, *unit, units@.len() as int),
            units_wf(units@),
            unit.valid(),
            fresh_total == spec_fresh_ids(current@, seen@, current@.len() as int),
            events@.len() == fresh_total.len() + spec_fresh_ids(seen@, current@, i2 as int).len(),
            forall|k: int| 0 <= k < fresh_total.len() ==> {
                &&& (#[trigger] events@[k]).0@ == spec_behavior_key(
                    unit.role, EventType::EnterView)
                &&& events@[k].1 == spec_snapshot(*unit)
                &&& events@[k].2 == Some(spec_snapshot(
                    units@[spec_unit_index(units@, fresh_total[k])]))
            },
            forall|k: int| fresh_total.len() <= k < events@.len() ==> {
                let gone = spec_fresh_ids(seen@, current@, i2 as int);
                let gid = gone[k - fresh_total.len()];
                &&& (#[trigger] events@[k]).0@ == spec_behavior_key(
                    unit.role, EventType::ExitView)
                &&& events@[k].1 == spec_snapshot(*unit)
                &&& events@[k].2 == (if spec_unit_index(units@, gid) >= 0 {
                    Some(spec_snapshot(units@[spec_unit_index(units@, gid)]))
                } else {
                    None
                })
            },
        decreases seen@.len() - i2,
    {
        let sid = seen[i2];
        let ghost prev_gone = spec_fresh_ids(seen@, current@, i2 as int);
        if !ids_contain(&current, sid) {
            let ev = match find_unit_index(units, sid) {
                Some(j) => interp.exec(&unit.role, &EventType::ExitView, unit, Some(&units[j])),
                None => interp.exec(&unit.role, &EventType::ExitView, unit, None),
            };
            events.push(ev);
        }
        proof {
            let gone = spec_fresh_ids(seen@, current@, i2 + 1);
            if !current@.contains(seen@[i2 as int]) {
                assert(gone == prev_gone.push(seen@[i2 as int]));
            } else {
                assert(gone == prev_gone);
            }
            assert forall|k: int| fresh_total.len() <= k < events@.len() implies {
                let gid = gone[k - fresh_total.len()];
                &&& (#[trigger] events@[k]).0@ == spec_behavior_key(
                    unit.role, EventType::ExitView)
                &&& events@[k].1 == spec_snapshot(*unit)
                &&& events@[k].2 == (if spec_unit_index(units@, gid) >= 0 {
                    Some(spec_snapshot(units@[spec_unit_index(units@, gid)]))
                } else {
                    None
                })
            } by {
                if k - fresh_total.len() < prev_gone.len() {
                    assert(gone[k - fresh_total.len()] == prev_gone[k - fresh_total.len()]);
                }
            }
        }
        i2 = i2 + 1;
    }
    (current, events)
}

/// Whether a unit is the one a fresh `new_unit` delta or spawn describes:
/// the given identity and pose, the role's fixed size and speed, no queued
/// states, and idling.
pub open spec fn is_fresh_unit(u: Unit, role: UnitRole, id: Id, x: i64, y: i64,
    rotation: i64, team: usize) -> bool {
    &&& u.id == id
    &&& u.team == team
    &&& u.role == role
    &&& u.pose == (Pose { x, y, rotation })
    &&& u.state is Idle
    &&& u.state_queue@.len() == 0
    &&& u.valid()
}

/// The world: the entity table, one relationship cache entry per unit for
/// each of the two relationship kinds, and the dispatch side of the script
/// boundary.
pub struct State {
    pub interpreter: Interpreter,
    pub units: Vec<Unit>,
    pub collision_cache: Vec<(Id, Vec<Id>)>,
    pub view_cache: Vec<(Id, Vec<Id>)>,
}

impl State {
    /// Well-formedness: units are valid with unique identifiers, and each
    /// cache holds exactly one entry per unit, in table order.
    pub open spec fn well_formed(self) -> bool {
        &&& units_wf(self.units@)
        &&& self.collision_cache@.len() == self.units@.len()
        &&& self.view_cache@.len() == self.units@.len()
        &&& forall|i: int| 0 <= i < self.units@.len()
            ==> (#[trigger] self.collision_cache@[i]).0 == self.units@[i].id
        &&& forall|i: int| 0 <= i < self.units@.len()
            ==> (#[trigger] self.view_cache@[i]).0 == self.units@[i].id
    }

    /// An empty world.
    pub fn new() -> (r: State)
        ensures
            r.well_formed(),
            r.units@.len() == 0,
    {
        State {
            interpreter: Interpreter::new(),
            units: Vec::new(),
            collision_cache: Vec::new(),
            view_cache: Vec::new(),
        }
    }

    /// Adds a unit, creating its two cache entries alongside it. A unit
    /// carrying an identifier already present replaces that unit and resets
    /// its cache entries.
    pub fn add_unit(&mut self, unit: Unit)
        requires
            old(self).well_formed(),
            unit.valid(),
        ensures
            final(self).well_formed(),
            ({
                let j = spec_unit_index(old(self).units@, unit.id);
                if j >= 0 {
                    &&& final(self).units@ == old(self).units@.update(j, unit)
                    &&& final(self).units@.len() == old(self).units@.len()
                    &&& final(self).collision_cache@[j].1@.len() == 0
                    &&& final(self).view_cache@[j].1@.len() == 0
                    &&& forall|k: int| 0 <= k < old(self).units@.len() && k != j
                        ==> (#[trigger] final(self).collision_cache@[k])
                            == old(self).collision_cache@[k]
                    &&& forall|k: int| 0 <= k < old(self).units@.len() && k != j
                        ==> (#[trigger] final(self).view_cache@[k]) == old(self).view_cache@[k]
                } else {
                    &&& final(self).units@ == old(self).units@.push(unit)
                    &&& final(self).collision_cache@.len() == old(self).units@.len() + 1
                    &&& final(self).collision_cache@.last().1@.len() == 0
                    &&& final(self).view_cache@.last().1@.len() == 0
                    &&& forall|k: int| 0 <= k < old(self).units@.len()
                        ==> (#[trigger] final(self).collision_cache@[k])
                            == old(self).collision_cache@[k]
                    &&& forall|k: int| 0 <= k < old(self).units@.len()
                        ==> (#[trigger] final(self).view_cache@[k]) == old(self).view_cache@[k]
                }
            }),
    {
        proof {
            lemma_unit_index(old(self).units@, unit.id);
        }
        let uid = unit.id;
        match find_unit_index(&self.units, uid) {
            Some(j) => {
                let ghost oldu = self.units@;
                self.units.remove(j);
                self.units.insert(j, unit);
                proof {
                    assert(self.units@ =~= oldu.update(j as int, self.units@[j as int]));
                }
                self.collision_cache.remove(j);
                self.collision_cache.insert(j, (uid, Vec::new()));
                self.view_cache.remove(j);
                self.view_cache.insert(j, (uid, Vec::new()));
            },
            None => {
                self.units.push(unit);
                self.collision_cache.push((uid, Vec::new()));
                self.view_cache.push((uid, Vec::new()));
            },
        }
    }

    /// Applies one delta from the script boundary. An `UpdateState` for a
    /// dead unit, for a missing unit, for the state the unit already has,
    /// or with a target outside the world's machine limits changes nothing;
    /// otherwise it replaces the unit's state and reports the unit as
    /// changed. A `NewUnit` within the limits adds the described unit.
    pub fn apply_delta(&mut self, delta: Delta) -> (r: Option<Id>)
        requires
            old(self).well_formed(),
        ensures
            final(self).well_formed(),
            spec_delta_applied(old(self).units@, delta, final(self).units@, r),
            delta is UpdateState ==> {
                &&& final(self).collision_cache@ == old(self).collision_cache@
                &&& final(self).view_cache@ == old(self).view_cache@
            },
    {
        match delta {
            Delta::UpdateState(id, st) => {
                let ghost gst = st;
                match find_unit_index(&self.units, id) {
                    Some(j) => {
                        let is_dead = match &self.units[j].state {
                            UnitState::Dead => true,
                            _ => false,
                        };
                        let same = self.units[j].state.deep_eq(&st);
                        let targets_ok = st.targets_valid();
                        if !is_dead && !same && targets_ok {
                            let ghost oldu = self.units@;
                            let mut u = self.units.remove(j);
                            u.state = st;
                            self.units.insert(j, u);
                            proof {
                                assert(self.units@ =~= oldu.update(j as int, Unit {
                                    state: gst,
                                    ..oldu[j as int]
                                }));
                            }
                            Some(id)
                        } else {
                            None
                        }
                    },
                    None => None,
                }
            },
            Delta::NewUnit(role, id, x, y, rotation, team) => {
                if -100_000_000 <= x && x <= 100_000_000 && -100_000_000 <= y
                    && y <= 100_000_000 && rotation > i64::MIN {
                    let unit = Unit::new(role, id, x, y, rotation, team, UnitState::Idle);
                    self.add_unit(unit);
                    proof {
                        lemma_unit_index(old(self).units@, id);
                    }
                    None
                } else {
                    None
                }
            },
        }
    }
}

/// A collision pass over a table: every cache entry is replaced by the
/// fresh detection set, and the events are the per-unit reports of
/// `run_collisions`, concatenated in table order at the cut points.
pub open spec fn spec_collision_pass(units: Seq<Unit>, pre_cache: Seq<(Id, Vec<Id>)>,
    post_cache: Seq<(Id, Vec<Id>)>, events: Seq<ExecState>) -> bool {
    &&& pre_cache.len() == units.len()
    &&& post_cache.len() == units.len()
    &&& (forall|i: int| 0 <= i < units.len() ==> (#[trigger] post_cache[i]).0 == units[i].id)
    &&& (forall|i: int| 0 <= i < units.len() ==> (#[trigger] post_cache[i]).1@
        == spec_detect_collisions(units, units[i], units.len() as int))
    &&& exists|cuts: Seq<int>|
        #![trigger cuts.len()]
    {
        &&& cuts.len() == units.len() + 1
        &&& cuts[0] == 0
        &&& cuts[units.len() as int] == events.len()
        &&& (forall|i: int| 0 <= i < units.len() ==> {
            let seen = (#[trigger] pre_cache[i]).1@;
            let current = spec_detect_collisions(units, units[i], units.len() as int);
            let fresh = spec_fresh_ids(current, seen, current.len() as int);
            &&& 0 <= cuts[i] <= cuts[i + 1] <= events.len()
            &&& cuts[i + 1] - cuts[i] == fresh.len()
            &&& (forall|k: int| 0 <= k < fresh.len() ==> {
                &&& (#[trigger] events[cuts[i] + k]).0@ == spec_behavior_key(
                    units[i].role, EventType::Collision)
                &&& events[cuts[i] + k].1 == spec_snapshot(units[i])
                &&& events[cuts[i] + k].2 == Some(spec_snapshot(
                    units[spec_unit_index(units, fresh[k])]))
            })
        })
    }
}

/// A view pass over a table: every cache entry is replaced by the fresh
/// view set, and the events are the per-unit enter-view and exit-view
/// reports of `run_views`, concatenated in table order at the cut points.
pub open spec fn spec_view_pass(units: Seq<Unit>, pre_cache: Seq<(Id, Vec<Id>)>,
    post_cache: Seq<(Id, Vec<Id>)>, events: Seq<ExecState>) -> bool {
    &&& pre_cache.len() == units.len()
    &&& post_cache.len() == units.len()
    &&& (forall|i: int| 0 <= i < units.len() ==> (#[trigger] post_cache[i]).0 == units[i].id)
    &&& (forall|i: int| 0 <= i < units.len() ==> (#[trigger] post_cache[i]).1@
        == spec_detect_views(units, units[i], units.len() as int))
    &&& exists|cuts: Seq<int>|
        #![trigger cuts.len()]
    {
        &&& cuts.len() == units.len() + 1
        &&& cuts[0] == 0
        &&& cuts[units.len() as int] == events.len()
        &&& (forall|i: int| 0 <= i < units.len() ==> {
            let seen = (#[trigger] pre_cache[i]).1@;
            let current = spec_detect_views(units, units[i], units.len() as int);
            let fresh = spec_fresh_ids(current, seen, current.len() as int);
            let gone = spec_fresh_ids(seen, current, seen.len() as int);
            &&& 0 <= cuts[i] <= cuts[i + 1] <= events.len()
            &&& cuts[i + 1] - cuts[i] == fresh.len() + gone.len()
            &&& (forall|k: int| 0 <= k < fresh.len() ==> {
                &&& (#[trigger] events[cuts[i] + k]).0@ == spec_behavior_key(
                    units[i].role, EventType::EnterView)
                &&& events[cuts[i] + k].1 == spec_snapshot(units[i])
                &&& events[cuts[i] + k].2 == Some(spec_snapshot(
                    units[spec_unit_index(units, fresh[k])]))
            })
            &&& (forall|k: int| fresh.len() <= k < fresh.len() + gone.len() ==> {
                let gid = gone[k - fresh.len()];
                &&& (#[trigger] events[cuts[i] + k]).0@ == spec_behavior_key(
                    units[i].role, EventType::ExitView)
                &&& events[cuts[i] + k].1 == spec_snapshot(units[i])
                &&& events[cuts[i] + k].2 == (if spec_unit_index(units, gid) >= 0 {
                    Some(spec_snapshot(units[spec_unit_index(units, gid)]))
                } else {
                    None
                })
            })
        })
    }
}

/// One delta landing on the table, exactly as `apply_delta` does it: an
/// `UpdateState` replaces a live, present unit's differing, in-range state
/// and reports the unit changed; a `NewUnit` within the machine limits adds
/// the described unit; everything else changes nothing.
pub open spec fn spec_delta_applied(pre: Seq<Unit>, d: Delta, post: Seq<Unit>,
    r: Option<Id>) -> bool {
    match d {
        Delta::UpdateState(id, st) => {
            let j = spec_unit_index(pre, id);
            if j >= 0 && !(pre[j].state is Dead) && pre[j].state != st
                && state_targets_valid(st) {
                &&& post == pre.update(j, Unit { state: st, ..pre[j] })
                &&& r == Some(id)
            } else {
                &&& post == pre
                &&& r is None
            }
        },
        Delta::NewUnit(role, id, x, y, rotation, team) => {
            &&& r is None
            &&& if valid_coord(x as int) && valid_coord(y as int) && rotation > i64::MIN {
                let j = spec_unit_index(pre, id);
                if j >= 0 {
                    &&& post.len() == pre.len()
                    &&& is_fresh_unit(post[j], role, id, x, y, rotation, team)
                    &&& (forall|k: int| 0 <= k < pre.len() && k != j
                        ==> post[k] == pre[k])
                } else {
                    &&& post.len() == pre.len() + 1
                    &&& is_fresh_unit(post.last(), role, id, x, y, rotation, team)
                    &&& (forall|k: int| 0 <= k < pre.len() ==> post[k] == pre[k])
                }
            } else {
                post == pre
            }
        },
    }
}

/// The drained deltas landing front to back: each sees the earlier ones'
/// effects, so for one unit the last update in the drain wins. `changed`
/// collects, in order, the units an update actually changed.
pub open spec fn spec_deltas_applied(pre: Seq<Unit>, ds: Seq<Delta>, post: Seq<Unit>,
    changed: Seq<Id>) -> bool
    decreases ds.len(),
{
    if ds.len() == 0 {
        post == pre && changed.len() == 0
    } else {
        exists|units1: Seq<Unit>, r: Option<Id>|
            #![trigger spec_delta_applied(pre, ds[0], units1, r)]
        {
            &&& spec_delta_applied(pre, ds[0], units1, r)
            &&& match r {
                Some(id) => changed.len() >= 1 && changed[0] == id
                    && spec_deltas_applied(units1, ds.drop_first(), post,
                        changed.drop_first()),
                None => spec_deltas_applied(units1, ds.drop_first(), post, changed),
            }
        }
    }
}

/// One more delta lands after the earlier ones.
proof fn lemma_deltas_applied_snoc(pre: Seq<Unit>, ds: Seq<Delta>, mid2: Seq<Unit>,
    changed: Seq<Id>, d: Delta, post: Seq<Unit>, r: Option<Id>)
    requires
        spec_deltas_applied(pre, ds, mid2, changed),
        spec_delta_applied(mid2, d, post, r),
    ensures
        spec_deltas_applied(pre, ds.push(d), post, changed + (match r {
            Some(id) => seq![id],
            None => Seq::empty(),
        })),
    decreases ds.len(),
{
    let ctail = match r {
        Some(id) => seq![id],
        None => Seq::<Id>::empty(),
    };
    if ds.len() == 0 {
        assert(mid2 == pre);
        assert(changed.len() == 0);
        assert(ds.push(d)[0] == d);
        assert(ds.push(d).drop_first() =~= Seq::<Delta>::empty());
        assert(spec_delta_applied(pre, ds.push(d)[0], post, r));
        match r {
            Some(id) => {
                assert((changed + ctail).len() == 1);
                assert((changed + ctail)[0] == id);
                assert((changed + ctail).drop_first() =~= Seq::<Id>::empty());
                assert(spec_deltas_applied(post, ds.push(d).drop_first(), post,
                    (changed + ctail).drop_first()));
            },
            None => {
                assert(changed + ctail =~= changed);
                assert(spec_deltas_applied(post, ds.push(d).drop_first(), post,
                    changed + ctail));
            },
        }
    } else {
        let (units1, r0): (Seq<Unit>, Option<Id>) = choose|units1: Seq<Unit>, r0: Option<Id>|
            #![trigger spec_delta_applied(pre, ds[0], units1, r0)]
        {
            &&& spec_delta_applied(pre, ds[0], units1, r0)
            &&& match r0 {
                Some(id) => changed.len() >= 1 && changed[0] == id
                    && spec_deltas_applied(units1, ds.drop_first(), mid2,
                        changed.drop_first()),
                None => spec_deltas_applied(units1, ds.drop_first(), mid2, changed),
            }
        };
        assert(ds.push(d)[0] == ds[0]);
        assert(ds.push(d).drop_first() =~= ds.drop_first().push(d));
        match r0 {
            Some(id0) => {
                lemma_deltas_applied_snoc(units1, ds.drop_first(), mid2,
                    changed.drop_first(), d, post, r);
                assert((changed + ctail).drop_first() =~= changed.drop_first() + ctail);
                assert((changed + ctail)[0] == id0);
                assert(spec_delta_applied(pre, ds.push(d)[0], units1, r0));
            },
            None => {
                lemma_deltas_applied_snoc(units1, ds.drop_first(), mid2, changed, d,
                    post, r);
                assert(spec_delta_applied(pre, ds.push(d)[0], units1, r0));
            },
        }
    }
}

/// The live part of a table: the dead units removed, order kept.
pub open spec fn spec_live_units(units: Seq<Unit>) -> Seq<Unit>
    decreases units.len(),
{
    if units.len() == 0 {
        Seq::empty()
    } else if units[0].state is Dead {
        spec_live_units(units.drop_first())
    } else {
        seq![units[0]] + spec_live_units(units.drop_first())
    }
}

/// The state-change reports for the delta-changed units: one per collected
/// identifier still in the table, in collection order; an identifier whose
/// unit has left the world reports nothing.
pub open spec fn spec_delta_events(units: Seq<Unit>, changed: Seq<Id>,
    events: Seq<ExecState>) -> bool
    decreases changed.len(),
{
    if changed.len() == 0 {
        events.len() == 0
    } else {
        let j = spec_unit_index(units, changed[0]);
        if j >= 0 {
            &&& events.len() >= 1
            &&& events[0].0@ == spec_behavior_key(units[j].role, EventType::StateChange)
            &&& events[0].1 == spec_snapshot(units[j])
            &&& events[0].2 is None
            &&& spec_delta_events(units, changed.drop_first(), events.drop_first())
        } else {
            spec_delta_events(units, changed.drop_first(), events)
        }
    }
}

/// One more report lands after the earlier ones.
proof fn lemma_delta_events_snoc(units: Seq<Unit>, changed: Seq<Id>,
    events: Seq<ExecState>, id: Id, ev: ExecState)
    requires
        spec_delta_events(units, changed, events),
        spec_unit_index(units, id) >= 0 ==> {
            let j = spec_unit_index(units, id);
            &&& ev.0@ == spec_behavior_key(units[j].role, EventType::StateChange)
            &&& ev.1 == spec_snapshot(units[j])
            &&& ev.2 is None
        },
    ensures
        spec_unit_index(units, id) >= 0
            ==> spec_delta_events(units, changed.push(id), events.push(ev)),
        spec_unit_index(units, id) < 0
            ==> spec_delta_events(units, changed.push(id), events),
    decreases changed.len(),
{
    if changed.len() == 0 {
        assert(events.len() == 0);
        assert(changed.push(id)[0] == id);
        assert(changed.push(id).drop_first() =~= Seq::<Id>::empty());
        if spec_unit_index(units, id) >= 0 {
            assert(events.push(ev)[0] == ev);
            assert(events.push(ev).drop_first() =~= Seq::<ExecState>::empty());
            assert(spec_delta_events(units, changed.push(id).drop_first(),
                events.push(ev).drop_first()));
        } else {
            assert(spec_delta_events(units, changed.push(id).drop_first(), events));
        }
    } else {
        assert(changed.push(id)[0] == changed[0]);
        assert(changed.push(id).drop_first() =~= changed.drop_first().push(id));
        let j0 = spec_unit_index(units, changed[0]);
        if j0 >= 0 {
            lemma_delta_events_snoc(units, changed.drop_first(), events.drop_first(), id, ev);
            if spec_unit_index(units, id) >= 0 {
                assert(events.push(ev)[0] == events[0]);
                assert(events.push(ev).drop_first() =~= events.drop_first().push(ev));
            }
        } else {
            lemma_delta_events_snoc(units, changed.drop_first(), events, id, ev);
        }
    }
}

/// A report for an identifier whose unit has left the world lands nowhere.
proof fn lemma_delta_events_snoc_miss(units: Seq<Unit>, changed: Seq<Id>,
    events: Seq<ExecState>, id: Id)
    requires
        spec_delta_events(units, changed, events),
        spec_unit_index(units, id) < 0,
    ensures
        spec_delta_events(units, changed.push(id), events),
    decreases changed.len(),
{
    if changed.len() == 0 {
        assert(changed.push(id)[0] == id);
        assert(changed.push(id).drop_first() =~= Seq::<Id>::empty());
        assert(spec_delta_events(units, changed.push(id).drop_first(), events));
    } else {
        assert(changed.push(id)[0] == changed[0]);
        assert(changed.push(id).drop_first() =~= changed.drop_first().push(id));
        let j0 = spec_unit_index(units, changed[0]);
        if j0 >= 0 {
            lemma_delta_events_snoc_miss(units, changed.drop_first(), events.drop_first(), id);
        } else {
            lemma_delta_events_snoc_miss(units, changed.drop_first(), events, id);
        }
    }
}

/// The handle the tick's quantifier triggers on: one term naming all the
/// phase snapshots of a tick together.
pub open spec fn tick_phases(u1: Seq<Unit>, cc1: Seq<(Id, Vec<Id>)>,
    vc1: Seq<(Id, Vec<Id>)>, ev1: Seq<ExecState>, cc2: Seq<(Id, Vec<Id>)>,
    ev2: Seq<ExecState>, vc2: Seq<(Id, Vec<Id>)>, ev3: Seq<ExecState>, u2: Seq<Unit>,
    changed: Seq<Id>, evd: Seq<ExecState>) -> bool {
    true
}

/// One full tick of the world: every unit steps against the start-of-tick
/// snapshot and the caches follow the admitted spawns; both detections run
/// against those caches and leave them holding the fresh sets; the drained
/// deltas land front to back; dead units, and only dead units, leave the
/// table; and the returned events are the three passes' reports followed by
/// one state-change report per delta-changed unit still live.
pub open spec fn spec_tick(pre_units: Seq<Unit>, pre_cc: Seq<(Id, Vec<Id>)>,
    pre_vc: Seq<(Id, Vec<Id>)>, ds: Seq<Delta>, post_units: Seq<Unit>,
    events: Seq<ExecState>, dt_ms: int) -> bool {
    exists|u1: Seq<Unit>, cc1: Seq<(Id, Vec<Id>)>, vc1: Seq<(Id, Vec<Id>)>,
        ev1: Seq<ExecState>, cc2: Seq<(Id, Vec<Id>)>, ev2: Seq<ExecState>,
        vc2: Seq<(Id, Vec<Id>)>, ev3: Seq<ExecState>, u2: Seq<Unit>,
        changed: Seq<Id>, evd: Seq<ExecState>|
        #![trigger tick_phases(u1, cc1, vc1, ev1, cc2, ev2, vc2, ev3, u2, changed, evd)]
    {
        &&& spec_unit_pass(pre_units, u1, ev1, dt_ms)
        &&& spec_pass_caches(pre_cc, cc1, pre_units.len() as int)
        &&& spec_pass_caches(pre_vc, vc1, pre_units.len() as int)
        &&& cc1.len() == u1.len()
        &&& vc1.len() == u1.len()
        &&& spec_collision_pass(u1, cc1, cc2, ev2)
        &&& spec_view_pass(u1, vc1, vc2, ev3)
        &&& spec_deltas_applied(u1, ds, u2, changed)
        &&& post_units == spec_live_units(u2)
        &&& spec_delta_events(post_units, changed, evd)
        &&& events == ev1 + ev2 + ev3 + evd
    }
}

/// The phase snapshots of one tick witness `spec_tick`.
proof fn lemma_tick_intro(pre_units: Seq<Unit>, pre_cc: Seq<(Id, Vec<Id>)>,
    pre_vc: Seq<(Id, Vec<Id>)>, ds: Seq<Delta>, post_units: Seq<Unit>,
    events: Seq<ExecState>, dt_ms: int, u1: Seq<Unit>, cc1: Seq<(Id, Vec<Id>)>,
    vc1: Seq<(Id, Vec<Id>)>, ev1: Seq<ExecState>, cc2: Seq<(Id, Vec<Id>)>,
    ev2: Seq<ExecState>, vc2: Seq<(Id, Vec<Id>)>, ev3: Seq<ExecState>, u2: Seq<Unit>,
    changed: Seq<Id>, evd: Seq<ExecState>)
    requires
        spec_unit_pass(pre_units, u1, ev1, dt_ms),
        spec_pass_caches(pre_cc, cc1, pre_units.len() as int),
        spec_pass_caches(pre_vc, vc1, pre_units.len() as int),
        cc1.len() == u1.len(),
        vc1.len() == u1.len(),
        spec_collision_pass(u1, cc1, cc2, ev2),
        spec_view_pass(u1, vc1, vc2, ev3),
        spec_deltas_applied(u1, ds, u2, changed),
        post_units == spec_live_units(u2),
        spec_delta_events(post_units, changed, evd),
        events == ev1 + ev2 + ev3 + evd,
    ensures
        spec_tick(pre_units, pre_cc, pre_vc, ds, post_units, events, dt_ms),
{
    assert(tick_phases(u1, cc1, vc1, ev1, cc2, ev2, vc2, ev3, u2, changed, evd));
}

/// The view snapshot taken of a table at the start of a tick.
pub open spec fn spec_views_of(units: Seq<Unit>) -> Seq<(Id, Pose, UnitShape)> {
    Seq::new(units.len(), |i: int| (units[i].id, units[i].pose, units[i].shape))
}

/// The cross-unit commands the per-unit results surface, in table order.
pub open spec fn spec_commands_of(ress: Seq<UpdateResults>) -> Seq<(Id, UnitState)>
    decreases ress.len(),
{
    if ress.len() == 0 {
        Seq::empty()
    } else {
        let rest = spec_commands_of(ress.drop_first());
        match ress[0].command {
            Some(c) => seq![c] + rest,
            None => rest,
        }
    }
}

/// The spawned units the per-unit results surface, in table order.
pub open spec fn spec_spawns_of(ress: Seq<UpdateResults>) -> Seq<Unit>
    decreases ress.len(),
{
    if ress.len() == 0 {
        Seq::empty()
    } else {
        let rest = spec_spawns_of(ress.drop_first());
        match ress[0].unit {
            Some(b) => seq![b] + rest,
            None => rest,
        }
    }
}

/// One cross-unit command landing: the addressed unit, if present, takes
/// the commanded state.
pub open spec fn spec_apply_command(units: Seq<Unit>, cmd: (Id, UnitState)) -> Seq<Unit> {
    let j = spec_unit_index(units, cmd.0);
    if j >= 0 {
        units.update(j, Unit { state: cmd.1, ..units[j] })
    } else {
        units
    }
}

/// The commands landing in order.
pub open spec fn spec_apply_commands(units: Seq<Unit>, cmds: Seq<(Id, UnitState)>) -> Seq<Unit>
    decreases cmds.len(),
{
    if cmds.len() == 0 {
        units
    } else {
        spec_apply_commands(spec_apply_command(units, cmds[0]), cmds.drop_first())
    }
}

/// A spawned unit entering the table: appended, or replacing the unit that
/// already carries its identifier.
pub open spec fn spec_admit_unit(units: Seq<Unit>, u: Unit) -> Seq<Unit> {
    let j = spec_unit_index(units, u.id);
    if j >= 0 {
        units.update(j, u)
    } else {
        units.push(u)
    }
}

/// The spawned units entering in order.
pub open spec fn spec_admit_units(units: Seq<Unit>, spawned: Seq<Unit>) -> Seq<Unit>
    decreases spawned.len(),
{
    if spawned.len() == 0 {
        units
    } else {
        spec_admit_units(spec_admit_unit(units, spawned[0]), spawned.drop_first())
    }
}

/// How one tick's unit pass leaves a relationship cache: entries of units
/// that a spawn was admitted over are reset, appended units start empty,
/// and the rest keep their sets.
pub open spec fn spec_pass_caches(pre_cache: Seq<(Id, Vec<Id>)>, cache1: Seq<(Id, Vec<Id>)>,
    pre_len: int) -> bool {
    &&& (forall|i: int| 0 <= i < pre_len
        ==> (#[trigger] cache1[i]) == pre_cache[i] || cache1[i].1@.len() == 0)
    &&& (forall|i: int| pre_len <= i < cache1.len()
        ==> (#[trigger] cache1[i]).1@.len() == 0)
}

/// Whether the tick marked the identifier as changed: the unit's own step
/// changed its discrete state, or a command landed on a present unit.
pub open spec fn spec_tick_changed(pre: Seq<Unit>, mid: Seq<Unit>, cmds: Seq<(Id, UnitState)>,
    id: Id) -> bool {
    ||| exists|i: int| 0 <= i < pre.len() && (#[trigger] pre[i]).id == id
        && mid[i].state != pre[i].state
    ||| exists|k: int| 0 <= k < cmds.len() && (#[trigger] cmds[k]).0 == id
        && spec_unit_index(mid, id) >= 0
}

/// The units of a table, in order, whose identifiers were marked.
pub open spec fn spec_changed_units(units: Seq<Unit>, changed: Seq<Id>, n: int) -> Seq<Unit>
    decreases n,
{
    if n <= 0 {
        Seq::empty()
    } else {
        let prev = spec_changed_units(units, changed, n - 1);
        if changed.contains(units[n - 1].id) {
            prev.push(units[n - 1])
        } else {
            prev
        }
    }
}

/// One tick's unit pass over a table: every unit steps once against the
/// start-of-tick snapshot; the surfaced commands land after the pass, so
/// the tick stays simultaneous; the spawned units are admitted; and the
/// events are exactly one state-change report per marked unit, in final
/// table order.
pub open spec fn spec_unit_pass(pre: Seq<Unit>, post: Seq<Unit>, events: Seq<ExecState>,
    dt_ms: int) -> bool {
    exists|mid: Seq<Unit>, ress: Seq<UpdateResults>, changed: Seq<Id>|
        #![trigger mid.len(), ress.len(), changed.len()]
    {
        &&& mid.len() == pre.len()
        &&& ress.len() == pre.len()
        &&& changed.len() >= 0
        &&& (forall|i: int| 0 <= i < pre.len()
            ==> spec_unit_step(#[trigger] pre[i], mid[i], ress[i], dt_ms, spec_views_of(pre)))
        &&& (forall|id: Id| #[trigger] changed.contains(id)
            <==> spec_tick_changed(pre, mid, spec_commands_of(ress), id))
        &&& post == spec_admit_units(
            spec_apply_commands(mid, spec_commands_of(ress)), spec_spawns_of(ress))
        &&& ({
            let cu = spec_changed_units(post, changed, post.len() as int);
            &&& events.len() == cu.len()
            &&& (forall|k: int| 0 <= k < cu.len() ==> {
                &&& (#[trigger] events[k]).0@ == spec_behavior_key(
                    cu[k].role, EventType::StateChange)
                &&& events[k].1 == spec_snapshot(cu[k])
                &&& events[k].2 is None
            })
        })
    }
}

/// Appending a result appends its command, if any.
proof fn lemma_commands_of_snoc(ress: Seq<UpdateResults>, r: UpdateResults)
    ensures
        spec_commands_of(ress.push(r)) == spec_commands_of(ress) + (match r.command {
            Some(c) => seq![c],
            None => Seq::empty(),
        }),
    decreases ress.len(),
{
    let tail = match r.command {
        Some(c) => seq![c],
        None => Seq::<(Id, UnitState)>::empty(),
    };
    if ress.len() == 0 {
        assert(ress.push(r)[0] == r);
        assert(ress.push(r).drop_first() =~= ress);
        assert(spec_commands_of(ress.push(r).drop_first()) == spec_commands_of(ress));
        assert(spec_commands_of(ress) =~= Seq::<(Id, UnitState)>::empty());
        match r.command {
            Some(c0) => {
                assert(spec_commands_of(ress.push(r))
                    == seq![c0] + spec_commands_of(ress.push(r).drop_first()));
                assert(seq![c0] + spec_commands_of(ress) =~= spec_commands_of(ress) + seq![c0]);
            },
            None => {
                assert(spec_commands_of(ress.push(r))
                    == spec_commands_of(ress.push(r).drop_first()));
                assert(spec_commands_of(ress) =~= spec_commands_of(ress) + tail);
            },
        }
    } else {
        assert(ress.push(r)[0] == ress[0]);
        assert(ress.push(r).drop_first() =~= ress.drop_first().push(r));
        assert(spec_commands_of(ress.push(r).drop_first())
            == spec_commands_of(ress.drop_first().push(r)));
        lemma_commands_of_snoc(ress.drop_first(), r);
        let rec = spec_commands_of(ress.drop_first());
        assert(spec_commands_of(ress.drop_first().push(r)) == rec + tail);
        match ress[0].command {
            Some(c0) => {
                assert(spec_commands_of(ress.push(r)) == seq![c0] + (rec + tail));
                assert(spec_commands_of(ress) == seq![c0] + rec);
                assert(seq![c0] + (rec + tail) =~= (seq![c0] + rec) + tail);
            },
            None => {
                assert(spec_commands_of(ress.push(r)) == rec + tail);
                assert(spec_commands_of(ress) == rec);
            },
        }
    }
}

/// Appending a result appends its spawned unit, if any.
proof fn lemma_spawns_of_snoc(ress: Seq<UpdateResults>, r: UpdateResults)
    ensures
        spec_spawns_of(ress.push(r)) == spec_spawns_of(ress) + (match r.unit {
            Some(b) => seq![b],
            None => Seq::empty(),
        }),
    decreases ress.len(),
{
    let tail = match r.unit {
        Some(b) => seq![b],
        None => Seq::<Unit>::empty(),
    };
    if ress.len() == 0 {
        assert(ress.push(r)[0] == r);
        assert(ress.push(r).drop_first() =~= ress);
        assert(spec_spawns_of(ress.push(r).drop_first()) == spec_spawns_of(ress));
        assert(spec_spawns_of(ress) =~= Seq::<Unit>::empty());
        match r.unit {
            Some(b0) => {
                assert(spec_spawns_of(ress.push(r))
                    == seq![b0] + spec_spawns_of(ress.push(r).drop_first()));
                assert(seq![b0] + spec_spawns_of(ress) =~= spec_spawns_of(ress) + seq![b0]);
            },
            None => {
                assert(spec_spawns_of(ress.push(r))
                    == spec_spawns_of(ress.push(r).drop_first()));
                assert(spec_spawns_of(ress) =~= spec_spawns_of(ress) + tail);
            },
        }
    } else {
        assert(ress.push(r)[0] == ress[0]);
        assert(ress.push(r).drop_first() =~= ress.drop_first().push(r));
        assert(spec_spawns_of(ress.push(r).drop_first())
            == spec_spawns_of(ress.drop_first().push(r)));
        lemma_spawns_of_snoc(ress.drop_first(), r);
        let rec = spec_spawns_of(ress.drop_first());
        assert(spec_spawns_of(ress.drop_first().push(r)) == rec + tail);
        match ress[0].unit {
            Some(b0) => {
                assert(spec_spawns_of(ress.push(r)) == seq![b0] + (rec + tail));
                assert(spec_spawns_of(ress) == seq![b0] + rec);
                assert(seq![b0] + (rec + tail) =~= (seq![b0] + rec) + tail);
            },
            None => {
                assert(spec_spawns_of(ress.push(r)) == rec + tail);
                assert(spec_spawns_of(ress) == rec);
            },
        }
    }
}

/// Landing one more command lands after the earlier ones.
proof fn lemma_apply_commands_snoc(units: Seq<Unit>, cmds: Seq<(Id, UnitState)>,
    c: (Id, UnitState))
    ensures
        spec_apply_commands(units, cmds.push(c))
            == spec_apply_command(spec_apply_commands(units, cmds), c),
    decreases cmds.len(),
{
    if cmds.len() == 0 {
        assert(cmds.push(c)[0] == c);
        assert(cmds.push(c).drop_first() =~= cmds);
        assert(spec_apply_commands(units, cmds.push(c))
            == spec_apply_commands(spec_apply_command(units, c), cmds.push(c).drop_first()));
        assert(spec_apply_commands(spec_apply_command(units, c), cmds)
            == spec_apply_command(units, c));
        assert(spec_apply_commands(units, cmds) == units);
    } else {
        assert(cmds.push(c)[0] == cmds[0]);
        assert(cmds.push(c).drop_first() =~= cmds.drop_first().push(c));
        let one = spec_apply_command(units, cmds[0]);
        lemma_apply_commands_snoc(one, cmds.drop_first(), c);
        assert(spec_apply_commands(units, cmds.push(c))
            == spec_apply_commands(one, cmds.drop_first().push(c)));
        assert(spec_apply_commands(units, cmds) == spec_apply_commands(one, cmds.drop_first()));
    }
}

/// Admitting one more spawn admits after the earlier ones.
proof fn lemma_admit_units_snoc(units: Seq<Unit>, spawned: Seq<Unit>, b: Unit)
    ensures
        spec_admit_units(units, spawned.push(b))
            == spec_admit_unit(spec_admit_units(units, spawned), b),
    decreases spawned.len(),
{
    if spawned.len() == 0 {
        assert(spawned.push(b)[0] == b);
        assert(spawned.push(b).drop_first() =~= spawned);
        assert(spec_admit_units(units, spawned.push(b))
            == spec_admit_units(spec_admit_unit(units, b), spawned.push(b).drop_first()));
        assert(spec_admit_units(spec_admit_unit(units, b), spawned)
            == spec_admit_unit(units, b));
        assert(spec_admit_units(units, spawned) == units);
    } else {
        assert(spawned.push(b)[0] == spawned[0]);
        assert(spawned.push(b).drop_first() =~= spawned.drop_first().push(b));
        let one = spec_admit_unit(units, spawned[0]);
        lemma_admit_units_snoc(one, spawned.drop_first(), b);
        assert(spec_admit_units(units, spawned.push(b))
            == spec_admit_units(one, spawned.drop_first().push(b)));
        assert(spec_admit_units(units, spawned) == spec_admit_units(one, spawned.drop_first()));
    }
}

/// Landing commands never changes which identifier sits at which position.
proof fn lemma_apply_commands_ids(units: Seq<Unit>, cmds: Seq<(Id, UnitState)>)
    ensures
        spec_apply_commands(units, cmds).len() == units.len(),
        forall|k: int| 0 <= k < units.len()
            ==> (#[trigger] spec_apply_commands(units, cmds)[k]).id == units[k].id,
    decreases cmds.len(),
{
    if cmds.len() > 0 {
        let one = spec_apply_command(units, cmds[0]);
        lemma_unit_index(units, cmds[0].0);
        assert(one.len() == units.len());
        assert(forall|k: int| 0 <= k < units.len() ==> (#[trigger] one[k]).id == units[k].id);
        lemma_apply_commands_ids(one, cmds.drop_first());
    }
}

/// Where an identifier first sits depends only on the identifiers.
proof fn lemma_unit_index_same_ids(a: Seq<Unit>, b: Seq<Unit>, id: Id)
    requires
        a.len() == b.len(),
        forall|k: int| 0 <= k < a.len() ==> (#[trigger] a[k]).id == b[k].id,
    ensures
        spec_unit_index(a, id) == spec_unit_index(b, id),
    decreases a.len(),
{
    if a.len() > 0 {
        assert(a[0].id == b[0].id);
        assert forall|k: int| 0 <= k < a.drop_first().len() implies
            (#[trigger] a.drop_first()[k]).id == b.drop_first()[k].id by {
            assert(a.drop_first()[k] == a[k + 1]);
            assert(b.drop_first()[k] == b[k + 1]);
        }
        lemma_unit_index_same_ids(a.drop_first(), b.drop_first(), id);
    }
}

impl State {
    /// Runs collision detection for every unit, replacing each cache entry
    /// with the freshly detected set. After the pass, every unit's cache
    /// entry equals its current overlap set exactly, and the events are the
    /// per-unit edge-triggered collision reports concatenated in table
    /// order: `spec_collision_pass` against the caches before and after.
    pub fn run_all_collisions(&mut self) -> (events: Vec<ExecState>)
        requires
            old(self).well_formed(),
        ensures
            final(self).well_formed(),
            final(self).units@ == old(self).units@,
            final(self).view_cache@ == old(self).view_cache@,
            spec_collision_pass(old(self).units@, old(self).collision_cache@,
                final(self).collision_cache@, events@),
    {
        let mut events: Vec<ExecState> = Vec::new();
        let mut new_cache: Vec<(Id, Vec<Id>)> = Vec::new();
        let n = self.units.len();
        let mut i: usize = 0;
        let ghost mut cuts: Seq<int> = seq![0];
        while i < n
            invariant
                0 <= i <= n,
                n == self.units@.len(),
                self.well_formed(),
                self.units@ == old(self).units@,
                self.collision_cache@ == old(self).collision_cache@,
                self.view_cache@ == old(self).view_cache@,
                new_cache@.len() == i,
                forall|k: int| 0 <= k < i
                    ==> (#[trigger] new_cache@[k]).0 == self.units@[k].id,
                forall|k: int| 0 <= k < i
                    ==> (#[trigger] new_cache@[k]).1@ == spec_detect_collisions(
                        self.units@, self.units@[k], self.units@.len() as int),
                cuts.len() == i + 1,
                cuts[0] == 0,
                cuts[i as int] == events@.len(),
                forall|k: int| 0 <= k < i ==> {
                    let seen = (#[trigger] self.collision_cache@[k]).1@;
                    let current = spec_detect_collisions(
                        self.units@, self.units@[k], self.units@.len() as int);
                    let fresh = spec_fresh_ids(current, seen, current.len() as int);
                    &&& 0 <= cuts[k] <= cuts[k + 1] <= events@.len()
                    &&& cuts[k + 1] - cuts[k] == fresh.len()
                    &&& (forall|j: int| 0 <= j < fresh.len() ==> {
                        &&& (#[trigger] events@[cuts[k] + j]).0@ == spec_behavior_key(
                            self.units@[k].role, EventType::Collision)
                        &&& events@[cuts[k] + j].1 == spec_snapshot(self.units@[k])
                        &&& events@[cuts[k] + j].2 == Some(spec_snapshot(
                            self.units@[spec_unit_index(self.units@, fresh[j])]))
                    })
                },
            decreases n - i,
        {
            proof {
                assert(self.units@[i as int].valid());
            }
            let ghost old_events = events@;
            let ghost old_cuts = cuts;
            let (current, mut evs) = run_collisions(
                &mut self.interpreter, &self.units[i], &self.collision_cache[i].1, &self.units);
            let ghost g_evs = evs@;
            events.append(&mut evs);
            let uid = self.units[i].id;
            new_cache.push((uid, current));
            proof {
                cuts = old_cuts.push(events@.len() as int);
                assert(events@ =~= old_events + g_evs);
                let seen = self.collision_cache@[i as int].1@;
                let current_s = spec_detect_collisions(
                    self.units@, self.units@[i as int], self.units@.len() as int);
                let fresh = spec_fresh_ids(current_s, seen, current_s.len() as int);
                assert(g_evs.len() == fresh.len());
                assert(cuts[i as int] == old_events.len());
                assert(cuts[i + 1] == events@.len());
                assert forall|j: int| 0 <= j < fresh.len() implies {
                    &&& (#[trigger] events@[cuts[i as int] + j]).0@ == spec_behavior_key(
                        self.units@[i as int].role, EventType::Collision)
                    &&& events@[cuts[i as int] + j].1 == spec_snapshot(self.units@[i as int])
                    &&& events@[cuts[i as int] + j].2 == Some(spec_snapshot(
                        self.units@[spec_unit_index(self.units@, fresh[j])]))
                } by {
                    assert(events@[cuts[i as int] + j] == g_evs[j]);
                }
                assert forall|k: int| 0 <= k < i + 1 implies {
                    let seen2 = (#[trigger] self.collision_cache@[k]).1@;
                    let current2 = spec_detect_collisions(
                        self.units@, self.units@[k], self.units@.len() as int);
                    let fresh2 = spec_fresh_ids(current2, seen2, current2.len() as int);
                    &&& 0 <= cuts[k] <= cuts[k + 1] <= events@.len()
                    &&& cuts[k + 1] - cuts[k] == fresh2.len()
                    &&& (forall|j: int| 0 <= j < fresh2.len() ==> {
                        &&& (#[trigger] events@[cuts[k] + j]).0@ == spec_behavior_key(
                            self.units@[k].role, EventType::Collision)
                        &&& events@[cuts[k] + j].1 == spec_snapshot(self.units@[k])
                        &&& events@[cuts[k] + j].2 == Some(spec_snapshot(
                            self.units@[spec_unit_index(self.units@, fresh2[j])]))
                    })
                } by {
                    if k < i {
                        assert(cuts[k] == old_cuts[k]);
                        assert(cuts[k + 1] == old_cuts[k + 1]);
                        let seen2 = self.collision_cache@[k].1@;
                        let current2 = spec_detect_collisions(
                            self.units@, self.units@[k], self.units@.len() as int);
                        let fresh2 = spec_fresh_ids(current2, seen2, current2.len() as int);
                        assert forall|j: int| 0 <= j < fresh2.len() implies {
                            &&& (#[trigger] events@[cuts[k] + j]).0@ == spec_behavior_key(
                                self.units@[k].role, EventType::Collision)
                            &&& events@[cuts[k] + j].1 == spec_snapshot(self.units@[k])
                            &&& events@[cuts[k] + j].2 == Some(spec_snapshot(
                                self.units@[spec_unit_index(self.units@, fresh2[j])]))
                        } by {
                            assert(events@[cuts[k] + j] == old_events[old_cuts[k] + j]);
                        }
                    }
                }
            }
            i = i + 1;
        }
        self.collision_cache = new_cache;
        proof {
            assert(spec_collision_pass(old(self).units@, old(self).collision_cache@,
                self.collision_cache@, events@)) by {
                assert(cuts.len() == old(self).units@.len() + 1);
                assert(cuts[old(self).units@.len() as int] == events@.len());
            }
        }
        events
    }

    /// Runs view detection for every unit, replacing each cache entry with
    /// the freshly detected set. After the pass, every unit's cache entry
    /// equals its current view set exactly, and the events are the per-unit
    /// enter-view and exit-view reports concatenated in table order:
    /// `spec_view_pass` against the caches before and after.
    pub fn run_all_views(&mut self) -> (events: Vec<ExecState>)
        requires
            old(self).well_formed(),
        ensures
            final(self).well_formed(),
            final(self).units@ == old(self).units@,
            final(self).collision_cache@ == old(self).collision_cache@,
            spec_view_pass(old(self).units@, old(self).view_cache@,
                final(self).view_cache@, events@),
    {
        let mut events: Vec<ExecState> = Vec::new();
        let mut new_cache: Vec<(Id, Vec<Id>)> = Vec::new();
        let n = self.units.len();
        let mut i: usize = 0;
        let ghost mut cuts: Seq<int> = seq![0];
        while i < n
            invariant
                0 <= i <= n,
                n == self.units@.len(),
                self.well_formed(),
                self.units@ == old(self).units@,
                self.collision_cache@ == old(self).collision_cache@,
                self.view_cache@ == old(self).view_cache@,
                new_cache@.len() == i,
                forall|k: int| 0 <= k < i
                    ==> (#[trigger] new_cache@[k]).0 == self.units@[k].id,
                forall|k: int| 0 <= k < i
                    ==> (#[trigger] new_cache@[k]).1@ == spec_detect_views(
                        self.units@, self.units@[k], self.units@.len() as int),
                cuts.len() == i + 1,
                cuts[0] == 0,
                cuts[i as int] == events@.len(),
                forall|k: int| 0 <= k < i ==> {
                    let seen = (#[trigger] self.view_cache@[k]).1@;
                    let current = spec_detect_views(
                        self.units@, self.units@[k], self.units@.len() as int);
                    let fresh = spec_fresh_ids(current, seen, current.len() as int);
                    let gone = spec_fresh_ids(seen, current, seen.len() as int);
                    &&& 0 <= cuts[k] <= cuts[k + 1] <= events@.len()
                    &&& cuts[k + 1] - cuts[k] == fresh.len() + gone.len()
                    &&& (forall|j: int| 0 <= j < fresh.len() ==> {
                        &&& (#[trigger] events@[cuts[k] + j]).0@ == spec_behavior_key(
                            self.units@[k].role, EventType::EnterView)
                        &&& events@[cuts[k] + j].1 == spec_snapshot(self.units@[k])
                        &&& events@[cuts[k] + j].2 == Some(spec_snapshot(
                            self.units@[spec_unit_index(self.units@, fresh[j])]))
                    })
                    &&& (forall|j: int| fresh.len() <= j < fresh.len() + gone.len() ==> {
                        let gid = gone[j - fresh.len()];
                        &&& (#[trigger] events@[cuts[k] + j]).0@ == spec_behavior_key(
                            self.units@[k].role, EventType::ExitView)
                        &&& events@[cuts[k] + j].1 == spec_snapshot(self.units@[k])
                        &&& events@[cuts[k] + j].2 == (if spec_unit_index(
                            self.units@, gid) >= 0 {
                            Some(spec_snapshot(
                                self.units@[spec_unit_index(self.units@, gid)]))
                        } else {
                            None
                        })
                    })
                },
            decreases n - i,
        {
            proof {
                assert(self.units@[i as int].valid());
            }
            let ghost old_events = events@;
            let ghost old_cuts = cuts;
            let (current, mut evs) = run_views(
                &mut self.interpreter, &self.units[i], &self.view_cache[i].1, &self.units);
            let ghost g_evs = evs@;
            events.append(&mut evs);
            let uid = self.units[i].id;
            new_cache.push((uid, current));
            proof {
                cuts = old_cuts.push(events@.len() as int);
                assert(events@ =~= old_events + g_evs);
                let seen = self.view_cache@[i as int].1@;
                let current_s = spec_detect_views(
                    self.units@, self.units@[i as int], self.units@.len() as int);
                let fresh = spec_fresh_ids(current_s, seen, current_s.len() as int);
                let gone = spec_fresh_ids(seen, current_s, seen.len() as int);
                assert(g_evs.len() == fresh.len() + gone.len());
                assert(cuts[i as int] == old_events.len());
                assert(cuts[i + 1] == events@.len());
                assert forall|j: int| 0 <= j < fresh.len() + gone.len() implies
                    #[trigger] events@[cuts[i as int] + j] == g_evs[j] by {}
                assert forall|k: int| 0 <= k < i + 1 implies {
                    let seen2 = (#[trigger] self.view_cache@[k]).1@;
                    let current2 = spec_detect_views(
                        self.units@, self.units@[k], self.units@.len() as int);
                    let fresh2 = spec_fresh_ids(current2, seen2, current2.len() as int);
                    let gone2 = spec_fresh_ids(seen2, current2, seen2.len() as int);
                    &&& 0 <= cuts[k] <= cuts[k + 1] <= events@.len()
                    &&& cuts[k + 1] - cuts[k] == fresh2.len() + gone2.len()
                    &&& (forall|j: int| 0 <= j < fresh2.len() ==> {
                        &&& (#[trigger] events@[cuts[k] + j]).0@ == spec_behavior_key(
                            self.units@[k].role, EventType::EnterView)
                        &&& events@[cuts[k] + j].1 == spec_snapshot(self.units@[k])
                        &&& events@[cuts[k] + j].2 == Some(spec_snapshot(
                            self.units@[spec_unit_index(self.units@, fresh2[j])]))
                    })
                    &&& (forall|j: int| fresh2.len() <= j < fresh2.len() + gone2.len() ==> {
                        let gid = gone2[j - fresh2.len()];
                        &&& (#[trigger] events@[cuts[k] + j]).0@ == spec_behavior_key(
                            self.units@[k].role, EventType::ExitView)
                        &&& events@[cuts[k] + j].1 == spec_snapshot(self.units@[k])
                        &&& events@[cuts[k] + j].2 == (if spec_unit_index(
                            self.units@, gid) >= 0 {
                            Some(spec_snapshot(
                                self.units@[spec_unit_index(self.units@, gid)]))
                        } else {
                            None
                        })
                    })
                } by {
                    if k < i {
                        assert(cuts[k] == old_cuts[k]);
                        assert(cuts[k + 1] == old_cuts[k + 1]);
                        let seen2 = self.view_cache@[k].1@;
                        let current2 = spec_detect_views(
                            self.units@, self.units@[k], self.units@.len() as int);
                        let fresh2 = spec_fresh_ids(current2, seen2, current2.len() as int);
                        let gone2 = spec_fresh_ids(seen2, current2, seen2.len() as int);
                        assert forall|j: int| 0 <= j < fresh2.len() + gone2.len() implies
                            #[trigger] events@[cuts[k] + j] == old_events[old_cuts[k] + j] by {}
                    }
                }
            }
            i = i + 1;
        }
        self.view_cache = new_cache;
        proof {
            assert(spec_view_pass(old(self).units@, old(self).view_cache@,
                self.view_cache@, events@)) by {
                assert(cuts.len() == old(self).units@.len() + 1);
                assert(cuts[old(self).units@.len() as int] == events@.len());
            }
        }
        events
    }

    /// Advances every unit's state machine by one tick against a snapshot
    /// of all units taken at the start of the pass, lands the surfaced
    /// cross-unit commands after the pass, admits the spawned units, and
    /// reports exactly one state-change event per unit whose discrete state
    /// the pass changed, in table order: `spec_unit_pass` of the tables
    /// before and after.
    #[verifier::spinoff_prover]
    #[verifier::rlimit(100)]
    pub fn run_all_unit_updates(&mut self, dt_ms: u64) -> (events: Vec<ExecState>)
        requires
            old(self).well_formed(),
            dt_ms <= 3_600_000,
        ensures
            final(self).well_formed(),
            final(self).units@.len() >= old(self).units@.len(),
            spec_unit_pass(old(self).units@, final(self).units@, events@, dt_ms as int),
            spec_pass_caches(old(self).collision_cache@, final(self).collision_cache@,
                old(self).units@.len() as int),
            spec_pass_caches(old(self).view_cache@, final(self).view_cache@,
                old(self).units@.len() as int),
    {
        let ghost pre = old(self).units@;
        // The simultaneous snapshot every unit sees this tick.
        let mut views: Views = Vec::new();
        let mut i: usize = 0;
        let n = self.units.len();
        while i < n
            invariant
                0 <= i <= n,
                n == self.units@.len(),
                self.well_formed(),
                self.units@ == pre,
                views@.len() == i,
                forall|k: int| 0 <= k < i ==> #[trigger] views@[k]
                    == (self.units@[k].id, self.units@[k].pose, self.units@[k].shape),
            decreases n - i,
        {
            let u = &self.units[i];
            views.push((u.id, u.pose, u.shape));
            i = i + 1;
        }
        proof {
            assert(views@ =~= spec_views_of(pre));
            assert forall|k: int| 0 <= k < views@.len() implies {
                &&& (#[trigger] views@[k]).1.valid()
                &&& views@[k].1.rotation > i64::MIN
                &&& views@[k].2.valid()
            } by {
                assert(self.units@[k].valid());
            }
        }

        let ghost mut g_mid: Seq<Unit> = Seq::empty();
        let ghost mut g_ress: Seq<UpdateResults> = Seq::empty();
        let mut changed: Vec<Id> = Vec::new();
        let mut commands: Vec<(Id, UnitState)> = Vec::new();
        let mut spawned: Vec<Unit> = Vec::new();
        let mut i2: usize = 0;
        proof {
            assert(commands@ =~= spec_commands_of(g_ress));
            assert(spawned@ =~= spec_spawns_of(g_ress));
        }
        while i2 < n
            invariant
                0 <= i2 <= n,
                n == pre.len(),
                n == self.units@.len(),
                self.well_formed(),
                views@ == spec_views_of(pre),
                views_valid(views@),
                dt_ms <= 3_600_000,
                g_mid.len() == i2 as int,
                g_ress.len() == i2 as int,
                forall|k: int| 0 <= k < i2 ==> self.units@[k] == g_mid[k],
                forall|k: int| i2 <= k < n ==> self.units@[k] == pre[k],
                forall|k: int| 0 <= k < i2 ==> spec_unit_step(
                    #[trigger] pre[k], g_mid[k], g_ress[k], dt_ms as int, views@),
                commands@ == spec_commands_of(g_ress),
                spawned@ == spec_spawns_of(g_ress),
                forall|id: Id| #[trigger] changed@.contains(id) <==> exists|k: int|
                    0 <= k < i2 && (#[trigger] pre[k]).id == id
                    && g_mid[k].state != pre[k].state,
                forall|k: int| 0 <= k < commands@.len()
                    ==> state_targets_valid((#[trigger] commands@[k]).1),
                forall|k: int| 0 <= k < spawned@.len()
                    ==> (#[trigger] spawned@[k]).valid(),
                self.collision_cache@ == old(self).collision_cache@,
                self.view_cache@ == old(self).view_cache@,
            decreases n - i2,
        {
            let ghost old_changed = changed@;
            let ghost old_ress = g_ress;
            proof {
                assert(self.units@[i2 as int].valid());
            }
            let mut u = self.units.remove(i2);
            let prev_state = u.state.duplicate();
            let res = u.update(dt_ms, &views);
            let ghost gres = res;
            let ghost gu = u;
            proof {
                assert(state_targets_valid(pre[i2 as int].state));
            }
            if !u.state.deep_eq(&prev_state) {
                changed.push(u.id);
            }
            match res.command {
                Some((cid, cst)) => {
                    commands.push((cid, cst));
                },
                None => {},
            }
            match res.unit {
                Some(b) => {
                    spawned.push(b);
                },
                None => {},
            }
            self.units.insert(i2, u);
            proof {
                g_mid = g_mid.push(gu);
                g_ress = old_ress.push(gres);
                lemma_commands_of_snoc(old_ress, gres);
                assert(commands@ =~= spec_commands_of(g_ress));
                lemma_spawns_of_snoc(old_ress, gres);
                assert(spawned@ =~= spec_spawns_of(g_ress));
                // The marked set gains this unit's identifier exactly when
                // its discrete state changed.
                assert(gu.id == pre[i2 as int].id);
                assert forall|id: Id| #[trigger] changed@.contains(id) implies exists|k: int|
                    0 <= k < i2 + 1 && (#[trigger] pre[k]).id == id
                    && g_mid[k].state != pre[k].state by {
                    if old_changed.contains(id) {
                        let k = choose|k: int| 0 <= k < i2
                            && (#[trigger] pre[k]).id == id && g_mid[k].state != pre[k].state;
                        assert(0 <= k < i2 + 1 && pre[k].id == id
                            && g_mid[k].state != pre[k].state);
                    } else {
                        let j = choose|j: int| 0 <= j < changed@.len() && changed@[j] == id;
                        assert(j == changed@.len() - 1);
                        assert(id == gu.id);
                        assert(pre[i2 as int].id == id
                            && g_mid[i2 as int].state != pre[i2 as int].state);
                    }
                }
                assert forall|id: Id| (exists|k: int| 0 <= k < i2 + 1
                    && (#[trigger] pre[k]).id == id && g_mid[k].state != pre[k].state)
                    implies #[trigger] changed@.contains(id) by {
                    let k = choose|k: int| 0 <= k < i2 + 1
                        && (#[trigger] pre[k]).id == id && g_mid[k].state != pre[k].state;
                    if k < i2 {
                        assert(old_changed.contains(id));
                        let j = choose|j: int| 0 <= j < old_changed.len()
                            && old_changed[j] == id;
                        assert(changed@[j] == id);
                    } else {
                        assert(changed@[changed@.len() - 1] == id);
                    }
                }
            }
            i2 = i2 + 1;
        }
        proof {
            assert(g_mid =~= self.units@);
        }
        let ghost mid = self.units@;
        let ghost all_cmds = spec_commands_of(g_ress);

        // Cross-unit commands land after every unit has moved, so the tick
        // stays simultaneous. A command marks its unit as changed whether or
        // not the state it imposes differs.
        let ghost mut done: Seq<(Id, UnitState)> = Seq::empty();
        proof {
            assert(done + commands@ =~= all_cmds);
            assert(spec_apply_commands(mid, done) == mid);
        }
        while commands.len() > 0
            invariant
                self.well_formed(),
                mid.len() == pre.len(),
                done + commands@ == all_cmds,
                self.units@ == spec_apply_commands(mid, done),
                self.units@.len() == mid.len(),
                forall|k: int| 0 <= k < mid.len()
                    ==> (#[trigger] self.units@[k]).id == mid[k].id,
                forall|id: Id| #[trigger] changed@.contains(id) <==> {
                    ||| exists|k: int| 0 <= k < pre.len() && (#[trigger] pre[k]).id == id
                        && mid[k].state != pre[k].state
                    ||| exists|k: int| 0 <= k < done.len() && (#[trigger] done[k]).0 == id
                        && spec_unit_index(mid, id) >= 0
                },
                forall|k: int| 0 <= k < commands@.len()
                    ==> state_targets_valid((#[trigger] commands@[k]).1),
                forall|k: int| 0 <= k < spawned@.len()
                    ==> (#[trigger] spawned@[k]).valid(),
                spawned@ == spec_spawns_of(g_ress),
                self.collision_cache@ == old(self).collision_cache@,
                self.view_cache@ == old(self).view_cache@,
            decreases commands@.len(),
        {
            let ghost old_done = done;
            let ghost old_units = self.units@;
            let ghost old_changed = changed@;
            let (cid, cst) = commands.remove(0);
            let ghost gc = (cid, cst);
            proof {
                assert((old_done + (seq![gc] + commands@))[old_done.len() as int] == gc);
                done = old_done.push(gc);
                assert(seq![gc] + commands@ =~= (seq![gc] + commands@));
                assert(done + commands@ =~= all_cmds);
                lemma_apply_commands_snoc(mid, old_done, gc);
            }
            let found = find_unit_index(&self.units, cid);
            proof {
                lemma_unit_index_same_ids(old_units, mid, cid);
            }
            match found {
                Some(j) => {
                    let ghost oldu = self.units@;
                    let mut u = self.units.remove(j);
                    u.state = cst;
                    self.units.insert(j, u);
                    proof {
                        assert(self.units@ =~= oldu.update(j as int, self.units@[j as int]));
                        assert(self.units@ =~= spec_apply_command(old_units, gc));
                    }
                    if !ids_contain(&changed, cid) {
                        changed.push(cid);
                    }
                    proof {
                        assert(spec_unit_index(mid, cid) >= 0);
                        assert forall|id: Id| #[trigger] changed@.contains(id) implies {
                            ||| exists|k: int| 0 <= k < pre.len()
                                && (#[trigger] pre[k]).id == id && mid[k].state != pre[k].state
                            ||| exists|k: int| 0 <= k < done.len()
                                && (#[trigger] done[k]).0 == id
                                && spec_unit_index(mid, id) >= 0
                        } by {
                            if old_changed.contains(id) {
                                if !(exists|k: int| 0 <= k < pre.len()
                                    && (#[trigger] pre[k]).id == id
                                    && mid[k].state != pre[k].state) {
                                    let k = choose|k: int| 0 <= k < old_done.len()
                                        && (#[trigger] old_done[k]).0 == id
                                        && spec_unit_index(mid, id) >= 0;
                                    assert(done[k] == old_done[k]);
                                    assert((#[trigger] done[k]).0 == id);
                                }
                            } else {
                                let j2 = choose|j2: int| 0 <= j2 < changed@.len()
                                    && changed@[j2] == id;
                                assert(id == cid);
                                assert((#[trigger] done[done.len() - 1]).0 == id);
                            }
                        }
                        assert forall|id: Id| ({
                            ||| exists|k: int| 0 <= k < pre.len()
                                && (#[trigger] pre[k]).id == id && mid[k].state != pre[k].state
                            ||| exists|k: int| 0 <= k < done.len()
                                && (#[trigger] done[k]).0 == id
                                && spec_unit_index(mid, id) >= 0
                        }) implies #[trigger] changed@.contains(id) by {
                            if old_changed.contains(id) {
                                let j2 = choose|j2: int| 0 <= j2 < old_changed.len()
                                    && old_changed[j2] == id;
                                assert(changed@[j2] == id);
                            } else if id == cid {
                                if changed@ != old_changed {
                                    assert(changed@[changed@.len() - 1] == cid);
                                } else {
                                    assert(old_changed.contains(cid));
                                }
                            } else {
                                if exists|k: int| 0 <= k < done.len()
                                    && (#[trigger] done[k]).0 == id
                                    && spec_unit_index(mid, id) >= 0 {
                                    let k = choose|k: int| 0 <= k < done.len()
                                        && (#[trigger] done[k]).0 == id
                                        && spec_unit_index(mid, id) >= 0;
                                    assert(k < old_done.len());
                                    assert((#[trigger] old_done[k]).0 == id);
                                    assert(old_changed.contains(id));
                                }
                            }
                        }
                    }
                },
                None => {
                    proof {
                        assert(spec_unit_index(old_units, cid) < 0);
                        assert(spec_unit_index(mid, cid) < 0);
                        assert(self.units@ =~= spec_apply_command(old_units, gc));
                        assert forall|id: Id| #[trigger] changed@.contains(id) implies {
                            ||| exists|k: int| 0 <= k < pre.len()
                                && (#[trigger] pre[k]).id == id && mid[k].state != pre[k].state
                            ||| exists|k: int| 0 <= k < done.len()
                                && (#[trigger] done[k]).0 == id
                                && spec_unit_index(mid, id) >= 0
                        } by {
                            if !(exists|k: int| 0 <= k < pre.len()
                                && (#[trigger] pre[k]).id == id
                                && mid[k].state != pre[k].state) {
                                let k = choose|k: int| 0 <= k < old_done.len()
                                    && (#[trigger] old_done[k]).0 == id
                                    && spec_unit_index(mid, id) >= 0;
                                assert(done[k] == old_done[k]);
                                assert((#[trigger] done[k]).0 == id);
                            }
                        }
                        assert forall|id: Id| ({
                            ||| exists|k: int| 0 <= k < pre.len()
                                && (#[trigger] pre[k]).id == id && mid[k].state != pre[k].state
                            ||| exists|k: int| 0 <= k < done.len()
                                && (#[trigger] done[k]).0 == id
                                && spec_unit_index(mid, id) >= 0
                        }) implies #[trigger] changed@.contains(id) by {
                            if exists|k: int| 0 <= k < done.len() && (#[trigger] done[k]).0 == id
                                && spec_unit_index(mid, id) >= 0 {
                                let k = choose|k: int| 0 <= k < done.len()
                                    && (#[trigger] done[k]).0 == id
                                    && spec_unit_index(mid, id) >= 0;
                                if k == done.len() - 1 {
                                    assert(id == cid);
                                    assert(false);
                                } else {
                                    assert((#[trigger] old_done[k]).0 == id);
                                }
                            }
                        }
                    }
                },
            }
        }
        proof {
            assert(done =~= all_cmds);
        }
        let ghost after_cmds = self.units@;
        let ghost all_spawns = spec_spawns_of(g_ress);

        let ghost mut sdone: Seq<Unit> = Seq::empty();
        proof {
            assert(sdone + spawned@ =~= all_spawns);
            assert(spec_admit_units(after_cmds, sdone) == after_cmds);
        }
        while spawned.len() > 0
            invariant
                self.well_formed(),
                sdone + spawned@ == all_spawns,
                self.units@ == spec_admit_units(after_cmds, sdone),
                self.units@.len() >= after_cmds.len(),
                after_cmds.len() == pre.len(),
                spec_pass_caches(old(self).collision_cache@, self.collision_cache@,
                    pre.len() as int),
                spec_pass_caches(old(self).view_cache@, self.view_cache@, pre.len() as int),
                forall|k: int| 0 <= k < spawned@.len()
                    ==> (#[trigger] spawned@[k]).valid(),
            decreases spawned@.len(),
        {
            let ghost old_sdone = sdone;
            let ghost old_units = self.units@;
            let b = spawned.remove(0);
            let ghost gb = b;
            proof {
                sdone = old_sdone.push(gb);
                assert(sdone + spawned@ =~= all_spawns);
                lemma_admit_units_snoc(after_cmds, old_sdone, gb);
                lemma_unit_index(old_units, gb.id);
            }
            self.add_unit(b);
            proof {
                assert(self.units@ =~= spec_admit_unit(old_units, gb));
            }
        }
        proof {
            assert(sdone =~= all_spawns);
        }
        let ghost post = self.units@;

        // One state-change report per marked unit, in table order.
        let mut events: Vec<ExecState> = Vec::new();
        let mut i3: usize = 0;
        while i3 < self.units.len()
            invariant
                0 <= i3 <= self.units@.len(),
                self.well_formed(),
                self.units@ == post,
                post.len() >= pre.len(),
                spec_pass_caches(old(self).collision_cache@, self.collision_cache@,
                    pre.len() as int),
                spec_pass_caches(old(self).view_cache@, self.view_cache@, pre.len() as int),
                ({
                    let cu = spec_changed_units(post, changed@, i3 as int);
                    &&& events@.len() == cu.len()
                    &&& (forall|k: int| 0 <= k < cu.len() ==> {
                        &&& (#[trigger] events@[k]).0@ == spec_behavior_key(
                            cu[k].role, EventType::StateChange)
                        &&& events@[k].1 == spec_snapshot(cu[k])
                        &&& events@[k].2 is None
                    })
                }),
            decreases self.units@.len() - i3,
        {
            let ghost prev_cu = spec_changed_units(post, changed@, i3 as int);
            let uid = self.units[i3].id;
            if ids_contain(&changed, uid) {
                let role = self.units[i3].role;
                let ev = self.interpreter.exec(
                    &role, &EventType::StateChange, &self.units[i3], None);
                events.push(ev);
            }
            proof {
                let cu = spec_changed_units(post, changed@, i3 + 1);
                if changed@.contains(post[i3 as int].id) {
                    assert(cu == prev_cu.push(post[i3 as int]));
                } else {
                    assert(cu == prev_cu);
                }
                assert forall|k: int| 0 <= k < cu.len() implies {
                    &&& (#[trigger] events@[k]).0@ == spec_behavior_key(
                        cu[k].role, EventType::StateChange)
                    &&& events@[k].1 == spec_snapshot(cu[k])
                    &&& events@[k].2 is None
                } by {
                    if k < prev_cu.len() {
                        assert(cu[k] == prev_cu[k]);
                    }
                }
            }
            i3 = i3 + 1;
        }
        proof {
            // The three ghost sequences witness the pass.
            let cmds_w = spec_commands_of(g_ress);
            assert({
                &&& g_mid.len() == pre.len()
                &&& g_ress.len() == pre.len()
                &&& changed@.len() >= 0
                &&& (forall|i4: int| 0 <= i4 < pre.len() ==> spec_unit_step(
                    #[trigger] pre[i4], g_mid[i4], g_ress[i4], dt_ms as int,
                    spec_views_of(pre)))
                &&& (forall|id: Id| #[trigger] changed@.contains(id)
                    <==> spec_tick_changed(pre, g_mid, cmds_w, id))
                &&& post == spec_admit_units(
                    spec_apply_commands(g_mid, cmds_w), spec_spawns_of(g_ress))
                &&& ({
                    let cu = spec_changed_units(post, changed@, post.len() as int);
                    &&& events@.len() == cu.len()
                    &&& (forall|k: int| 0 <= k < cu.len() ==> {
                        &&& (#[trigger] events@[k]).0@ == spec_behavior_key(
                            cu[k].role, EventType::StateChange)
                        &&& events@[k].1 == spec_snapshot(cu[k])
                        &&& events@[k].2 is None
                    })
                })
            });
            assert(spec_unit_pass(pre, post, events@, dt_ms as int));
        }
        events
    }

    /// One full tick: every unit's state machine advances against the
    /// start-of-tick snapshot, relationship transitions are detected against
    /// the caches and reported, the drained deltas are applied front to
    /// back, dead units leave the world together with their cache entries,
    /// and each delta-changed unit still live reports a state change. The
    /// whole pipeline is `spec_tick` of the state before and after; no dead
    /// unit remains in the table.
    #[verifier::spinoff_prover]
    #[verifier::rlimit(100)]
    pub fn update(&mut self, dt_ms: u64, incoming: Vec<Delta>) -> (events: Vec<ExecState>)
        requires
            old(self).well_formed(),
            dt_ms <= 3_600_000,
        ensures
            final(self).well_formed(),
            forall|i: int| 0 <= i < final(self).units@.len()
                ==> !((#[trigger] final(self).units@[i]).state is Dead),
            spec_tick(old(self).units@, old(self).collision_cache@, old(self).view_cache@,
                incoming@, final(self).units@, events@, dt_ms as int),
    {
        let mut events = self.run_all_unit_updates(dt_ms);
        let ghost u1 = self.units@;
        let ghost cc1 = self.collision_cache@;
        let ghost vc1 = self.view_cache@;
        let ghost ev1 = events@;
        let mut ev2v = self.run_all_collisions();
        let ghost ev2 = ev2v@;
        let ghost cc2 = self.collision_cache@;
        events.append(&mut ev2v);
        let mut ev3v = self.run_all_views();
        let ghost ev3 = ev3v@;
        let ghost vc2 = self.view_cache@;
        events.append(&mut ev3v);

        // Drain the deltas that the script workers and the timeline have
        // completed; within the tick they land in arrival order, so for one
        // unit the last delta of the drain wins.
        let ghost all_ds = incoming@;
        let mut incoming = incoming;
        let ghost mut pd: Seq<Delta> = Seq::empty();
        let mut changed: Vec<Id> = Vec::new();
        proof {
            assert(pd + incoming@ =~= all_ds);
            assert(self.units@ == u1);
            assert(spec_deltas_applied(u1, pd, self.units@, changed@));
        }
        while incoming.len() > 0
            invariant
                self.well_formed(),
                pd + incoming@ == all_ds,
                spec_deltas_applied(u1, pd, self.units@, changed@),
            decreases incoming@.len(),
        {
            let ghost old_pd = pd;
            let ghost old_units = self.units@;
            let ghost old_changed = changed@;
            let d = incoming.remove(0);
            let ghost gd = d;
            proof {
                assert((old_pd + (seq![gd] + incoming@))[old_pd.len() as int] == gd);
                pd = old_pd.push(gd);
                assert(pd + incoming@ =~= all_ds);
            }
            let r = self.apply_delta(d);
            match r {
                Some(id) => {
                    changed.push(id);
                },
                None => {},
            }
            proof {
                lemma_deltas_applied_snoc(u1, old_pd, old_units, old_changed, gd,
                    self.units@, r);
                match r {
                    Some(id) => {
                        assert(changed@ =~= old_changed + seq![id]);
                    },
                    None => {
                        assert(changed@ =~= old_changed + Seq::<Id>::empty());
                    },
                }
            }
        }
        proof {
            assert(pd =~= all_ds);
        }
        let ghost u2 = self.units@;
        let ghost all_changed = changed@;

        // Dead units leave the table, their cache entries with them.
        let mut i: usize = 0;
        let ghost mut p: int = 0;
        proof {
            assert(u2.skip(0) =~= u2);
            assert(self.units@.subrange(0, 0) =~= Seq::<Unit>::empty());
            assert(spec_live_units(u2)
                =~= self.units@.subrange(0, 0) + spec_live_units(u2.skip(0)));
        }
        while i < self.units.len()
            invariant
                self.well_formed(),
                0 <= i <= self.units@.len(),
                0 <= p <= u2.len(),
                self.units@.len() - i == u2.len() - p,
                forall|k: int| 0 <= k < i
                    ==> !((#[trigger] self.units@[k]).state is Dead),
                self.units@.skip(i as int) == u2.skip(p),
                spec_live_units(u2)
                    == self.units@.subrange(0, i as int) + spec_live_units(u2.skip(p)),
                changed@ == all_changed,
            decreases self.units@.len() - i,
        {
            let ghost old_units = self.units@;
            proof {
                assert(old_units[i as int] == old_units.skip(i as int)[0]);
                assert(old_units[i as int] == u2.skip(p)[0]);
                assert(u2.skip(p).drop_first() =~= u2.skip(p + 1));
            }
            let is_dead = match &self.units[i].state {
                UnitState::Dead => true,
                _ => false,
            };
            if is_dead {
                self.units.remove(i);
                self.collision_cache.remove(i);
                self.view_cache.remove(i);
                proof {
                    p = p + 1;
                    assert(self.units@.subrange(0, i as int)
                        =~= old_units.subrange(0, i as int));
                    assert(self.units@.skip(i as int) =~= old_units.skip(i + 1));
                    assert(old_units.skip(i + 1) =~= u2.skip(p));
                    assert(spec_live_units(u2.skip(p - 1)) == spec_live_units(u2.skip(p)));
                }
            } else {
                proof {
                    p = p + 1;
                    assert(self.units@.subrange(0, i + 1)
                        =~= self.units@.subrange(0, i as int).push(self.units@[i as int]));
                    assert(self.units@.skip(i + 1) =~= u2.skip(p));
                    assert(spec_live_units(u2.skip(p - 1))
                        =~= seq![u2[p - 1]] + spec_live_units(u2.skip(p)));
                    assert(spec_live_units(u2) =~= self.units@.subrange(0, i + 1)
                        + spec_live_units(u2.skip(p)));
                }
                i = i + 1;
            }
        }
        proof {
            assert(u2.skip(p).len() == 0);
            assert(spec_live_units(u2.skip(p)) =~= Seq::<Unit>::empty());
            assert(self.units@.subrange(0, i as int) =~= self.units@);
            assert(self.units@ =~= spec_live_units(u2));
        }
        let ghost post_units = self.units@;

        // Units changed by a delta, and still alive, report a state change.
        let mut evdv: Vec<ExecState> = Vec::new();
        let ghost mut cdone: Seq<Id> = Seq::empty();
        proof {
            assert(cdone + changed@ =~= all_changed);
            assert(spec_delta_events(post_units, cdone, evdv@));
        }
        while changed.len() > 0
            invariant
                self.well_formed(),
                self.units@ == post_units,
                cdone + changed@ == all_changed,
                spec_delta_events(post_units, cdone, evdv@),
                forall|k: int| 0 <= k < self.units@.len()
                    ==> !((#[trigger] self.units@[k]).state is Dead),
            decreases changed@.len(),
        {
            let ghost old_cdone = cdone;
            let ghost old_evd = evdv@;
            let id = changed.remove(0);
            proof {
                assert((old_cdone + (seq![id] + changed@))[old_cdone.len() as int] == id);
                cdone = old_cdone.push(id);
                assert(cdone + changed@ =~= all_changed);
            }
            match find_unit_index(&self.units, id) {
                Some(j) => {
                    let role = self.units[j].role;
                    let ev = self.interpreter.exec(
                        &role, &EventType::StateChange, &self.units[j], None);
                    evdv.push(ev);
                    proof {
                        assert(evdv@ =~= old_evd.push(evdv@[old_evd.len() as int]));
                        lemma_delta_events_snoc(post_units, old_cdone, old_evd, id,
                            evdv@[old_evd.len() as int]);
                    }
                },
                None => {
                    proof {
                        lemma_delta_events_snoc_miss(post_units, old_cdone, old_evd, id);
                    }
                },
            }
        }
        proof {
            assert(cdone =~= all_changed);
        }
        let ghost evd = evdv@;
        events.append(&mut evdv);
        proof {
            assert(events@ =~= ev1 + ev2 + ev3 + evd);
            lemma_tick_intro(old(self).units@, old(self).collision_cache@,
                old(self).view_cache@, all_ds, self.units@, events@, dt_ms as int,
                u1, cc1, vc1, ev1, cc2, ev2, vc2, ev3, u2, all_changed, evd);
        }
        events
    }
}

} // verus!
