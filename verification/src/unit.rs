//! Units: role, behavioural state, the state machine run once per tick, and
//! the textual form states are written in across the script boundary.
use vstd::prelude::*;

use crate::geometry::{Pose, valid_coord, spec_move_towards, spec_rotate_step, spec_norm_angle,
    spec_bearing, normalize_angle, COORD_MAX};
use crate::ident::{Id, id_is_v4, spec_id_text, id_to_text};
use crate::shape::{body_poly, fov_poly, range_poly, point_poly, polys_intersect,
    spec_polys_intersect, spec_body_poly, spec_fov_poly, spec_range_poly, spec_point_poly,
    lemma_polys_intersect_symmetric, spec_pose_sin, spec_pose_cos, sin_pm, cos_pm};
use crate::parser;
use crate::parser::{TokenType, word_run, symbol_run, sep_len, id_shape, spec_id_at,
    spec_fixed_text, spec_fixed_pos, push_fixed, FLOAT_WHOLE_MAX, float_ok, float_val,
    float_next, lemma_fixed_parses, lemma_id_text_parses, lemma_symbol_run_exact,
    lemma_word_run_exact, is_symbol_byte, is_word_byte, is_digit_byte};
use crate::shape::UnitShape;

verus! {

/// What a unit is: fixes its body size and speed at construction, and the
/// behaviour scripts that apply to it. Never changes after creation.
#[derive(Clone, Copy, Debug, PartialEq, Eq, Structural)]
pub enum UnitRole {
    Soldier,
    General,
    Bullet,
}

/// Body half width of a role, in coordinate hundredths.
pub open spec fn spec_role_half_width(role: UnitRole) -> int {
    match role {
        UnitRole::Soldier => 1250,
        UnitRole::General => 2500,
        UnitRole::Bullet => 250,
    }
}

/// Speed of a role, in coordinate hundredths per second.
pub open spec fn spec_role_speed(role: UnitRole) -> int {
    match role {
        UnitRole::Soldier => 10_000,
        UnitRole::General => 10_000,
        UnitRole::Bullet => 15_000,
    }
}

/// The textual name of a role.
pub open spec fn spec_role_text(role: UnitRole) -> Seq<u8> {
    match role {
        UnitRole::Soldier => seq![115u8, 111, 108, 100, 105, 101, 114],
        UnitRole::General => seq![103u8, 101, 110, 101, 114, 97, 108],
        UnitRole::Bullet => seq![98u8, 117, 108, 108, 101, 116],
    }
}

impl UnitRole {
    /// The role's name, as codec text.
    pub fn to_text(&self) -> (r: Vec<u8>)
        ensures
            r@ == spec_role_text(*self),
    {
        let mut v: Vec<u8> = Vec::new();
        match self {
            UnitRole::Soldier => {
                v.push(115); v.push(111); v.push(108); v.push(100);
                v.push(105); v.push(101); v.push(114);
            },
            UnitRole::General => {
                v.push(103); v.push(101); v.push(110); v.push(101);
                v.push(114); v.push(97); v.push(108);
            },
            UnitRole::Bullet => {
                v.push(98); v.push(117); v.push(108); v.push(108);
                v.push(101); v.push(116);
            },
        }
        proof {
            assert(v@ =~= spec_role_text(*self));
        }
        v
    }

    /// Reads a role name back; succeeds exactly on the three role texts.
    pub fn from_text(s: &[u8]) -> (r: Result<UnitRole, Vec<u8>>)
        ensures
            match r {
                Ok(role) => s@ == spec_role_text(role),
                Err(e) => {
                    &&& s@ != spec_role_text(UnitRole::Soldier)
                    &&& s@ != spec_role_text(UnitRole::General)
                    &&& s@ != spec_role_text(UnitRole::Bullet)
                    &&& e@ == s@
                },
            },
    {
        if s.len() == 7 && s[0] == 115 && s[1] == 111 && s[2] == 108 && s[3] == 100
            && s[4] == 105 && s[5] == 101 && s[6] == 114 {
            proof {
                assert(s@ =~= spec_role_text(UnitRole::Soldier));
            }
            Ok(UnitRole::Soldier)
        } else if s.len() == 7 && s[0] == 103 && s[1] == 101 && s[2] == 110 && s[3] == 101
            && s[4] == 114 && s[5] == 97 && s[6] == 108 {
            proof {
                assert(s@ =~= spec_role_text(UnitRole::General));
            }
            Ok(UnitRole::General)
        } else if s.len() == 6 && s[0] == 98 && s[1] == 117 && s[2] == 108 && s[3] == 108
            && s[4] == 101 && s[5] == 116 {
            proof {
                assert(s@ =~= spec_role_text(UnitRole::Bullet));
            }
            Ok(UnitRole::Bullet)
        } else {
            let mut v: Vec<u8> = Vec::new();
            let mut i: usize = 0;
            while i < s.len()
                invariant
                    0 <= i <= s@.len(),
                    v@ == s@.subrange(0, i as int),
                decreases s@.len() - i,
            {
                v.push(s[i]);
                proof {
                    assert(v@ =~= s@.subrange(0, i + 1));
                }
                i = i + 1;
            }
            proof {
                assert(v@ =~= s@);
            }
            Err(v)
        }
    }
}

/// A unit's behavioural state. `Dead` is terminal: once set, no further
/// transition is accepted.
#[derive(Debug, PartialEq)]
pub enum UnitState {
    Command(Id, Box<UnitState>),
    Dead,
    Idle,
    Look(i64, i64),
    Move(i64, i64),
    Shoot(Id),
}

/// Whether every coordinate a state carries lies within the world's machine
/// limit, so that the state machine's arithmetic stays exact.
pub open spec fn state_targets_valid(st: UnitState) -> bool
    decreases st,
{
    match st {
        UnitState::Move(x, y) => valid_coord(x as int) && valid_coord(y as int),
        UnitState::Look(x, y) => valid_coord(x as int) && valid_coord(y as int),
        UnitState::Command(_, nested) => state_targets_valid(*nested),
        _ => true,
    }
}

/// The codec text of a state.
pub open spec fn spec_state_text(st: UnitState) -> Seq<u8>
    decreases st,
{
    match st {
        UnitState::Dead => seq![100u8, 101, 97, 100],
        UnitState::Idle => seq![105u8, 100, 108, 101],
        UnitState::Move(x, y) => seq![109u8, 111, 118, 101, 40] + spec_fixed_text(x as int)
            + seq![44u8, 32] + spec_fixed_text(y as int) + seq![41u8],
        UnitState::Look(x, y) => seq![108u8, 111, 111, 107, 40] + spec_fixed_text(x as int)
            + seq![44u8, 32] + spec_fixed_text(y as int) + seq![41u8],
        UnitState::Shoot(id) => seq![115u8, 104, 111, 111, 116, 40] + spec_id_text(id)
            + seq![41u8],
        UnitState::Command(id, nested) => seq![99u8, 111, 109, 109, 97, 110, 100, 40]
            + spec_id_text(id) + seq![44u8, 32] + spec_state_text(*nested) + seq![41u8],
    }
}

fn push_state_text(out: &mut Vec<u8>, st: &UnitState)
    requires
        state_text_encodable(*st),
    ensures
        final(out)@ == old(out)@ + spec_state_text(*st),
    decreases st,
{
    match st {
        UnitState::Dead => {
            out.push(100); out.push(101); out.push(97); out.push(100);
            proof {
                assert(out@ =~= old(out)@ + spec_state_text(*st));
            }
        },
        UnitState::Idle => {
            out.push(105); out.push(100); out.push(108); out.push(101);
            proof {
                assert(out@ =~= old(out)@ + spec_state_text(*st));
            }
        },
        UnitState::Move(x, y) => {
            out.push(109); out.push(111); out.push(118); out.push(101); out.push(40);
            push_fixed(out, *x);
            out.push(44); out.push(32);
            push_fixed(out, *y);
            out.push(41);
            proof {
                assert(out@ =~= old(out)@ + spec_state_text(*st));
            }
        },
        UnitState::Look(x, y) => {
            out.push(108); out.push(111); out.push(111); out.push(107); out.push(40);
            push_fixed(out, *x);
            out.push(44); out.push(32);
            push_fixed(out, *y);
            out.push(41);
            proof {
                assert(out@ =~= old(out)@ + spec_state_text(*st));
            }
        },
        UnitState::Shoot(id) => {
            out.push(115); out.push(104); out.push(111); out.push(111); out.push(116);
            out.push(40);
            let mut idt = id_to_text(*id);
            out.append(&mut idt);
            out.push(41);
            proof {
                assert(out@ =~= old(out)@ + spec_state_text(*st));
            }
        },
        UnitState::Command(id, nested) => {
            out.push(99); out.push(111); out.push(109); out.push(109); out.push(97);
            out.push(110); out.push(100); out.push(40);
            let mut idt = id_to_text(*id);
            out.append(&mut idt);
            out.push(44); out.push(32);
            push_state_text(out, nested);
            out.push(41);
            proof {
                assert(out@ =~= old(out)@ + spec_state_text(*st));
            }
        },
    }
}

/// Whether a state's coordinates can be negated without overflow when the
/// codec writes their sign.
pub open spec fn state_text_encodable(st: UnitState) -> bool
    decreases st,
{
    match st {
        UnitState::Move(x, y) => x > i64::MIN && y > i64::MIN,
        UnitState::Look(x, y) => x > i64::MIN && y > i64::MIN,
        UnitState::Command(_, nested) => state_text_encodable(*nested),
        _ => true,
    }
}

impl UnitState {
    /// The state's codec text.
    pub fn to_text(&self) -> (r: Vec<u8>)
        requires
            state_text_encodable(*self),
        ensures
            r@ == spec_state_text(*self),
    {
        let mut out: Vec<u8> = Vec::new();
        push_state_text(&mut out, self);
        out
    }

    /// Structural equality, usable from verified code.
    pub fn deep_eq(&self, other: &UnitState) -> (r: bool)
        ensures
            r == (*self == *other),
        decreases self,
    {
        match (self, other) {
            (UnitState::Dead, UnitState::Dead) => true,
            (UnitState::Idle, UnitState::Idle) => true,
            (UnitState::Move(x1, y1), UnitState::Move(x2, y2)) => x1 == x2 && y1 == y2,
            (UnitState::Look(x1, y1), UnitState::Look(x2, y2)) => x1 == x2 && y1 == y2,
            (UnitState::Shoot(i1), UnitState::Shoot(i2)) => i1 == i2,
            (UnitState::Command(i1, s1), UnitState::Command(i2, s2)) =>
                i1 == i2 && s1.deep_eq(s2),
            _ => false,
        }
    }

    /// Reads a state back from codec text; succeeds exactly when
    /// `spec_decode_state` accepts the whole text.
    pub fn from_text(s: &[u8]) -> (r: Result<UnitState, parser::Error>)
        ensures
            match r {
                Ok(st) => spec_decode_state(s@, 0) == Some(st),
                Err(e) => {
                    &&& spec_decode_state(s@, 0) is None
                    &&& (e.0@, e.1) == spec_decode_state_err(s@, 0)
                },
            },
    {
        decode_state_at(s, 0)
    }

    /// Whether every coordinate this state carries lies within the world's
    /// machine limit.
    pub fn targets_valid(&self) -> (r: bool)
        ensures
            r == state_targets_valid(*self),
        decreases self,
    {
        match self {
            UnitState::Move(x, y) => -100_000_000 <= *x && *x <= 100_000_000
                && -100_000_000 <= *y && *y <= 100_000_000,
            UnitState::Look(x, y) => -100_000_000 <= *x && *x <= 100_000_000
                && -100_000_000 <= *y && *y <= 100_000_000,
            UnitState::Command(_, nested) => nested.targets_valid(),
            _ => true,
        }
    }

    /// Reads a state back from codec text starting at `pos`.
    pub fn from_text_at(s: &[u8], pos: usize) -> (r: Result<UnitState, parser::Error>)
        requires
            pos <= s@.len(),
        ensures
            match r {
                Ok(st) => spec_decode_state(s@, pos as int) == Some(st),
                Err(e) => {
                    &&& spec_decode_state(s@, pos as int) is None
                    &&& (e.0@, e.1) == spec_decode_state_err(s@, pos as int)
                },
            },
    {
        decode_state_at(s, pos)
    }

    /// A value copy, with its contents stated.
    pub fn duplicate(&self) -> (r: UnitState)
        ensures
            r == *self,
        decreases self,
    {
        match self {
            UnitState::Dead => UnitState::Dead,
            UnitState::Idle => UnitState::Idle,
            UnitState::Move(x, y) => UnitState::Move(*x, *y),
            UnitState::Look(x, y) => UnitState::Look(*x, *y),
            UnitState::Shoot(id) => UnitState::Shoot(*id),
            UnitState::Command(id, nested) => UnitState::Command(
                *id, Box::new(nested.duplicate())),
        }
    }
}

/// The snapshot map handed to a unit's update: every live unit's pose and
/// body shape, keyed by identifier, taken once at the start of the tick.
pub type Views = Vec<(Id, Pose, UnitShape)>;

/// The first entry of a view snapshot carrying the given identifier.
pub open spec fn spec_view_of(views: Seq<(Id, Pose, UnitShape)>, id: Id) -> Option<(Pose, UnitShape)>
    decreases views.len(),
{
    if views.len() == 0 {
        None
    } else if views[0].0 == id {
        Some((views[0].1, views[0].2))
    } else {
        spec_view_of(views.drop_first(), id)
    }
}

/// Every pose and shape of a view snapshot lies within the world's machine
/// limits.
pub open spec fn views_valid(views: Seq<(Id, Pose, UnitShape)>) -> bool {
    forall|i: int| 0 <= i < views.len() ==> {
        &&& (#[trigger] views[i]).1.valid()
        &&& views[i].1.rotation > i64::MIN
        &&& views[i].2.valid()
    }
}

proof fn lemma_view_of_valid(views: Seq<(Id, Pose, UnitShape)>, id: Id)
    requires
        views_valid(views),
    ensures
        match spec_view_of(views, id) {
            Some((p, sh)) => p.valid() && p.rotation > i64::MIN && sh.valid(),
            None => true,
        },
    decreases views.len(),
{
    if views.len() > 0 && views[0].0 != id {
        assert(views_valid(views.drop_first()));
        lemma_view_of_valid(views.drop_first(), id);
    }
}

/// Looks an identifier up in a view snapshot.
pub fn find_view(views: &Views, id: Id) -> (r: Option<(Pose, UnitShape)>)
    ensures
        r == spec_view_of(views@, id),
{
    let mut i: usize = 0;
    proof {
        assert(views@.skip(0) =~= views@);
    }
    while i < views.len()
        invariant
            0 <= i <= views@.len(),
            spec_view_of(views@, id) == spec_view_of(views@.skip(i as int), id),
        decreases views@.len() - i,
    {
        let (vid, p, sh) = views[i];
        proof {
            assert(views@.skip(i as int)[0] == views@[i as int]);
            assert(views@.skip(i as int).drop_first() =~= views@.skip(i + 1));
        }
        if vid == id {
            return Some((p, sh));
        }
        i = i + 1;
    }
    proof {
        assert(views@.skip(views@.len() as int).len() == 0);
    }
    None
}

/// What a unit's per-tick update hands back to the world: a freshly spawned
/// unit, or a state to impose on another unit.
#[derive(Debug)]
pub struct UpdateResults {
    pub unit: Option<Unit>,
    pub command: Option<(Id, UnitState)>,
}

impl UpdateResults {
    pub fn empty() -> (r: UpdateResults)
        ensures
            r.unit is None,
            r.command is None,
    {
        UpdateResults { unit: None, command: None }
    }

    pub fn from_unit(unit: Unit) -> (r: UpdateResults)
        ensures
            r.unit == Some(unit),
            r.command is None,
    {
        UpdateResults { unit: Some(unit), command: None }
    }

    pub fn from_command(id: Id, state: UnitState) -> (r: UpdateResults)
        ensures
            r.unit is None,
            r.command == Some((id, state)),
    {
        UpdateResults { unit: None, command: Some((id, state)) }
    }
}

/// The state a unit resumes when the current one completes: the top of the
/// queue, or idling.
pub open spec fn spec_next_state(q: Seq<UnitState>) -> UnitState {
    if q.len() == 0 { UnitState::Idle } else { q.last() }
}

/// The queue after the top state was taken.
pub open spec fn spec_popped_queue(q: Seq<UnitState>) -> Seq<UnitState> {
    if q.len() == 0 { q } else { q.drop_last() }
}

/// A simulated entity: identity, team, role, pose, body shape and the
/// behavioural state machine, with the queue of states to resume.
#[derive(Debug)]
pub struct Unit {
    pub id: Id,
    pub team: usize,
    pub pose: Pose,
    pub width: i64,
    pub speed: i64,
    pub shape: UnitShape,
    pub role: UnitRole,
    pub state: UnitState,
    pub state_queue: Vec<UnitState>,
}

/// A unit's body polygon in the world.
pub open spec fn spec_unit_body(u: Unit) -> Seq<(i128, i128)> {
    spec_body_poly(u.pose, u.shape.half_width as int)
}

/// Whether two units' body volumes intersect.
pub open spec fn spec_unit_overlaps(a: Unit, b: Unit) -> bool {
    spec_polys_intersect(spec_unit_body(a), spec_unit_body(b))
}

/// Whether `a`'s field-of-view wedge reaches `b`'s body.
pub open spec fn spec_unit_can_see(a: Unit, b: Unit) -> bool {
    spec_polys_intersect(spec_fov_poly(a.pose), spec_unit_body(b))
}

/// Whether a body at the given pose and shape lies in `a`'s weapon-range
/// wedge.
pub open spec fn spec_can_shoot(a: Unit, p: Pose, sh: UnitShape) -> bool {
    spec_polys_intersect(spec_range_poly(a.pose), spec_body_poly(p, sh.half_width as int))
}

/// Whether the point lies in `a`'s field-of-view wedge.
pub open spec fn spec_can_see_point(a: Unit, x: int, y: int) -> bool {
    spec_polys_intersect(spec_fov_poly(a.pose), spec_point_poly(x, y))
}

/// Overlap is symmetric: the bodies are tested against the union of both
/// edge-axis sets, whichever unit asks.
pub proof fn lemma_overlaps_symmetric(a: Unit, b: Unit)
    ensures
        spec_unit_overlaps(a, b) == spec_unit_overlaps(b, a),
{
    lemma_polys_intersect_symmetric(spec_unit_body(a), spec_unit_body(b));
}

/// The angular budget of one tick, in hundredths of a radian: 1.2 radians
/// per second.
pub open spec fn spec_turn_budget(dt_ms: int) -> int {
    120 * dt_ms / 1000
}

/// The travel budget of one tick for a speed, in coordinate hundredths.
pub open spec fn spec_step_budget(speed: int, dt_ms: int) -> int {
    speed * dt_ms / 1000
}

/// Per-mille scaling down, truncated towards zero as the machine divides.
pub open spec fn spec_div_pm(v: int) -> int {
    if v >= 0 { v / 1000 } else { -((-v) / 1000) }
}

/// A coordinate held within the world's machine limit.
pub open spec fn spec_clamp_coord(c: int) -> int {
    if c > COORD_MAX as int {
        COORD_MAX as int
    } else if c < -(COORD_MAX as int) {
        -(COORD_MAX as int)
    } else {
        c
    }
}

/// Where a spawned bullet starts: one body width ahead of the shooter along
/// its current heading (the nose direction of the normalized heading),
/// clamped to the world's machine limit at its very edge.
pub open spec fn spec_spawn_pose(p: Pose, width: int) -> Pose {
    let ox = spec_div_pm(width * spec_pose_sin(p));
    let oy = spec_div_pm(-(width * spec_pose_cos(p)));
    Pose {
        x: spec_clamp_coord(p.x as int + ox) as i64,
        y: spec_clamp_coord(p.y as int + oy) as i64,
        rotation: p.rotation,
    }
}

/// A pose after turning towards a target and then moving towards it, as the
/// pursuing states do each tick.
pub open spec fn spec_pursue(p: Pose, x: int, y: int, turn: int, step: int) -> Pose {
    let rot = spec_rotate_step(
        spec_norm_angle(p.rotation as int),
        spec_bearing(x - p.x as int, y - p.y as int),
        turn,
    );
    let moved = spec_move_towards(Pose { x: p.x, y: p.y, rotation: rot as i64 }, x, y, step);
    Pose { x: moved.0 as i64, y: moved.1 as i64, rotation: rot as i64 }
}

/// One tick of a unit's state machine: how the unit after the tick and the
/// surfaced results relate to the unit before it, under the given view
/// snapshot. This is exactly `Unit::update`'s behaviour, named so that the
/// world's per-tick pipeline can state it of every unit it advances.
pub open spec fn spec_unit_step(pre: Unit, post: Unit, r: UpdateResults, dt_ms: int,
    views: Seq<(Id, Pose, UnitShape)>) -> bool {
    &&& post.id == pre.id
    &&& post.team == pre.team
    &&& post.role == pre.role
    &&& post.width == pre.width
    &&& post.speed == pre.speed
    &&& post.shape == pre.shape
    &&& ({
                let turn = spec_turn_budget(dt_ms);
                let step = spec_step_budget(pre.speed as int, dt_ms);
                let pop_state = spec_next_state(pre.state_queue@);
                let pop_queue = spec_popped_queue(pre.state_queue@);
                match pre.state {
                    UnitState::Idle | UnitState::Dead => {
                        &&& post == pre
                        &&& r.unit is None
                        &&& r.command is None
                    },
                    UnitState::Move(x, y) => {
                        let moved = spec_move_towards(pre.pose, x as int, y as int, step);
                        let snapped = moved.0 == x as int && moved.1 == y as int;
                        &&& post.pose == (Pose {
                            x: moved.0 as i64,
                            y: moved.1 as i64,
                            rotation: pre.pose.rotation,
                        })
                        &&& post.state == if snapped { pop_state } else { pre.state }
                        &&& post.state_queue@ == if snapped { pop_queue }
                            else { pre.state_queue@ }
                        &&& r.unit is None
                        &&& r.command is None
                    },
                    UnitState::Look(x, y) => {
                        let seen = spec_can_see_point(pre, x as int, y as int);
                        &&& post.pose == spec_pursue(
                            pre.pose, x as int, y as int, turn, step)
                        &&& post.state == if seen { pop_state } else { pre.state }
                        &&& post.state_queue@ == if seen { pop_queue }
                            else { pre.state_queue@ }
                        &&& r.unit is None
                        &&& r.command is None
                    },
                    UnitState::Shoot(tid) => match spec_view_of(views, tid) {
                        None => {
                            &&& post.pose == pre.pose
                            &&& post.state == pop_state
                            &&& post.state_queue@ == pop_queue
                            &&& r.unit is None
                            &&& r.command is None
                        },
                        Some((tp, tsh)) => {
                            if spec_can_shoot(pre, tp, tsh) {
                                let bp = spec_spawn_pose(
                                    pre.pose, pre.width as int);
                                &&& post.pose == pre.pose
                                &&& post.state == pop_state
                                &&& post.state_queue@ == pop_queue
                                &&& r.command is None
                                &&& match r.unit {
                                    Some(b) => {
                                        &&& b.role == UnitRole::Bullet
                                        &&& b.team == pre.team
                                        &&& b.pose == bp
                                        &&& b.state == UnitState::Move(tp.x, tp.y)
                                        &&& b.state_queue@.len() == 0
                                        &&& id_is_v4(b.id)
                                        &&& b.valid()
                                    },
                                    None => false,
                                }
                            } else {
                                &&& post.pose == spec_pursue(
                                    pre.pose, tp.x as int, tp.y as int, turn, step)
                                &&& post.state == pre.state
                                &&& post.state_queue@ == pre.state_queue@
                                &&& r.unit is None
                                &&& r.command is None
                            }
                        },
                    },
                    UnitState::Command(tid, nested) => match spec_view_of(views, tid) {
                        None => {
                            &&& post.pose == pre.pose
                            &&& post.state == pop_state
                            &&& post.state_queue@ == pop_queue
                            &&& r.unit is None
                            &&& r.command is None
                        },
                        Some((tp, tsh)) => {
                            if spec_can_shoot(pre, tp, tsh) {
                                &&& post.pose == pre.pose
                                &&& post.state == pop_state
                                &&& post.state_queue@ == pop_queue
                                &&& r.unit is None
                                &&& r.command == Some((tid, *nested))
                            } else {
                                &&& post.pose == spec_pursue(
                                    pre.pose, tp.x as int, tp.y as int, turn, step)
                                &&& post.state == pre.state
                                &&& post.state_queue@ == pre.state_queue@
                                &&& r.unit is None
                                &&& r.command is None
                            }
                        },
                    },
                }
    })
}

impl Unit {
    /// Well-formedness: the pose and shape are within machine limits, the
    /// shape and speed are the role's, and every held state carries valid
    /// targets.
    pub open spec fn valid(self) -> bool {
        &&& self.pose.valid()
        &&& self.pose.rotation > i64::MIN
        &&& self.shape.half_width == spec_role_half_width(self.role)
        &&& self.width == 2 * spec_role_half_width(self.role)
        &&& self.speed == spec_role_speed(self.role)
        &&& state_targets_valid(self.state)
        &&& forall|i: int| 0 <= i < self.state_queue@.len()
            ==> state_targets_valid(#[trigger] self.state_queue@[i])
    }

    /// Creates a unit of a role, with the role's fixed size and speed.
    pub fn new(role: UnitRole, id: Id, x: i64, y: i64, rotation: i64, team: usize,
        state: UnitState) -> (r: Unit)
        requires
            valid_coord(x as int),
            valid_coord(y as int),
            rotation > i64::MIN,
            state_targets_valid(state),
        ensures
            r.id == id,
            r.team == team,
            r.role == role,
            r.pose == (Pose { x, y, rotation }),
            r.state == state,
            r.state_queue@.len() == 0,
            r.valid(),
    {
        let (width, speed): (i64, i64) = match role {
            UnitRole::Soldier => (2500, 10_000),
            UnitRole::General => (5000, 10_000),
            UnitRole::Bullet => (500, 15_000),
        };
        Unit {
            id,
            team,
            pose: Pose { x, y, rotation },
            width,
            speed,
            shape: UnitShape { half_width: width / 2 },
            role,
            state,
            state_queue: Vec::new(),
        }
    }

    /// The unit's position.
    pub fn xy(&self) -> (r: (i64, i64))
        ensures
            r == (self.pose.x, self.pose.y),
    {
        (self.pose.x, self.pose.y)
    }

    /// Whether this unit's body intersects the other's.
    pub fn overlaps(&self, other: &Unit) -> (r: bool)
        requires
            self.valid(),
            other.valid(),
        ensures
            r == spec_unit_overlaps(*self, *other),
    {
        let a = body_poly(&self.pose, &self.shape);
        let b = body_poly(&other.pose, &other.shape);
        polys_intersect(&a, &b)
    }

    /// Whether the other unit's body lies in this unit's field of view.
    pub fn can_see(&self, other: &Unit) -> (r: bool)
        requires
            self.valid(),
            other.valid(),
        ensures
            r == spec_unit_can_see(*self, *other),
    {
        let a = self.fov();
        let b = body_poly(&other.pose, &other.shape);
        polys_intersect(&a, &b)
    }

    /// This unit's field-of-view wedge, in the world.
    fn fov(&self) -> (r: Vec<(i128, i128)>)
        requires
            self.valid(),
        ensures
            r@ == crate::shape::spec_fov_poly(self.pose),
            crate::shape::poly_ok(r@),
    {
        fov_poly(&self.pose)
    }

    /// The pose one body width ahead of this unit along its current
    /// heading, where a bullet it fires starts.
    fn spawn_pose(&self) -> (r: Pose)
        requires
            self.valid(),
        ensures
            r == spec_spawn_pose(self.pose, self.width as int),
            r.valid(),
            r.rotation == self.pose.rotation,
    {
        let rot = normalize_angle(self.pose.rotation);
        let s = sin_pm(rot);
        let c = cos_pm(rot);
        proof {
            assert(-5_000_000 <= self.width as int * s as int <= 5_000_000) by (nonlinear_arith)
                requires 0 < self.width <= 5000, -1000 <= s <= 1000;
            assert(-5_000_000 <= self.width as int * c as int <= 5_000_000) by (nonlinear_arith)
                requires 0 < self.width <= 5000, -1000 <= c <= 1000;
            vstd::arithmetic::div_mod::lemma_div_pos_is_pos(5_000_000, 1000);
        }
        let px: i64 = self.width * s;
        let ox: i64 = if px >= 0 { px / 1000 } else { -(-px / 1000) };
        let py: i64 = -(self.width * c);
        let oy: i64 = if py >= 0 { py / 1000 } else { -(-py / 1000) };
        proof {
            vstd::arithmetic::div_mod::lemma_div_pos_is_pos(if px >= 0 { px as int } else { -px as int }, 1000);
            vstd::arithmetic::div_mod::lemma_div_is_ordered(if px >= 0 { px as int } else { -px as int }, 5_000_000, 1000);
            vstd::arithmetic::div_mod::lemma_div_pos_is_pos(if py >= 0 { py as int } else { -py as int }, 1000);
            vstd::arithmetic::div_mod::lemma_div_is_ordered(if py >= 0 { py as int } else { -py as int }, 5_000_000, 1000);
        }
        let nx0: i64 = self.pose.x + ox;
        let nx: i64 = if nx0 > COORD_MAX {
            COORD_MAX
        } else if nx0 < -COORD_MAX {
            -COORD_MAX
        } else {
            nx0
        };
        let ny0: i64 = self.pose.y + oy;
        let ny: i64 = if ny0 > COORD_MAX {
            COORD_MAX
        } else if ny0 < -COORD_MAX {
            -COORD_MAX
        } else {
            ny0
        };
        Pose { x: nx, y: ny, rotation: self.pose.rotation }
    }

    /// This unit's weapon-range wedge, in the world.
    fn range(&self) -> (r: Vec<(i128, i128)>)
        requires
            self.valid(),
        ensures
            r@ == crate::shape::spec_range_poly(self.pose),
            crate::shape::poly_ok(r@),
    {
        range_poly(&self.pose)
    }

    /// Whether a body at the given pose and shape lies in this unit's
    /// weapon-range wedge.
    fn can_shoot(&self, pose: &Pose, shape: &UnitShape) -> (r: bool)
        requires
            self.valid(),
            pose.valid(),
            pose.rotation > i64::MIN,
            shape.valid(),
        ensures
            r == spec_can_shoot(*self, *pose, *shape),
    {
        let a = self.range();
        let b = body_poly(pose, shape);
        polys_intersect(&a, &b)
    }

    /// Whether the point lies in this unit's field of view.
    fn can_see_point(&self, x: i64, y: i64) -> (r: bool)
        requires
            self.valid(),
            valid_coord(x as int),
            valid_coord(y as int),
        ensures
            r == spec_can_see_point(*self, x as int, y as int),
    {
        let a = self.fov();
        let b = point_poly(x, y);
        polys_intersect(&a, &b)
    }

    /// Takes the next queued state, or idles.
    fn next_state(&mut self) -> (r: UnitState)
        ensures
            r == spec_next_state(old(self).state_queue@),
            final(self).state_queue@ == spec_popped_queue(old(self).state_queue@),
            *final(self) == (Unit { state_queue: final(self).state_queue, ..*old(self) }),
    {
        match self.state_queue.pop() {
            Some(st) => st,
            None => UnitState::Idle,
        }
    }

    /// Advances the unit by one tick of `dt_ms` milliseconds against a view
    /// snapshot of all live units. The contract states, per state, exactly
    /// where the unit ends up, when the state completes and the next queued
    /// one is resumed, and what the tick surfaces to the world: a spawned
    /// bullet (whose identifier alone is left to the generator), or a
    /// cross-unit command.
#[verifier::spinoff_prover]
#[verifier::rlimit(60)]
    pub fn update(&mut self, dt_ms: u64, views: &Views) -> (r: UpdateResults)
        requires
            old(self).valid(),
            views_valid(views@),
            dt_ms <= 3_600_000,
        ensures
            final(self).valid(),
            spec_unit_step(*old(self), *final(self), r, dt_ms as int, views@),
    {
        let step: i64 = self.speed * dt_ms as i64 / 1000;
        let turn: i64 = 120 * dt_ms as i64 / 1000;
        proof {
            vstd::arithmetic::div_mod::lemma_div_pos_is_pos(
                old(self).speed as int * dt_ms as int, 1000);
            vstd::arithmetic::div_mod::lemma_div_is_ordered(
                old(self).speed as int * dt_ms as int, 54_000_000_000, 1000);
            vstd::arithmetic::div_mod::lemma_div_pos_is_pos(120 * dt_ms as int, 1000);
            vstd::arithmetic::div_mod::lemma_div_is_ordered(
                120 * dt_ms as int, 432_000_000_000, 1000);
        }
        let st = self.state.duplicate();
        match st {
            UnitState::Idle | UnitState::Dead => UpdateResults::empty(),
            UnitState::Move(x, y) => {
                let new_pose = self.pose.move_towards(x, y, step);
                let snapped = new_pose.x == x && new_pose.y == y;
                self.pose = new_pose;
                if snapped {
                    let next = self.next_state();
                    self.state = next;
                }
                UpdateResults::empty()
            },
            UnitState::Look(x, y) => {
                let seen = self.can_see_point(x, y);
                let turned = self.pose.rotate_towards(x, y, turn);
                let new_pose = turned.move_towards(x, y, step);
                self.pose = new_pose;
                if seen {
                    let next = self.next_state();
                    self.state = next;
                }
                UpdateResults::empty()
            },
            UnitState::Shoot(tid) => {
                match find_view(views, tid) {
                    None => {
                        let next = self.next_state();
                        self.state = next;
                        UpdateResults::empty()
                    },
                    Some((tp, tsh)) => {
                        proof {
                            lemma_view_of_valid(views@, tid);
                        }
                        if self.can_shoot(&tp, &tsh) {
                            let bp = self.spawn_pose();
                            let bullet = Unit::new(
                                UnitRole::Bullet,
                                crate::ident::fresh_id_bits(),
                                bp.x,
                                bp.y,
                                bp.rotation,
                                self.team,
                                UnitState::Move(tp.x, tp.y),
                            );
                            let next = self.next_state();
                            self.state = next;
                            UpdateResults::from_unit(bullet)
                        } else {
                            let turned = self.pose.rotate_towards(tp.x, tp.y, turn);
                            self.pose = turned.move_towards(tp.x, tp.y, step);
                            UpdateResults::empty()
                        }
                    },
                }
            },
            UnitState::Command(tid, nested) => {
                match find_view(views, tid) {
                    None => {
                        let next = self.next_state();
                        self.state = next;
                        UpdateResults::empty()
                    },
                    Some((tp, tsh)) => {
                        proof {
                            lemma_view_of_valid(views@, tid);
                        }
                        if self.can_shoot(&tp, &tsh) {
                            let next = self.next_state();
                            self.state = next;
                            UpdateResults::from_command(tid, *nested)
                        } else {
                            let turned = self.pose.rotate_towards(tp.x, tp.y, turn);
                            self.pose = turned.move_towards(tp.x, tp.y, step);
                            UpdateResults::empty()
                        }
                    },
                }
            },
        }
    }

    /// The state that would resume next, without taking it.
    pub fn peek_next_state(&self) -> (r: UnitState)
        ensures
            r == spec_next_state(self.state_queue@),
    {
        if self.state_queue.len() == 0 {
            UnitState::Idle
        } else {
            self.state_queue[self.state_queue.len() - 1].duplicate()
        }
    }
}

/// What decoding yields on the text starting at `pos`: the grammar tries a
/// bare symbol (`dead`, `idle`), then a function head (`command`, `look`,
/// `move`, `shoot`) with its arguments; anything else is refused.
pub open spec fn spec_decode_state(s: Seq<u8>, pos: int) -> Option<UnitState>
    decreases s.len() - pos,
{
    if pos < 0 || pos > s.len() {
        None
    } else {
        let symn = symbol_run(s, pos);
        if symn == 4 && s.subrange(pos, pos + 4) == seq![100u8, 101, 97, 100] {
            Some(UnitState::Dead)
        } else if symn == 4 && s.subrange(pos, pos + 4) == seq![105u8, 100, 108, 101] {
            Some(UnitState::Idle)
        } else {
            let wn = word_run(s, pos);
            if wn >= 1 && pos + wn < s.len() && s[pos + wn] == 40 {
                let name = s.subrange(pos, pos + wn);
                let ap = pos + wn + 1;
                if name == seq![99u8, 111, 109, 109, 97, 110, 100] {
                    if id_shape(s, ap) {
                        let np = ap + 36 + sep_len(s, ap + 36);
                        if np <= s.len() {
                            match spec_decode_state(s, np) {
                                Some(st) => Some(UnitState::Command(
                                    spec_id_at(s, ap) as Id, Box::new(st))),
                                None => None,
                            }
                        } else {
                            None
                        }
                    } else {
                        None
                    }
                } else if name == seq![108u8, 111, 111, 107] {
                    if float_ok(s, ap) && float_ok(s, float_next(s, ap)) {
                        Some(UnitState::Look(
                            float_val(s, ap) as i64,
                            float_val(s, float_next(s, ap)) as i64,
                        ))
                    } else {
                        None
                    }
                } else if name == seq![109u8, 111, 118, 101] {
                    if float_ok(s, ap) && float_ok(s, float_next(s, ap)) {
                        Some(UnitState::Move(
                            float_val(s, ap) as i64,
                            float_val(s, float_next(s, ap)) as i64,
                        ))
                    } else {
                        None
                    }
                } else if name == seq![115u8, 104, 111, 111, 116] {
                    if id_shape(s, ap) {
                        Some(UnitState::Shoot(spec_id_at(s, ap) as Id))
                    } else {
                        None
                    }
                } else {
                    None
                }
            } else {
                None
            }
        }
    }
}

/// The tagged error decoding yields when the text at `pos` is refused: the
/// unread remainder from the point of failure, and the token kind the
/// failing reader expected.
pub open spec fn spec_decode_state_err(s: Seq<u8>, pos: int) -> (Seq<u8>, TokenType)
    decreases s.len() - pos,
{
    if pos < 0 || pos > s.len() {
        (Seq::empty(), TokenType::Other)
    } else {
        let wn = word_run(s, pos);
        if wn >= 1 && pos + wn < s.len() && s[pos + wn] == 40 {
            let name = s.subrange(pos, pos + wn);
            let ap = pos + wn + 1;
            if name == seq![99u8, 111, 109, 109, 97, 110, 100] {
                if id_shape(s, ap) {
                    let np = ap + 36 + sep_len(s, ap + 36);
                    if np <= s.len() {
                        spec_decode_state_err(s, np)
                    } else {
                        parser::spec_err(s, pos, TokenType::Other)
                    }
                } else {
                    parser::spec_err(s, ap, TokenType::Id)
                }
            } else if name == seq![108u8, 111, 111, 107] || name == seq![109u8, 111, 118, 101] {
                if float_ok(s, ap) {
                    parser::spec_err(s, float_next(s, ap), TokenType::Float)
                } else {
                    parser::spec_err(s, ap, TokenType::Float)
                }
            } else if name == seq![115u8, 104, 111, 111, 116] {
                parser::spec_err(s, ap, TokenType::Id)
            } else {
                parser::spec_err(s, pos, TokenType::Other)
            }
        } else {
            parser::spec_err(s, pos, TokenType::Function)
        }
    }
}

/// Reads the state whose text starts at `pos`.
#[verifier::spinoff_prover]
#[verifier::rlimit(60)]
fn decode_state_at(s: &[u8], pos: usize) -> (r: Result<UnitState, parser::Error>)
    requires
        pos <= s@.len(),
    ensures
        match r {
            Ok(st) => spec_decode_state(s@, pos as int) == Some(st),
            Err(e) => {
                &&& spec_decode_state(s@, pos as int) is None
                &&& (e.0@, e.1) == spec_decode_state_err(s@, pos as int)
            },
        },
    decreases s@.len() - pos,
{
    match parser::read_symbol(s, pos) {
        Ok((sym, _after)) => {
            if sym.len() == 4 && sym[0] == 100 && sym[1] == 101 && sym[2] == 97
                && sym[3] == 100 {
                proof {
                    assert(sym@ =~= seq![100u8, 101, 97, 100]);
                }
                return Ok(UnitState::Dead);
            }
            if sym.len() == 4 && sym[0] == 105 && sym[1] == 100 && sym[2] == 108
                && sym[3] == 101 {
                proof {
                    assert(sym@ =~= seq![105u8, 100, 108, 101]);
                }
                return Ok(UnitState::Idle);
            }
            proof {
                if symbol_run(s@, pos as int) == 4 {
                    assert(sym@ == s@.subrange(pos as int, pos + 4));
                }
            }
        },
        Err(_) => {},
    }
    let (name, ap) = match parser::read_fn(s, pos) {
        Ok(t) => t,
        Err(e) => {
            return Err(e);
        },
    };
    if name.len() == 7 && name[0] == 99 && name[1] == 111 && name[2] == 109 && name[3] == 109
        && name[4] == 97 && name[5] == 110 && name[6] == 100 {
        proof {
            assert(name@ =~= seq![99u8, 111, 109, 109, 97, 110, 100]);
        }
        let (id, np) = match parser::read_id(s, ap) {
            Ok(t) => t,
            Err(e) => {
                return Err(e);
            },
        };
        let nested = match decode_state_at(s, np) {
            Ok(st) => st,
            Err(e) => {
                return Err(e);
            },
        };
        return Ok(UnitState::Command(id, Box::new(nested)));
    }
    if name.len() == 4 && name[0] == 108 && name[1] == 111 && name[2] == 111 && name[3] == 107 {
        proof {
            assert(name@ =~= seq![108u8, 111, 111, 107]);
        }
        let (x, p2) = match parser::read_float(s, ap) {
            Ok(t) => t,
            Err(e) => {
                return Err(e);
            },
        };
        let (y, _p3) = match parser::read_float(s, p2) {
            Ok(t) => t,
            Err(e) => {
                return Err(e);
            },
        };
        return Ok(UnitState::Look(x, y));
    }
    if name.len() == 4 && name[0] == 109 && name[1] == 111 && name[2] == 118 && name[3] == 101 {
        proof {
            assert(name@ =~= seq![109u8, 111, 118, 101]);
        }
        let (x, p2) = match parser::read_float(s, ap) {
            Ok(t) => t,
            Err(e) => {
                return Err(e);
            },
        };
        let (y, _p3) = match parser::read_float(s, p2) {
            Ok(t) => t,
            Err(e) => {
                return Err(e);
            },
        };
        return Ok(UnitState::Move(x, y));
    }
    if name.len() == 5 && name[0] == 115 && name[1] == 104 && name[2] == 111 && name[3] == 111
        && name[4] == 116 {
        proof {
            assert(name@ =~= seq![115u8, 104, 111, 111, 116]);
        }
        let (id, _np) = match parser::read_id(s, ap) {
            Ok(t) => t,
            Err(e) => {
                return Err(e);
            },
        };
        return Ok(UnitState::Shoot(id));
    }
    proof {
        assert(name@ != seq![99u8, 111, 109, 109, 97, 110, 100]);
        assert(name@ != seq![108u8, 111, 111, 107]);
        assert(name@ != seq![109u8, 111, 118, 101]);
        assert(name@ != seq![115u8, 104, 111, 111, 116]);
    }
    Err(parser::make_err(s, pos, TokenType::Other))
}

/// States the codec can carry faithfully: coordinates are non-negative
/// with a whole part the reader accepts (the grammar carries no sign), and
/// every identifier bears the version and variant nibbles the generator
/// sets.
pub open spec fn state_codec_safe(st: UnitState) -> bool
    decreases st,
{
    match st {
        UnitState::Move(x, y) | UnitState::Look(x, y) => {
            &&& 0 <= x
            &&& 0 <= y
            &&& x as int / 100 <= FLOAT_WHOLE_MAX as int
            &&& y as int / 100 <= FLOAT_WHOLE_MAX as int
        },
        UnitState::Shoot(id) => id_is_v4(id),
        UnitState::Command(id, nested) => id_is_v4(id) && state_codec_safe(*nested),
        UnitState::Idle => true,
        UnitState::Dead => true,
    }
}

#[verifier::spinoff_prover]
#[verifier::rlimit(100)]
proof fn lemma_movelike_text_parses(s: Seq<u8>, pos: int, st: UnitState)
    requires
        st is Move || st is Look,
        state_codec_safe(st),
        0 <= pos,
        pos + spec_state_text(st).len() <= s.len(),
        s.subrange(pos, pos + spec_state_text(st).len() as int) == spec_state_text(st),
    ensures
        spec_decode_state(s, pos) == Some(st),
{
    let t = spec_state_text(st);
    let (x, y): (i64, i64) = match st {
        UnitState::Move(x, y) => (x, y),
        UnitState::Look(x, y) => (x, y),
        _ => (0, 0),
    };
    let head: Seq<u8> = if st is Move {
        seq![109u8, 111, 118, 101, 40]
    } else {
        seq![108u8, 111, 111, 107, 40]
    };
    let fx = spec_fixed_pos(x as int);
    let fy = spec_fixed_pos(y as int);
    let lx = fx.len() as int;
    let ly = fy.len() as int;
    assert(spec_fixed_text(x as int) == fx);
    assert(spec_fixed_text(y as int) == fy);
    assert(t =~= head + fx + seq![44u8, 32] + fy + seq![41u8]);
    parser::lemma_dec_min_props(x as int / 100);
    parser::lemma_dec_min_props(y as int / 100);
    assert(lx >= 4);
    assert(ly >= 4);
    let tl = t.len() as int;
    assert(tl == 5 + lx + 2 + ly + 1);
    assert forall|k: int| 0 <= k < tl implies s[pos + k] == t[k] by {
        assert(s.subrange(pos, pos + tl)[k] == s[pos + k]);
    }
    // The head is a word run ended by the parenthesis.
    assert(s[pos + 4] == t[4]);
    assert(t[4] == 40);
    assert forall|k: int| 0 <= k < 4 implies is_word_byte(#[trigger] s[pos + k]) by {
        assert(s[pos + k] == t[k]);
        assert(t[k] == head[k]);
    }
    assert(!is_word_byte(s[pos + 4]));
    lemma_word_run_exact(s, pos, 4);
    assert forall|k: int| 0 <= k < 4 implies is_symbol_byte(#[trigger] s[pos + k]) by {
        assert(s[pos + k] == t[k]);
        assert(t[k] == head[k]);
    }
    assert(!is_symbol_byte(s[pos + 4]));
    lemma_symbol_run_exact(s, pos, 4);
    // Not the bare states, and the name picks the right arm.
    let name = s.subrange(pos, pos + 4);
    assert(name[0] == s[pos + 0] && name[1] == s[pos + 1] && name[2] == s[pos + 2]
        && name[3] == s[pos + 3]);
    assert(s[pos + 0] != 100 && s[pos + 0] != 105);
    assert(name != seq![100u8, 101, 97, 100]);
    assert(name != seq![105u8, 100, 108, 101]);
    assert(name != seq![99u8, 111, 109, 109, 97, 110, 100]);
    if st is Move {
        assert(name =~= seq![109u8, 111, 118, 101]);
        assert(name != seq![108u8, 111, 111, 107]);
    } else {
        assert(name =~= seq![108u8, 111, 111, 107]);
        assert(name != seq![109u8, 111, 118, 101]);
    }
    assert(name != seq![115u8, 104, 111, 111, 116]);
    // First coordinate.
    let p1 = pos + 5;
    assert forall|k: int| 0 <= k < lx implies s.subrange(p1, p1 + lx)[k] == fx[k] by {
        assert(s.subrange(p1, p1 + lx)[k] == s[p1 + k]);
        assert(s[pos + (5 + k)] == t[5 + k]);
        assert(t[5 + k] == fx[k]);
    }
    assert(s.subrange(p1, p1 + lx) =~= fx);
    assert(s[p1 + lx] == t[5 + lx]);
    assert(t[5 + lx] == 44);
    assert(!is_digit_byte(s[p1 + lx]));
    lemma_fixed_parses(s, p1, x as int);
    assert(float_ok(s, p1));
    assert(float_val(s, p1) == x);
    assert(s[p1 + lx + 1] == t[5 + lx + 1]);
    assert(t[5 + lx + 1] == 32);
    assert(sep_len(s, p1 + lx) == 2);
    let p2 = p1 + lx + 2;
    assert(float_next(s, p1) == p2);
    // Second coordinate.
    assert forall|k: int| 0 <= k < ly implies s.subrange(p2, p2 + ly)[k] == fy[k] by {
        assert(s.subrange(p2, p2 + ly)[k] == s[p2 + k]);
        assert(s[pos + (5 + lx + 2 + k)] == t[5 + lx + 2 + k]);
        assert(t[5 + lx + 2 + k] == fy[k]);
    }
    assert(s.subrange(p2, p2 + ly) =~= fy);
    assert(s[p2 + ly] == t[tl - 1]);
    assert(t[tl - 1] == 41);
    assert(!is_digit_byte(s[p2 + ly]));
    lemma_fixed_parses(s, p2, y as int);
    assert(float_ok(s, p2));
    assert(float_val(s, p2) == y);
}

#[verifier::spinoff_prover]
#[verifier::rlimit(100)]
proof fn lemma_shoot_text_parses(s: Seq<u8>, pos: int, st: UnitState)
    requires
        st is Shoot,
        state_codec_safe(st),
        0 <= pos,
        pos + spec_state_text(st).len() <= s.len(),
        s.subrange(pos, pos + spec_state_text(st).len() as int) == spec_state_text(st),
    ensures
        spec_decode_state(s, pos) == Some(st),
{
    let t = spec_state_text(st);
    let id: Id = match st {
        UnitState::Shoot(id) => id,
        _ => 0,
    };
    let idt = spec_id_text(id);
    crate::ident::lemma_id_groups(id);
    crate::ident::lemma_pow16_values();
    crate::ident::lemma_spec_hex_len(crate::ident::id_g0(id as int), 8);
    crate::ident::lemma_spec_hex_len(crate::ident::id_g1(id as int), 4);
    crate::ident::lemma_spec_hex_len(crate::ident::id_g2(id as int), 4);
    crate::ident::lemma_spec_hex_len(crate::ident::id_g3(id as int), 4);
    crate::ident::lemma_spec_hex_len(crate::ident::id_g4(id as int), 12);
    assert(idt.len() == 36);
    let head = seq![115u8, 104, 111, 111, 116, 40];
    assert(t =~= head + idt + seq![41u8]);
    assert(t.len() == 43);
    assert forall|k: int| 0 <= k < 43 implies s[pos + k] == t[k] by {
        assert(s.subrange(pos, pos + 43)[k] == s[pos + k]);
    }
    assert(s[pos + 5] == t[5]);
    assert(t[5] == 40);
    assert forall|k: int| 0 <= k < 5 implies is_word_byte(#[trigger] s[pos + k]) by {
        assert(s[pos + k] == t[k]);
        assert(t[k] == head[k]);
    }
    assert(!is_word_byte(s[pos + 5]));
    lemma_word_run_exact(s, pos, 5);
    assert forall|k: int| 0 <= k < 5 implies is_symbol_byte(#[trigger] s[pos + k]) by {
        assert(s[pos + k] == t[k]);
        assert(t[k] == head[k]);
    }
    assert(!is_symbol_byte(s[pos + 5]));
    lemma_symbol_run_exact(s, pos, 5);
    let name = s.subrange(pos, pos + 5);
    assert(name[0] == s[pos + 0] && name[1] == s[pos + 1] && name[2] == s[pos + 2]
        && name[3] == s[pos + 3] && name[4] == s[pos + 4]);
    assert(name =~= seq![115u8, 104, 111, 111, 116]);
    assert(name != seq![99u8, 111, 109, 109, 97, 110, 100]);
    assert(name != seq![108u8, 111, 111, 107]);
    assert(name != seq![109u8, 111, 118, 101]);
    let ap = pos + 6;
    assert forall|k: int| 0 <= k < 36 implies s.subrange(ap, ap + 36)[k] == idt[k] by {
        assert(s.subrange(ap, ap + 36)[k] == s[ap + k]);
        assert(s[pos + (6 + k)] == t[6 + k]);
        assert(t[6 + k] == idt[k]);
    }
    assert(s.subrange(ap, ap + 36) =~= idt);
    lemma_id_text_parses(s, ap, id);
    assert(spec_id_at(s, ap) as Id == id);
}

/// The text of a codec-safe state, embedded in a larger text and bounded by
/// a closing parenthesis or the end, decodes back to that state.
#[verifier::spinoff_prover]
#[verifier::rlimit(100)]
proof fn lemma_state_text_parses(s: Seq<u8>, pos: int, st: UnitState)
    requires
        state_codec_safe(st),
        0 <= pos,
        pos + spec_state_text(st).len() <= s.len(),
        s.subrange(pos, pos + spec_state_text(st).len() as int) == spec_state_text(st),
        pos + spec_state_text(st).len() == s.len()
            || s[pos + spec_state_text(st).len()] == 41,
    ensures
        spec_decode_state(s, pos) == Some(st),
    decreases st,
{
    let t = spec_state_text(st);
    let tl = t.len() as int;
    match st {
        UnitState::Dead => {
            assert(t =~= seq![100u8, 101, 97, 100]);
            assert forall|k: int| 0 <= k < 4 implies is_symbol_byte(#[trigger] s[pos + k]) by {
                assert(s.subrange(pos, pos + 4)[k] == s[pos + k]);
            }
            assert(pos + 4 == s.len() || !is_symbol_byte(s[pos + 4]));
            lemma_symbol_run_exact(s, pos, 4);
        },
        UnitState::Idle => {
            assert(t =~= seq![105u8, 100, 108, 101]);
            assert forall|k: int| 0 <= k < 4 implies is_symbol_byte(#[trigger] s[pos + k]) by {
                assert(s.subrange(pos, pos + 4)[k] == s[pos + k]);
            }
            assert(pos + 4 == s.len() || !is_symbol_byte(s[pos + 4]));
            lemma_symbol_run_exact(s, pos, 4);
        },
        UnitState::Move(_, _) | UnitState::Look(_, _) => {
            lemma_movelike_text_parses(s, pos, st);
        },
        UnitState::Shoot(_) => {
            lemma_shoot_text_parses(s, pos, st);
        },
        UnitState::Command(id, nested) => {
            let idt = spec_id_text(id);
            let nt = spec_state_text(*nested);
            let ln = nt.len() as int;
            crate::ident::lemma_id_groups(id);
            crate::ident::lemma_pow16_values();
            crate::ident::lemma_spec_hex_len(crate::ident::id_g0(id as int), 8);
            crate::ident::lemma_spec_hex_len(crate::ident::id_g1(id as int), 4);
            crate::ident::lemma_spec_hex_len(crate::ident::id_g2(id as int), 4);
            crate::ident::lemma_spec_hex_len(crate::ident::id_g3(id as int), 4);
            crate::ident::lemma_spec_hex_len(crate::ident::id_g4(id as int), 12);
            assert(idt.len() == 36);
            let head = seq![99u8, 111, 109, 109, 97, 110, 100, 40];
            assert(t =~= head + idt + seq![44u8, 32] + nt + seq![41u8]);
            assert(tl == 8 + 36 + 2 + ln + 1);
            assert forall|k: int| 0 <= k < tl implies s[pos + k] == t[k] by {
                assert(s.subrange(pos, pos + tl)[k] == s[pos + k]);
            }
            // The head is a word run ended by the parenthesis.
            assert(s[pos + 7] == t[7]);
            assert(t[7] == 40);
            assert forall|k: int| 0 <= k < 7 implies is_word_byte(#[trigger] s[pos + k]) by {
                assert(s[pos + k] == t[k]);
                assert(t[k] == head[k]);
            }
            assert(!is_word_byte(s[pos + 7]));
            lemma_word_run_exact(s, pos, 7);
            assert forall|k: int| 0 <= k < 7 implies is_symbol_byte(#[trigger] s[pos + k]) by {
                assert(s[pos + k] == t[k]);
                assert(t[k] == head[k]);
            }
            assert(!is_symbol_byte(s[pos + 7]));
            lemma_symbol_run_exact(s, pos, 7);
            let name = s.subrange(pos, pos + 7);
            assert(name[0] == s[pos + 0] && name[1] == s[pos + 1] && name[2] == s[pos + 2]
                && name[3] == s[pos + 3] && name[4] == s[pos + 4] && name[5] == s[pos + 5]
                && name[6] == s[pos + 6]);
            assert(name =~= seq![99u8, 111, 109, 109, 97, 110, 100]);
            // The identifier argument.
            let ap = pos + 8;
            assert forall|k: int| 0 <= k < 36 implies s.subrange(ap, ap + 36)[k] == idt[k] by {
                assert(s.subrange(ap, ap + 36)[k] == s[ap + k]);
                assert(s[pos + (8 + k)] == t[8 + k]);
                assert(t[8 + k] == idt[k]);
            }
            assert(s.subrange(ap, ap + 36) =~= idt);
            lemma_id_text_parses(s, ap, id);
            assert(spec_id_at(s, ap) as Id == id);
            // The separator, then the nested state bounded by the closer.
            assert(s[ap + 36] == t[44]);
            assert(t[44] == 44);
            assert(s[ap + 37] == t[45]);
            assert(t[45] == 32);
            assert(sep_len(s, ap + 36) == 2);
            let np = ap + 38;
            assert forall|k: int| 0 <= k < ln implies s.subrange(np, np + ln)[k] == nt[k] by {
                assert(s.subrange(np, np + ln)[k] == s[np + k]);
                assert(s[pos + (46 + k)] == t[46 + k]);
                assert(t[46 + k] == nt[k]);
            }
            assert(s.subrange(np, np + ln) =~= nt);
            assert(s[np + ln] == t[tl - 1]);
            assert(t[tl - 1] == 41);
            lemma_state_text_parses(s, np, *nested);
            assert(spec_decode_state(s, np) == Some(*nested));
        },
    }
}

/// Codec round trip: encoding a codec-safe state and decoding the text
/// reproduces the state exactly, including command states and the states
/// nested inside them. Coordinates must be non-negative with a whole part
/// the reader accepts (the codec's grammar carries no sign), and every
/// identifier must carry the version and variant nibbles every generated
/// identifier has.
pub proof fn lemma_state_round_trip(st: UnitState)
    requires
        state_codec_safe(st),
    ensures
        spec_decode_state(spec_state_text(st), 0) == Some(st),
{
    let t = spec_state_text(st);
    assert(t.subrange(0, t.len() as int) =~= t);
    lemma_state_text_parses(t, 0, st);
}

} // verus!
