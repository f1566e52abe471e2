//! The script boundary: events handed to the behaviour scripts, the deltas
//! they send back, and the decision core of the script actor. The actor's
//! own execution context and channels live outside the library; everything
//! it decides is here.
use vstd::prelude::*;

use crate::ident::Id;
use crate::parser;
use crate::parser::{TokenType, word_run, symbol_run, sep_len, id_shape, spec_id_at, float_ok,
    float_val, float_next, digit_run, spec_dec_value};
use crate::unit::{Unit, UnitRole, UnitState, spec_role_text, spec_decode_state,
    spec_decode_state_err};

verus! {

/// What happened to a unit, as the script boundary names it.
#[derive(Clone, Copy, Debug, PartialEq, Eq, Structural)]
pub enum EventType {
    Collision,
    EnterView,
    ExitView,
    StateChange,
}

/// The textual name of an event kind.
pub open spec fn spec_event_text(et: EventType) -> Seq<u8> {
    match et {
        EventType::Collision => seq![99u8, 111, 108, 108, 105, 115, 105, 111, 110],
        EventType::EnterView => seq![101u8, 110, 116, 101, 114, 95, 118, 105, 101, 119],
        EventType::ExitView => seq![101u8, 120, 105, 116, 95, 118, 105, 101, 119],
        EventType::StateChange => seq![
            115u8, 116, 97, 116, 101, 95, 99, 104, 97, 110, 103, 101],
    }
}

impl EventType {
    /// The event kind's name, as codec text.
    pub fn to_text(&self) -> (r: Vec<u8>)
        ensures
            r@ == spec_event_text(*self),
    {
        let mut v: Vec<u8> = Vec::new();
        match self {
            EventType::Collision => {
                v.push(99); v.push(111); v.push(108); v.push(108); v.push(105);
                v.push(115); v.push(105); v.push(111); v.push(110);
            },
            EventType::EnterView => {
                v.push(101); v.push(110); v.push(116); v.push(101); v.push(114);
                v.push(95); v.push(118); v.push(105); v.push(101); v.push(119);
            },
            EventType::ExitView => {
                v.push(101); v.push(120); v.push(105); v.push(116); v.push(95);
                v.push(118); v.push(105); v.push(101); v.push(119);
            },
            EventType::StateChange => {
                v.push(115); v.push(116); v.push(97); v.push(116); v.push(101);
                v.push(95); v.push(99); v.push(104); v.push(97); v.push(110);
                v.push(103); v.push(101);
            },
        }
        proof {
            assert(v@ =~= spec_event_text(*self));
        }
        v
    }
}

/// The name of the behaviour entry point for a role and event kind:
/// the role's name, `_on_`, and the event kind's name.
pub open spec fn spec_behavior_key(role: UnitRole, et: EventType) -> Seq<u8> {
    spec_role_text(role) + seq![95u8, 111, 110, 95] + spec_event_text(et)
}

/// A value copy of a unit's externally relevant fields, passed across the
/// concurrency boundary instead of any reference into the world.
#[derive(Debug)]
pub struct UnitSnapshot {
    pub id: Id,
    pub x: i64,
    pub y: i64,
    pub team: usize,
    pub role: UnitRole,
    pub state: UnitState,
}

impl UnitSnapshot {
    /// Captures a unit's fields by value.
    pub fn new(unit: &Unit) -> (r: UnitSnapshot)
        ensures
            r == spec_snapshot(*unit),
    {
        UnitSnapshot {
            id: unit.id,
            x: unit.pose.x,
            y: unit.pose.y,
            team: unit.team,
            role: unit.role,
            state: unit.state.duplicate(),
        }
    }
}

/// The snapshot a unit yields.
pub open spec fn spec_snapshot(u: Unit) -> UnitSnapshot {
    UnitSnapshot {
        id: u.id,
        x: u.pose.x,
        y: u.pose.y,
        team: u.team,
        role: u.role,
        state: u.state,
    }
}

/// One event on its way to a behaviour script: the entry point's name, the
/// unit it concerns, and the other unit involved, if any.
pub type ExecState = (Vec<u8>, UnitSnapshot, Option<UnitSnapshot>);

/// What can go wrong when a script's declared result is read back: the text
/// did not decode, tagged with the token kind expected where reading failed.
#[derive(Debug)]
pub enum Error {
    InvalidState(Vec<u8>, TokenType),
}

/// An applied mutation of the world, produced by script evaluation or the
/// cinematic timeline.
#[derive(Debug)]
pub enum Delta {
    UpdateState(Id, UnitState),
    NewUnit(UnitRole, Id, i64, i64, i64, usize),
}

/// What decoding a delta yields: `new_unit` with a role, an identifier, a
/// position, a heading and a team, or `update_state` with an identifier and
/// a state.
pub open spec fn spec_decode_delta(s: Seq<u8>) -> Option<Delta> {
    let wn = word_run(s, 0);
    if wn >= 1 && wn < s.len() && s[wn] == 40 {
        let name = s.subrange(0, wn);
        let ap = wn + 1;
        if name == seq![110u8, 101, 119, 95, 117, 110, 105, 116] {
            spec_decode_new_unit(s, ap)
        } else if name == seq![117u8, 112, 100, 97, 116, 101, 95, 115, 116, 97, 116, 101] {
            if id_shape(s, ap) {
                let np = ap + 36 + sep_len(s, ap + 36);
                match spec_decode_state(s, np) {
                    Some(st) => Some(Delta::UpdateState(spec_id_at(s, ap) as Id, st)),
                    None => None,
                }
            } else {
                None
            }
        } else {
            None
        }
    } else {
        None
    }
}

/// The arguments of a `new_unit` delta, read from `ap` on.
pub open spec fn spec_decode_new_unit(s: Seq<u8>, ap: int) -> Option<Delta> {
    let symn = symbol_run(s, ap);
    let role_text = s.subrange(ap, ap + symn);
    let role = if role_text == spec_role_text(UnitRole::Soldier) {
        Some(UnitRole::Soldier)
    } else if role_text == spec_role_text(UnitRole::General) {
        Some(UnitRole::General)
    } else if role_text == spec_role_text(UnitRole::Bullet) {
        Some(UnitRole::Bullet)
    } else {
        None
    };
    if symn >= 1 && role is Some {
        let p1 = ap + symn + sep_len(s, ap + symn);
        if id_shape(s, p1) {
            let id = spec_id_at(s, p1) as Id;
            let p2 = p1 + 36 + sep_len(s, p1 + 36);
            if float_ok(s, p2) {
                let x = float_val(s, p2);
                let p3 = float_next(s, p2);
                if float_ok(s, p3) {
                    let y = float_val(s, p3);
                    let p4 = float_next(s, p3);
                    if float_ok(s, p4) {
                        let rot = float_val(s, p4);
                        let p5 = float_next(s, p4);
                        let n = digit_run(s, p5);
                        let team = spec_dec_value(s.subrange(p5, p5 + n));
                        if n >= 1 && team <= usize::MAX {
                            Some(Delta::NewUnit(
                                role.unwrap(), id, x as i64, y as i64, rot as i64,
                                team as usize))
                        } else {
                            None
                        }
                    } else {
                        None
                    }
                } else {
                    None
                }
            } else {
                None
            }
        } else {
            None
        }
    } else {
        None
    }
}

/// The tagged error a refused delta text yields: the unread remainder from
/// the point of failure, and the token kind the failing reader expected.
pub open spec fn spec_decode_delta_err(s: Seq<u8>) -> (Seq<u8>, TokenType) {
    let wn = word_run(s, 0);
    if wn >= 1 && wn < s.len() && s[wn] == 40 {
        let name = s.subrange(0, wn);
        let ap = wn + 1;
        if name == seq![110u8, 101, 119, 95, 117, 110, 105, 116] {
            spec_decode_new_unit_err(s, ap)
        } else if name == seq![117u8, 112, 100, 97, 116, 101, 95, 115, 116, 97, 116, 101] {
            if id_shape(s, ap) {
                spec_decode_state_err(s, ap + 36 + sep_len(s, ap + 36))
            } else {
                parser::spec_err(s, ap, TokenType::Id)
            }
        } else {
            parser::spec_err(s, 0, TokenType::Other)
        }
    } else {
        parser::spec_err(s, 0, TokenType::Function)
    }
}

/// The tagged error of a refused `new_unit` argument list.
pub open spec fn spec_decode_new_unit_err(s: Seq<u8>, ap: int) -> (Seq<u8>, TokenType) {
    let symn = symbol_run(s, ap);
    let role_text = s.subrange(ap, ap + symn);
    if symn == 0 {
        parser::spec_err(s, ap, TokenType::Symbol)
    } else if role_text != spec_role_text(UnitRole::Soldier)
        && role_text != spec_role_text(UnitRole::General)
        && role_text != spec_role_text(UnitRole::Bullet) {
        (role_text, TokenType::Other)
    } else {
        let p1 = ap + symn + sep_len(s, ap + symn);
        if !id_shape(s, p1) {
            parser::spec_err(s, p1, TokenType::Id)
        } else {
            let p2 = p1 + 36 + sep_len(s, p1 + 36);
            if !float_ok(s, p2) {
                parser::spec_err(s, p2, TokenType::Float)
            } else {
                let p3 = float_next(s, p2);
                if !float_ok(s, p3) {
                    parser::spec_err(s, p3, TokenType::Float)
                } else {
                    let p4 = float_next(s, p3);
                    if !float_ok(s, p4) {
                        parser::spec_err(s, p4, TokenType::Float)
                    } else {
                        let p5 = float_next(s, p4);
                        parser::spec_err(s, p5, TokenType::Int)
                    }
                }
            }
        }
    }
}

impl Delta {
    /// Reads a delta from codec text; succeeds exactly when
    /// `spec_decode_delta` accepts it, and otherwise hands back the tagged
    /// error of the reader that refused.
    #[verifier::spinoff_prover]
    #[verifier::rlimit(60)]
    pub fn from_text(s: &[u8]) -> (r: Result<Delta, parser::Error>)
        ensures
            match r {
                Ok(d) => spec_decode_delta(s@) == Some(d),
                Err(e) => {
                    &&& spec_decode_delta(s@) is None
                    &&& (e.0@, e.1) == spec_decode_delta_err(s@)
                },
            },
    {
        let (name, ap) = match parser::read_fn(s, 0) {
            Ok(t) => t,
            Err(e) => {
                return Err(e);
            },
        };
        if name.len() == 8 && name[0] == 110 && name[1] == 101 && name[2] == 119
            && name[3] == 95 && name[4] == 117 && name[5] == 110 && name[6] == 105
            && name[7] == 116 {
            proof {
                assert(name@ =~= seq![110u8, 101, 119, 95, 117, 110, 105, 116]);
            }
            let (sym, p1) = match parser::read_symbol(s, ap) {
                Ok(t) => t,
                Err(e) => {
                    return Err(e);
                },
            };
            let role = match UnitRole::from_text(sym.as_slice()) {
                Ok(role) => role,
                Err(e) => {
                    return Err((e, TokenType::Other));
                },
            };
            let (id, p2) = match parser::read_id(s, p1) {
                Ok(t) => t,
                Err(e) => {
                    return Err(e);
                },
            };
            let (x, p3) = match parser::read_float(s, p2) {
                Ok(t) => t,
                Err(e) => {
                    return Err(e);
                },
            };
            let (y, p4) = match parser::read_float(s, p3) {
                Ok(t) => t,
                Err(e) => {
                    return Err(e);
                },
            };
            let (rot, p5) = match parser::read_float(s, p4) {
                Ok(t) => t,
                Err(e) => {
                    return Err(e);
                },
            };
            let (team, _p6) = match parser::read_int(s, p5) {
                Ok(t) => t,
                Err(e) => {
                    return Err(e);
                },
            };
            return Ok(Delta::NewUnit(role, id, x, y, rot, team));
        }
        if name.len() == 12 && name[0] == 117 && name[1] == 112 && name[2] == 100
            && name[3] == 97 && name[4] == 116 && name[5] == 101 && name[6] == 95
            && name[7] == 115 && name[8] == 116 && name[9] == 97 && name[10] == 116
            && name[11] == 101 {
            proof {
                assert(name@ =~= seq![117u8, 112, 100, 97, 116, 101, 95, 115, 116, 97, 116, 101]);
            }
            let (id, np) = match parser::read_id(s, ap) {
                Ok(t) => t,
                Err(e) => {
                    return Err(e);
                },
            };
            let st = match UnitState::from_text_at(s, np) {
                Ok(t) => t,
                Err(e) => {
                    return Err(e);
                },
            };
            return Ok(Delta::UpdateState(id, st));
        }
        proof {
            assert(name@ != seq![110u8, 101, 119, 95, 117, 110, 105, 116]);
            assert(name@ != seq![117u8, 112, 100, 97, 116, 101, 95, 115, 116, 97, 116, 101]);
        }
        Err(parser::make_err(s, 0, TokenType::Other))
    }
}

/// The tagged error a refused timeline entry yields; a missing opening
/// parenthesis hands the whole text back under the catch-all kind.
pub open spec fn spec_decode_timeline_err(s: Seq<u8>) -> (Seq<u8>, TokenType) {
    if !(0 < s.len() && s[0] == 40) {
        parser::spec_err(s, 0, TokenType::Other)
    } else {
        let n = digit_run(s, 1);
        let time = spec_dec_value(s.subrange(1, 1 + n));
        if !(n >= 1 && time <= usize::MAX) {
            parser::spec_err(s, 1, TokenType::Int)
        } else {
            let np = 1 + n + sep_len(s, 1 + n);
            spec_decode_delta_err(s.subrange(np, s.len() as int))
        }
    }
}

/// One entry of the cinematic timeline: a time offset in seconds and the
/// delta replayed at it.
#[derive(Debug)]
pub struct TimelineEvent {
    pub time: usize,
    pub delta: Delta,
}

/// What decoding a timeline entry yields: a parenthesis, a time, and the
/// rest as a delta.
pub open spec fn spec_decode_timeline(s: Seq<u8>) -> Option<(int, Option<Delta>)> {
    if 0 < s.len() && s[0] == 40 {
        let n = digit_run(s, 1);
        let time = spec_dec_value(s.subrange(1, 1 + n));
        if n >= 1 && time <= usize::MAX {
            let np = 1 + n + sep_len(s, 1 + n);
            Some((time, spec_decode_delta(s.subrange(np, s.len() as int))))
        } else {
            None
        }
    } else {
        None
    }
}

impl TimelineEvent {
    /// Reads a timeline entry from codec text; a refused one hands back the
    /// tagged error of the reader that refused.
    pub fn from_text(s: &[u8]) -> (r: Result<TimelineEvent, parser::Error>)
        ensures
            match r {
                Ok(ev) => spec_decode_timeline(s@) matches Some((t, Some(d)))
                    && ev.time == t && ev.delta == d,
                Err(e) => {
                    &&& !(spec_decode_timeline(s@) matches Some((t, Some(d))))
                    &&& (e.0@, e.1) == spec_decode_timeline_err(s@)
                },
            },
    {
        let p0 = match parser::read_tuple(s, 0) {
            Ok(t) => t,
            Err(_) => {
                return Err(parser::make_err(s, 0, TokenType::Other));
            },
        };
        let (time, np) = match parser::read_int(s, p0) {
            Ok(t) => t,
            Err(e) => {
                return Err(e);
            },
        };
        let (rest, _end) = parser::read_rest(s, np);
        let delta = match Delta::from_text(rest.as_slice()) {
            Ok(d) => d,
            Err(e) => {
                return Err(e);
            },
        };
        Ok(TimelineEvent { time, delta })
    }
}

/// Orders timeline entries by their time offsets, keeping every entry.
pub fn sort_timeline(events: Vec<TimelineEvent>) -> (r: Vec<TimelineEvent>)
    ensures
        r@.len() == events@.len(),
        r@.to_multiset() == events@.to_multiset(),
        forall|i: int, j: int| 0 <= i < j < r@.len()
            ==> #[trigger] r@[i].time <= #[trigger] r@[j].time,
{
    let mut src = events;
    let mut out: Vec<TimelineEvent> = Vec::new();
    proof {
        out@.to_multiset_ensures();
        assert forall|a: TimelineEvent| out@.to_multiset().count(a) == 0 by {
            assert(!out@.contains(a));
        }
        assert(out@.to_multiset().add(src@.to_multiset()) =~= src@.to_multiset());
    }
    while src.len() > 0
        invariant
            out@.to_multiset().add(src@.to_multiset()) == events@.to_multiset(),
            out@.len() + src@.len() == events@.len(),
            forall|i: int, j: int| 0 <= i < j < out@.len()
                ==> #[trigger] out@[i].time <= #[trigger] out@[j].time,
        decreases src@.len(),
    {
        let ghost old_src = src@;
        let ghost old_out = out@;
        let ev = src.remove(0);
        proof {
            old_src.to_multiset_ensures();
            assert(old_src.contains(ev));
            assert(src@.to_multiset() == old_src.to_multiset().remove(ev));
        }
        // Find the insertion point: after every entry at most as late.
        let mut k: usize = out.len();
        while k > 0 && out[k - 1].time > ev.time
            invariant
                0 <= k <= out@.len(),
                out@ == old_out,
                forall|j: int| k <= j < out@.len() ==> #[trigger] out@[j].time > ev.time,
                forall|i: int, j: int| 0 <= i < j < out@.len()
                    ==> #[trigger] out@[i].time <= #[trigger] out@[j].time,
            decreases k,
        {
            k = k - 1;
        }
        out.insert(k, ev);
        proof {
            out@.to_multiset_ensures();
            assert(out@.remove(k as int) =~= old_out);
            assert(out@[k as int] == ev);
            assert(out@.contains(ev));
            assert(old_out.to_multiset() == out@.to_multiset().remove(ev));
            assert(out@.to_multiset().add(src@.to_multiset())
                =~= old_out.to_multiset().add(old_src.to_multiset()));
            assert forall|i: int, j: int| 0 <= i < j < out@.len()
                implies #[trigger] out@[i].time <= #[trigger] out@[j].time by {
                if j < k {
                    assert(out@[i] == old_out[i] && out@[j] == old_out[j]);
                } else if i > k {
                    assert(out@[i] == old_out[i - 1] && out@[j] == old_out[j - 1]);
                } else if j == k {
                    assert(out@[i] == old_out[i]);
                } else if i == k {
                    assert(out@[j] == old_out[j - 1]);
                } else {
                    assert(i < k && j > k);
                    assert(out@[i] == old_out[i] && out@[j] == old_out[j - 1]);
                }
            }
        }
    }
    proof {
        src@.to_multiset_ensures();
        assert forall|a: TimelineEvent| src@.to_multiset().count(a) == 0 by {
            assert(!src@.contains(a));
        }
        assert(out@.to_multiset() =~= out@.to_multiset().add(src@.to_multiset()));
    }
    out
}

/// The dispatch side of the script boundary. The execution contexts, their
/// channels and the script engine itself live outside the library; this
/// builds the requests they evaluate and decides what their results mean.
#[derive(Debug)]
pub struct Interpreter {
}

impl Interpreter {
    pub fn new() -> (r: Interpreter) {
        Interpreter { }
    }

    /// Builds the event request for a unit and, possibly, another unit: the
    /// behaviour key for the role and event kind, and value snapshots.
    pub fn exec(&mut self, role: &UnitRole, event_type: &EventType, unit: &Unit,
        other: Option<&Unit>) -> (r: ExecState)
        ensures
            r.0@ == spec_behavior_key(*role, *event_type),
            r.1 == spec_snapshot(*unit),
            match other {
                Some(o) => r.2 == Some(spec_snapshot(*o)),
                None => r.2 is None,
            },
    {
        let mut key = role.to_text();
        key.push(95); key.push(111); key.push(110); key.push(95);
        let mut et = event_type.to_text();
        key.append(&mut et);
        proof {
            assert(key@ =~= spec_behavior_key(*role, *event_type));
        }
        let snap = UnitSnapshot::new(unit);
        let other_snap = match other {
            Some(o) => Some(UnitSnapshot::new(o)),
            None => None,
        };
        (key, snap, other_snap)
    }

    /// Decides what a script evaluation's outcome means: no declared result
    /// is a no-op; a result that decodes to the state the unit already had
    /// is a no-op; a result that decodes to a new state becomes an
    /// `UpdateState` delta for the unit; and an undecodable result is the
    /// worker's fatal error, carrying the offending text.
    pub fn apply_script_result(snap: &UnitSnapshot, result_text: Option<&Vec<u8>>)
        -> (r: Result<Option<Delta>, Error>)
        ensures
            match result_text {
                None => r == Ok::<Option<Delta>, Error>(None),
                Some(t) => match spec_decode_state(t@, 0) {
                    Some(st) => if st == snap.state {
                        r == Ok::<Option<Delta>, Error>(None)
                    } else {
                        r == Ok::<Option<Delta>, Error>(Some(Delta::UpdateState(snap.id, st)))
                    },
                    None => r is Err,
                },
            },
    {
        let text = match result_text {
            None => {
                return Ok(None);
            },
            Some(t) => t,
        };
        match UnitState::from_text(text.as_slice()) {
            Ok(st) => {
                if st.deep_eq(&snap.state) {
                    Ok(None)
                } else {
                    Ok(Some(Delta::UpdateState(snap.id, st)))
                }
            },
            Err((rest, tok)) => Err(Error::InvalidState(rest, tok)),
        }
    }
}

} // verus!
