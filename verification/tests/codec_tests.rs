use tactics::ident::{gen_uuid, id_to_text};
use tactics::interpreter::{Delta, TimelineEvent, sort_timeline, Interpreter, UnitSnapshot,
    EventType};
use tactics::parser::{read_fn, read_tuple, read_id, read_float, read_int, read_rest,
    read_symbol, TokenType};
use tactics::unit::{Unit, UnitRole, UnitState};

const ID_A: u128 = 0x00000000_0000_4000_8000_000000000000;
const ID_B: u128 = 0x00000000_0000_4000_8000_000000000001;

const ID_A_TEXT: &str = "00000000-0000-4000-8000-000000000000";

#[test]
fn role_text_round_trip() {
    assert_eq!(UnitRole::Soldier.to_text(), b"soldier".to_vec());
    assert_eq!(UnitRole::General.to_text(), b"general".to_vec());
    assert_eq!(UnitRole::Bullet.to_text(), b"bullet".to_vec());
    assert_eq!(UnitRole::from_text(b"soldier"), Ok(UnitRole::Soldier));
    assert_eq!(UnitRole::from_text(b"general"), Ok(UnitRole::General));
    assert_eq!(UnitRole::from_text(b"bullet"), Ok(UnitRole::Bullet));
    assert_eq!(UnitRole::from_text(b"colonel"), Err(b"colonel".to_vec()));
}

#[test]
fn state_encodes_to_two_decimals() {
    assert_eq!(UnitState::Idle.to_text(), b"idle".to_vec());
    assert_eq!(UnitState::Dead.to_text(), b"dead".to_vec());
    assert_eq!(UnitState::Move(100, 200).to_text(), b"move(1.00, 2.00)".to_vec());
    assert_eq!(UnitState::Look(12_345, 6).to_text(), b"look(123.45, 0.06)".to_vec());
    let shoot = format!("shoot({})", ID_A_TEXT);
    assert_eq!(UnitState::Shoot(ID_A).to_text(), shoot.into_bytes());
    let cmd = format!("command({}, move(1.00, 2.00))", ID_A_TEXT);
    assert_eq!(
        UnitState::Command(ID_A, Box::new(UnitState::Move(100, 200))).to_text(),
        cmd.into_bytes(),
    );
}

#[test]
fn state_round_trips_through_text() {
    let states = [
        UnitState::Idle,
        UnitState::Dead,
        UnitState::Move(100, 200),
        UnitState::Look(12_345, 6),
        UnitState::Shoot(ID_A),
    ];
    for st in states {
        let text = st.to_text();
        let back = UnitState::from_text(&text).expect("must decode");
        assert_eq!(back, st);
    }
    // The nested form decodes too, at any depth.
    let cmd = UnitState::Command(ID_B, Box::new(UnitState::Look(1, 2)));
    assert_eq!(UnitState::from_text(&cmd.to_text()).unwrap(), cmd);
    let deep = UnitState::Command(ID_A,
        Box::new(UnitState::Command(ID_B, Box::new(UnitState::Move(100, 200)))));
    assert_eq!(UnitState::from_text(&deep.to_text()).unwrap(), deep);
}

#[test]
fn negative_coordinates_are_a_lossy_boundary() {
    // The grammar carries no sign: a negative coordinate encodes with one
    // but does not read back.
    let text = UnitState::Move(-100, 200).to_text();
    assert_eq!(text, b"move(-1.00, 2.00)".to_vec());
    assert!(UnitState::from_text(&text).is_err());
}

#[test]
fn fraction_truncates_past_two_digits() {
    let st = UnitState::from_text(b"move(1.239, 2.00)").unwrap();
    assert_eq!(st, UnitState::Move(123, 200));
}

#[test]
fn malformed_states_are_refused() {
    assert!(UnitState::from_text(b"").is_err());
    assert!(UnitState::from_text(b"move(1, 2)").is_err());
    assert!(UnitState::from_text(b"shoot(not-an-id)").is_err());
    assert!(UnitState::from_text(b"sleep(1.00, 2.00)").is_err());
    // The version nibble of an identifier is checked.
    assert!(UnitState::from_text(b"shoot(00000000-0000-5000-8000-000000000000)").is_err());
}

#[test]
fn parser_reads_tokens() {
    let s = b"move(1.00, 2.00)";
    let (name, p) = read_fn(s, 0).unwrap();
    assert_eq!(name, b"move".to_vec());
    assert_eq!(p, 5);
    let (x, p) = read_float(s, p).unwrap();
    assert_eq!(x, 100);
    let (y, p) = read_float(s, p).unwrap();
    assert_eq!(y, 200);
    assert_eq!(p, s.len());
}

#[test]
fn parser_reads_ints_and_rejects_overflow() {
    assert_eq!(read_int(b"42, rest", 0).unwrap(), (42, 4));
    assert_eq!(read_int(b"7)", 0).unwrap(), (7, 2));
    let err = read_int(b"99999999999999999999999", 0).unwrap_err();
    assert_eq!(err.1, TokenType::Int);
    let err = read_int(b"x", 0).unwrap_err();
    assert_eq!(err.0, b"x".to_vec());
}

#[test]
fn parser_reads_symbols_and_tuples() {
    let (sym, p) = read_symbol(b"north-west, 1", 0).unwrap();
    assert_eq!(sym, b"north-west".to_vec());
    assert_eq!(p, 12);
    assert_eq!(read_tuple(b"(5", 0).unwrap(), 1);
    assert_eq!(read_tuple(b"5", 0).unwrap_err().1, TokenType::Tuple);
    let (rest, end) = read_rest(b"abc)", 1);
    assert_eq!(rest, b"bc)".to_vec());
    assert_eq!(end, 4);
}

#[test]
fn parser_reads_ids() {
    let text = format!("{}, x", ID_A_TEXT);
    let (id, p) = read_id(text.as_bytes(), 0).unwrap();
    assert_eq!(id, ID_A);
    assert_eq!(p, 38);
    // A variant nibble outside 8..b is refused.
    let bad = "00000000-0000-4000-7000-000000000000";
    assert_eq!(read_id(bad.as_bytes(), 0).unwrap_err().1, TokenType::Id);
}

#[test]
fn id_text_matches_generator_shape() {
    let text = id_to_text(ID_B);
    assert_eq!(text, b"00000000-0000-4000-8000-000000000001".to_vec());
}

#[test]
fn generated_ids_are_hyphenated_v4() {
    let s = gen_uuid();
    let b = s.as_bytes();
    assert_eq!(b.len(), 36);
    for pos in [8, 13, 18, 23] {
        assert_eq!(b[pos], b'-');
    }
    assert_eq!(b[14], b'4');
    assert!(b"89ab".contains(&b[19]));
    // The text the generator yields is readable by the identifier reader.
    let (_, p) = read_id(b, 0).expect("generated id must read back");
    assert_eq!(p, 36);
    assert_ne!(gen_uuid(), s);
}

#[test]
fn delta_update_state_decodes() {
    let text = format!("update_state({}, move(1.00, 2.00))", ID_A_TEXT);
    match Delta::from_text(text.as_bytes()).unwrap() {
        Delta::UpdateState(id, st) => {
            assert_eq!(id, ID_A);
            assert_eq!(st, UnitState::Move(100, 200));
        },
        other => panic!("wrong delta: {:?}", other),
    }
}

#[test]
fn delta_new_unit_decodes() {
    let text = format!("new_unit(soldier, {}, 1.00, 2.00, 3.14, 1)", ID_A_TEXT);
    match Delta::from_text(text.as_bytes()).unwrap() {
        Delta::NewUnit(role, id, x, y, rot, team) => {
            assert_eq!(role, UnitRole::Soldier);
            assert_eq!(id, ID_A);
            assert_eq!((x, y, rot, team), (100, 200, 314, 1));
        },
        other => panic!("wrong delta: {:?}", other),
    }
    let bad = format!("new_unit(colonel, {}, 1.00, 2.00, 3.14, 1)", ID_A_TEXT);
    assert!(Delta::from_text(bad.as_bytes()).is_err());
}

#[test]
fn timeline_entry_decodes_and_sorts() {
    let text = format!("(5, update_state({}, dead))", ID_A_TEXT);
    let ev = TimelineEvent::from_text(text.as_bytes()).unwrap();
    assert_eq!(ev.time, 5);
    assert!(matches!(ev.delta, Delta::UpdateState(_, UnitState::Dead)));

    let later = format!("(9, update_state({}, idle))", ID_A_TEXT);
    let sorted = sort_timeline(vec![
        TimelineEvent::from_text(later.as_bytes()).unwrap(),
        TimelineEvent::from_text(text.as_bytes()).unwrap(),
    ]);
    assert_eq!(sorted.len(), 2);
    assert_eq!(sorted[0].time, 5);
    assert_eq!(sorted[1].time, 9);
}

#[test]
fn behavior_keys_name_entry_points() {
    let mut interp = Interpreter::new();
    let u = Unit::new(UnitRole::Soldier, ID_A, 0, 0, 0, 1, UnitState::Idle);
    let (key, snap, other) = interp.exec(&UnitRole::Soldier, &EventType::Collision, &u, None);
    assert_eq!(key, b"soldier_on_collision".to_vec());
    assert_eq!(snap.id, ID_A);
    assert_eq!(snap.state, UnitState::Idle);
    assert!(other.is_none());
    let (key, _, _) = interp.exec(&UnitRole::Bullet, &EventType::EnterView, &u, None);
    assert_eq!(key, b"bullet_on_enter_view".to_vec());
    let (key, _, _) = interp.exec(&UnitRole::General, &EventType::ExitView, &u, None);
    assert_eq!(key, b"general_on_exit_view".to_vec());
    let (key, _, _) = interp.exec(&UnitRole::Soldier, &EventType::StateChange, &u, None);
    assert_eq!(key, b"soldier_on_state_change".to_vec());
}

#[test]
fn script_results_become_deltas() {
    let u = Unit::new(UnitRole::Soldier, ID_A, 0, 0, 0, 1, UnitState::Idle);
    let snap = UnitSnapshot::new(&u);
    // No declared result: nothing to apply.
    assert!(matches!(Interpreter::apply_script_result(&snap, None), Ok(None)));
    // The state the unit already has: nothing to apply.
    let same = b"idle".to_vec();
    assert!(matches!(Interpreter::apply_script_result(&snap, Some(&same)), Ok(None)));
    // A new state becomes an update delta for the unit.
    let moved = b"move(1.00, 2.00)".to_vec();
    match Interpreter::apply_script_result(&snap, Some(&moved)) {
        Ok(Some(Delta::UpdateState(id, st))) => {
            assert_eq!(id, ID_A);
            assert_eq!(st, UnitState::Move(100, 200));
        },
        other => panic!("wrong outcome: {:?}", other),
    }
    // An undecodable result is the worker's fatal error.
    let bad = b"whatever this is".to_vec();
    assert!(Interpreter::apply_script_result(&snap, Some(&bad)).is_err());
}

#[test]
fn errors_carry_the_expected_token_kind() {
    assert_eq!(read_float(b"1, 2", 0).unwrap_err().1, TokenType::Float);
    assert_eq!(read_float(b"x", 0).unwrap_err().1, TokenType::Float);
    assert_eq!(read_symbol(b"(", 0).unwrap_err().1, TokenType::Symbol);
    assert_eq!(read_fn(b"move 1", 0).unwrap_err().1, TokenType::Function);
    assert_eq!(UnitState::from_text(b"sleep(1.00, 2.00)").unwrap_err().1, TokenType::Other);
    // The error carries the unread remainder.
    let err = UnitState::from_text(b"move(x)").unwrap_err();
    assert_eq!(err.0, b"x)".to_vec());
    assert_eq!(err.1, TokenType::Float);
}

#[test]
fn timeline_without_parenthesis_is_tagged_other() {
    // A timeline entry that does not open with a parenthesis hands the
    // whole text back under the catch-all kind.
    let err = TimelineEvent::from_text(b"update_state").unwrap_err();
    assert_eq!(err.0, b"update_state".to_vec());
    assert_eq!(err.1, TokenType::Other);
    // A bad time offset is tagged as the integer reader's failure.
    let err = TimelineEvent::from_text(b"(x, idle)").unwrap_err();
    assert_eq!(err.1, TokenType::Int);
}
