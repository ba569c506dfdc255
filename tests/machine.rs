use bb5_cyclers::machine::{Dir, Machine, MachineDescription, NewState, State, Transition};

fn tr(out: bool, dir: Dir, new_state: NewState) -> Transition {
    Transition { out, dir, new_state }
}

fn with_a(t0: Transition, t1: Transition) -> MachineDescription {
    let mut d = MachineDescription { transitions: [tr(false, Dir::L, NewState::Undef); 10] };
    d.set_transition(State::A, false, t0);
    d.set_transition(State::A, true, t1);
    d
}

#[test]
fn new_machine_has_one_blank_cell() {
    let m = Machine::new(with_a(tr(true, Dir::R, NewState::A), tr(true, Dir::R, NewState::A)));
    assert_eq!(m.tape, vec![false]);
    assert_eq!(m.head_offset, 0);
    assert_eq!(m.cells_below_zero, 0);
    assert_eq!(m.state, State::A);
    assert_eq!(m.head(), 0);
}

#[test]
fn step_left_prepends_a_cell() {
    let mut m = Machine::new(with_a(tr(true, Dir::L, NewState::B), tr(true, Dir::L, NewState::A)));
    assert!(!m.step());
    assert_eq!(m.tape, vec![false, true]);
    assert_eq!(m.head_offset, 0);
    assert_eq!(m.cells_below_zero, 1);
    assert_eq!(m.state, State::B);
    assert_eq!(m.head(), -1);
}

#[test]
fn step_right_appends_a_cell() {
    let mut m = Machine::new(with_a(tr(true, Dir::R, NewState::A), tr(false, Dir::L, NewState::A)));
    assert!(!m.step());
    assert_eq!(m.tape, vec![true, false]);
    assert_eq!(m.head_offset, 1);
    assert_eq!(m.head(), 1);
    // Reads 0 at offset 1: writes 1, moves right, appends again.
    assert!(!m.step());
    assert_eq!(m.tape, vec![true, true, false]);
    assert_eq!(m.head(), 2);
    assert_eq!(m.transition(), tr(true, Dir::R, NewState::A));
}

#[test]
fn step_inside_window_moves_without_growing() {
    // A0 = (1, R, A), A1 = (0, L, A): 0 -> write 1, right; then back left over 1s.
    let mut m = Machine::new(with_a(tr(true, Dir::R, NewState::A), tr(false, Dir::L, NewState::A)));
    assert!(!m.step());
    assert!(!m.step());
    assert_eq!(m.tape, vec![true, true, false]);
    assert!(!m.step());
    assert_eq!(m.tape, vec![true, true, true, false]);
    let mut back = Machine::new(with_a(tr(true, Dir::R, NewState::B), tr(false, Dir::L, NewState::A)));
    back.description.set_transition(State::B, false, tr(false, Dir::L, NewState::A));
    assert!(!back.step());
    assert!(!back.step());
    assert_eq!(back.tape, vec![true, false]);
    assert_eq!(back.head_offset, 0);
    assert_eq!(back.cells_below_zero, 0);
}

#[test]
fn halting_step_changes_nothing() {
    let mut m = Machine::new(with_a(tr(true, Dir::R, NewState::Undef), tr(true, Dir::R, NewState::A)));
    assert!(m.step());
    assert_eq!(m.tape, vec![false]);
    assert_eq!(m.head_offset, 0);
    assert_eq!(m.state, State::A);
}

#[test]
fn transition_lookup_uses_state_and_symbol() {
    let mut d = MachineDescription { transitions: [tr(false, Dir::L, NewState::Undef); 10] };
    d.set_transition(State::C, true, tr(true, Dir::R, NewState::E));
    assert_eq!(d.transitions[5], tr(true, Dir::R, NewState::E));
    assert_eq!(d.transition(State::C, true), tr(true, Dir::R, NewState::E));
    assert_eq!(d.transition(State::C, false), tr(false, Dir::L, NewState::Undef));
    assert_eq!(d.transition(State::C, true).state(), Some(State::E));
    assert_eq!(d.transition(State::C, false).state(), None);
}

#[test]
fn record_decodes_in_table_order() {
    let mut bytes = vec![0u8; 30];
    // A0 = (1, R, B)
    bytes[0] = 1;
    bytes[1] = 0;
    bytes[2] = 2;
    // E1 = (0, L, E)
    bytes[27] = 0;
    bytes[28] = 1;
    bytes[29] = 5;
    let d = MachineDescription::from_bytes(&bytes).unwrap();
    assert_eq!(d.transitions[0], tr(true, Dir::R, NewState::B));
    assert_eq!(d.transitions[1], tr(false, Dir::R, NewState::Undef));
    assert_eq!(d.transition(State::E, true), tr(false, Dir::L, NewState::E));
}

#[test]
fn malformed_records_are_refused() {
    assert!(MachineDescription::from_bytes(&[0u8; 29]).is_none());
    assert!(MachineDescription::from_bytes(&[0u8; 31]).is_none());
    let mut bad_next = vec![0u8; 30];
    bad_next[14] = 6;
    assert!(MachineDescription::from_bytes(&bad_next).is_none());
    let mut bad_dir = vec![0u8; 30];
    bad_dir[4] = 2;
    assert!(MachineDescription::from_bytes(&bad_dir).is_none());
    let mut bad_out = vec![0u8; 30];
    bad_out[3] = 2;
    assert!(MachineDescription::from_bytes(&bad_out).is_none());
}

fn halting_table() -> MachineDescription {
    MachineDescription { transitions: [tr(true, Dir::R, NewState::Undef); 10] }
}

#[test]
fn three_reachable_states_are_fewer_than_five() {
    let mut d = halting_table();
    d.set_transition(State::A, false, tr(true, Dir::R, NewState::C));
    d.set_transition(State::A, true, tr(true, Dir::L, NewState::B));
    d.set_transition(State::C, false, tr(false, Dir::L, NewState::A));
    assert!(d.has_less_than_5_states());
}

#[test]
fn five_reachable_states() {
    let mut d = halting_table();
    d.set_transition(State::A, false, tr(true, Dir::R, NewState::B));
    d.set_transition(State::A, true, tr(true, Dir::R, NewState::C));
    d.set_transition(State::B, false, tr(true, Dir::L, NewState::D));
    d.set_transition(State::B, true, tr(true, Dir::L, NewState::E));
    assert!(!d.has_less_than_5_states());
    assert!(halting_table().has_less_than_5_states());
}

#[test]
fn normalize_renames_in_walk_order_and_mirrors() {
    let mut d = halting_table();
    d.set_transition(State::A, false, tr(true, Dir::R, NewState::C));
    d.set_transition(State::A, true, tr(true, Dir::L, NewState::B));
    d.set_transition(State::C, false, tr(false, Dir::L, NewState::A));
    let n = d.normalize();
    let expected = [
        tr(true, Dir::L, NewState::B),
        tr(true, Dir::R, NewState::C),
        tr(false, Dir::R, NewState::A),
        tr(true, Dir::L, NewState::Undef),
        tr(true, Dir::L, NewState::Undef),
        tr(true, Dir::L, NewState::Undef),
        tr(false, Dir::R, NewState::Undef),
        tr(false, Dir::R, NewState::Undef),
        tr(false, Dir::R, NewState::Undef),
        tr(false, Dir::R, NewState::Undef),
    ];
    assert_eq!(n.transitions, expected);
}

#[test]
fn normalize_keeps_left_moving_table_unmirrored() {
    let mut d = halting_table();
    d.set_transition(State::A, false, tr(true, Dir::L, NewState::A));
    let n = d.normalize();
    assert_eq!(n.transitions[0], tr(true, Dir::L, NewState::A));
    assert_eq!(n.transitions[1], tr(true, Dir::R, NewState::Undef));
    assert_eq!(n.transitions[2], tr(false, Dir::L, NewState::Undef));
}

#[test]
fn tape_is_drawn_with_padding_and_head_letter() {
    let mut m = Machine::new(with_a(tr(true, Dir::L, NewState::B), tr(true, Dir::L, NewState::A)));
    assert_eq!(m.tape_str(0), "a");
    m.step();
    assert_eq!(m.tape_str(3), "__b\u{25A0}");
    assert_eq!(m.tape_str(1), "b\u{25A0}");
}

#[test]
fn state_conversions() {
    assert_eq!(NewState::from_state(State::D), NewState::D);
    assert_eq!(NewState::from_state_idx(0), NewState::A);
    assert_eq!(NewState::from_state_idx(4), NewState::E);
    assert_eq!(NewState::Undef.state(), None);
    assert_eq!(NewState::C.state(), Some(State::C));
    assert_eq!(State::E.index(), 4);
}
