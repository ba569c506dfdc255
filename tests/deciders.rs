use bb5_cyclers::deciders::cyclers;
use bb5_cyclers::deciders::translated_cyclers;
use bb5_cyclers::machine::{Dir, MachineDescription, NewState, State, Transition};

fn tr(out: bool, dir: Dir, new_state: NewState) -> Transition {
    Transition { out, dir, new_state }
}

fn halt() -> Transition {
    tr(true, Dir::R, NewState::Undef)
}

fn table(rows: [Transition; 10]) -> MachineDescription {
    MachineDescription { transitions: rows }
}

/// Every transition halts.
fn all_halting() -> MachineDescription {
    table([halt(); 10])
}

/// Writes 1 and moves right forever.
fn right_runner() -> MachineDescription {
    let mut d = all_halting();
    d.set_transition(State::A, false, tr(true, Dir::R, NewState::A));
    d.set_transition(State::A, true, tr(true, Dir::R, NewState::A));
    d
}

/// Writes 1 and moves left forever.
fn left_runner() -> MachineDescription {
    let mut d = all_halting();
    d.set_transition(State::A, false, tr(true, Dir::L, NewState::A));
    d.set_transition(State::A, true, tr(true, Dir::L, NewState::A));
    d
}

/// Bounces between two cells forever without growing the tape after its first step.
fn bouncer() -> MachineDescription {
    let mut d = all_halting();
    d.set_transition(State::A, false, tr(true, Dir::R, NewState::B));
    d.set_transition(State::A, true, tr(true, Dir::R, NewState::B));
    d.set_transition(State::B, false, tr(false, Dir::L, NewState::A));
    d
}

/// Halts on its third step.
fn short_halter() -> MachineDescription {
    let mut d = all_halting();
    d.set_transition(State::A, false, tr(true, Dir::R, NewState::B));
    d.set_transition(State::B, false, tr(true, Dir::L, NewState::C));
    d
}

#[test]
fn immediate_halt_is_undecided_by_both() {
    let d = all_halting();
    assert!(!cyclers::decide(d));
    assert!(!translated_cyclers::decide(d, translated_cyclers::MAX_STEPS));
}

#[test]
fn later_halt_is_undecided_by_both() {
    let d = short_halter();
    assert!(!cyclers::decide(d));
    assert!(!translated_cyclers::decide(d, 1000));
}

#[test]
fn right_runner_is_translated_cycler() {
    let d = right_runner();
    assert!(translated_cyclers::decide(d, 1000));
    // Step 1 has no stored cell left of the head at step 0 to compare with;
    // step 2 matches the snapshot of step 1.
    assert!(translated_cyclers::decide(d, 3));
    assert!(!translated_cyclers::decide(d, 2));
    assert!(!translated_cyclers::decide(d, 1));
    assert!(!translated_cyclers::decide(d, 0));
}

#[test]
fn left_runner_is_translated_cycler() {
    let d = left_runner();
    assert!(translated_cyclers::decide(d, 1000));
    assert!(translated_cyclers::decide(d, 3));
    assert!(!translated_cyclers::decide(d, 2));
}

#[test]
fn runners_are_not_cyclers() {
    assert!(!cyclers::decide(right_runner()));
    assert!(!cyclers::decide(left_runner()));
}

#[test]
fn bouncer_is_cycler() {
    assert!(cyclers::decide(bouncer()));
}

#[test]
fn bouncer_is_not_found_by_translated_cycler() {
    // Only its first step grows the tape, so no second boundary event occurs:
    // a cycler need not be caught by the translated cycler decider.
    assert!(!translated_cyclers::decide(bouncer(), 2000));
}

#[test]
fn deciders_are_idempotent() {
    for d in [all_halting(), right_runner(), left_runner(), bouncer(), short_halter()] {
        assert_eq!(cyclers::decide(d), cyclers::decide(d));
        assert_eq!(translated_cyclers::decide(d, 1000), translated_cyclers::decide(d, 1000));
    }
}

#[test]
fn step_budget_constants() {
    assert_eq!(cyclers::MAX_STEPS, 1000);
    assert_eq!(translated_cyclers::MAX_STEPS, 1000);
}

#[test]
fn retry_follows_the_plain_decider() {
    assert!(translated_cyclers::decide_with_retry(right_runner(), false));
    assert!(translated_cyclers::decide_with_retry(left_runner(), true));
    assert!(!translated_cyclers::decide_with_retry(bouncer(), true));
    assert!(!translated_cyclers::decide_with_retry(all_halting(), true));
    assert!(!translated_cyclers::decide_with_retry(short_halter(), false));
}
