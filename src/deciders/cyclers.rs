//! The simple cycler decider: a machine whose whole configuration recurs loops forever.
use vstd::prelude::*;

use crate::machine::{Machine, MachineDescription, MachineView, State, lemma_run};

verus! {

/// Number of steps the decider simulates; it looks at one configuration more.
pub const MAX_STEPS: usize = 1000;

/// Index of the first `true` cell of `s` at or after `i`, or `s.len()` if none.
pub open spec fn first_one_from(s: Seq<bool>, i: nat) -> nat
    decreases s.len() - i,
{
    if i < s.len() && !s[i as int] {
        first_one_from(s, i + 1)
    } else {
        i
    }
}

/// Number of `false` cells at the front of `s`.
pub open spec fn leading_zeros(s: Seq<bool>) -> nat {
    first_one_from(s, 0)
}

/// A configuration with the blank cells left of the first `1` dropped.
pub struct NormalizedConfig {
    pub tape: Seq<bool>,
    pub state: State,
    pub head: int,
    pub tape_start: int,
}

/// The normalized form of a configuration: the stored tape from its first `1` on,
/// the state, the head's logical position and that of the first kept cell.
pub open spec fn normalized(v: MachineView) -> NormalizedConfig {
    let lz = leading_zeros(v.tape);
    NormalizedConfig {
        tape: v.tape.subrange(lz as int, v.tape.len() as int),
        state: v.state,
        head: v.head_offset - v.cells_below_zero,
        tape_start: lz - v.cells_below_zero,
    }
}

/// The configuration `v` with `k` more blank cells stored on its left.
pub open spec fn pad_left(v: MachineView, k: nat) -> MachineView {
    MachineView {
        tape: Seq::new(k, |i: int| false) + v.tape,
        head_offset: v.head_offset + k,
        cells_below_zero: v.cells_below_zero + k,
        ..v
    }
}

/// The normalized configuration after `n` steps from the start.
pub open spec fn config_at(d: MachineDescription, n: nat) -> NormalizedConfig {
    normalized(MachineView::initial(d).run(n))
}

/// No configuration before step `n` halts.
pub open spec fn runs_for(d: MachineDescription, n: nat) -> bool {
    forall|k: nat| k < n ==> !(#[trigger] MachineView::initial(d).run(k)).halts()
}

/// Some normalized configuration among the first `max + 1` recurs, and the
/// machine does not halt before the recurrence.
pub open spec fn is_cycler(d: MachineDescription, max: nat) -> bool {
    exists|i: nat, j: nat|
        i < j <= max && #[trigger] config_at(d, i) == #[trigger] config_at(d, j) && runs_for(d, j)
}

proof fn lemma_first_one_bounds(s: Seq<bool>, i: nat)
    requires
        i <= s.len(),
    ensures
        i <= first_one_from(s, i) <= s.len(),
    decreases s.len() - i,
{
    if i < s.len() && !s[i as int] {
        lemma_first_one_bounds(s, i + 1);
    }
}

proof fn lemma_first_one_shift(t: Seq<bool>, k: nat, i: nat)
    requires
        i <= t.len(),
    ensures
        first_one_from(Seq::new(k, |j: int| false) + t, k + i) == k + first_one_from(t, i),
    decreases t.len() - i,
{
    let z = Seq::new(k, |j: int| false) + t;
    if i < t.len() {
        assert(z[(k + i) as int] == t[i as int]);
        if !t[i as int] {
            lemma_first_one_shift(t, k, i + 1);
        }
    }
}

proof fn lemma_first_one_blank(t: Seq<bool>, k: nat, i: nat)
    requires
        i <= k,
    ensures
        first_one_from(Seq::new(k, |j: int| false) + t, i) == first_one_from(
            Seq::new(k, |j: int| false) + t,
            k,
        ),
    decreases k - i,
{
    let z = Seq::new(k, |j: int| false) + t;
    if i < k {
        assert(!z[i as int]);
        lemma_first_one_blank(t, k, i + 1);
    }
}

/// Blank cells stored left of the tape's content do not change its normalized
/// form: it depends only on the cells from the first `1` on and on the offsets.
pub proof fn lemma_normalized_ignores_left_blanks(v: MachineView, k: nat)
    ensures
        normalized(pad_left(v, k)) == normalized(v),
{
    let z = Seq::new(k, |j: int| false) + v.tape;
    lemma_first_one_blank(v.tape, k, 0);
    lemma_first_one_shift(v.tape, k, 0);
    lemma_first_one_bounds(v.tape, 0);
    let lz = leading_zeros(v.tape);
    assert(leading_zeros(z) == k + lz);
    assert(z.subrange((k + lz) as int, z.len() as int) =~= v.tape.subrange(
        lz as int,
        v.tape.len() as int,
    ));
}

/// The decider's verdict depends on the table alone: equal tables get equal
/// verdicts, so asking twice gives the same answer.
pub proof fn lemma_cycler_verdict_is_function(d1: MachineDescription, d2: MachineDescription)
    requires
        d1 == d2,
    ensures
        is_cycler(d1, MAX_STEPS as nat) == is_cycler(d2, MAX_STEPS as nat),
{
}

/// A table whose first transition halts is never a cycler.
pub proof fn lemma_cycler_rejects_immediate_halt(d: MachineDescription, max: nat)
    requires
        d.transitions@[0].new_state is Undef,
    ensures
        !is_cycler(d, max),
{
    assert(MachineView::initial(d).run(0).halts());
    if is_cycler(d, max) {
        let (i, j) = choose|i: nat, j: nat|
            i < j <= max && #[trigger] config_at(d, i) == #[trigger] config_at(d, j) && runs_for(
                d,
                j,
            );
        assert(!MachineView::initial(d).run(0).halts());
    }
}

/// A normalized configuration as stored by the decider.
struct StoredState {
    // Tape, starting at the first non-false value.
    tape: Vec<bool>,
    state: State,
    head: i32,
    tape_start: i32,
}

impl View for StoredState {
    type V = NormalizedConfig;

    closed spec fn view(&self) -> NormalizedConfig {
        NormalizedConfig {
            tape: self.tape@,
            state: self.state,
            head: self.head as int,
            tape_start: self.tape_start as int,
        }
    }
}

impl StoredState {
    fn from(machine: &Machine) -> (r: StoredState)
        requires
            machine.wf(),
            machine.tape@.len() <= i32::MAX,
        ensures
            r@ == normalized(machine@),
    {
        let len = machine.tape.len();
        let mut leading_zeros: usize = 0;
        while leading_zeros < len && !machine.tape[leading_zeros]
            invariant
                len == machine.tape@.len(),
                leading_zeros <= len,
                first_one_from(machine.tape@, 0) == first_one_from(
                    machine.tape@,
                    leading_zeros as nat,
                ),
            decreases len - leading_zeros,
        {
            leading_zeros = leading_zeros + 1;
        }
        let mut tape: Vec<bool> = Vec::new();
        let mut i: usize = leading_zeros;
        while i < len
            invariant
                len == machine.tape@.len(),
                leading_zeros <= i <= len,
                tape@ =~= machine.tape@.subrange(leading_zeros as int, i as int),
            decreases len - i,
        {
            tape.push(machine.tape[i]);
            i = i + 1;
        }
        StoredState {
            tape,
            state: machine.state,
            head: machine.head_offset as i32 - machine.cells_below_zero as i32,
            tape_start: leading_zeros as i32 - machine.cells_below_zero as i32,
        }
    }

    fn same(&self, other: &StoredState) -> (r: bool)
        ensures
            r == (self@ == other@),
    {
        if self.state != other.state || self.head != other.head || self.tape_start
            != other.tape_start || self.tape.len() != other.tape.len() {
            return false;
        }
        let mut i: usize = 0;
        while i < self.tape.len()
            invariant
                self.tape@.len() == other.tape@.len(),
                i <= self.tape@.len(),
                forall|j: int| 0 <= j < i ==> self.tape@[j] == other.tape@[j],
            decreases self.tape@.len() - i,
        {
            if self.tape[i] != other.tape[i] {
                return false;
            }
            i = i + 1;
        }
        assert(self.tape@ =~= other.tape@);
        true
    }
}

/// Detects machines that visit the exact same configuration (tape, head and
/// machine state) twice, and are therefore in a loop: keeps every normalized
/// configuration seen so far and looks the new one up among them. Returns false
/// if the machine halts or no configuration recurs within the step budget.
pub fn decide(description: MachineDescription) -> (r: bool)
    ensures
        r == is_cycler(description, MAX_STEPS as nat),
{
    let ghost start = MachineView::initial(description);
    let mut seen: Vec<StoredState> = Vec::new();
    let mut machine = Machine::new(description);
    let mut step: usize = 0;
    while step <= MAX_STEPS
        invariant
            step <= MAX_STEPS + 1,
            machine@ == start.run(step as nat),
            start == MachineView::initial(description),
            seen@.len() == step,
            forall|i: int| 0 <= i < step ==> #[trigger] seen@[i]@ == config_at(description, i as nat),
            runs_for(description, step as nat),
            forall|i: nat, j: nat|
                i < j < step ==> #[trigger] config_at(description, i) != #[trigger] config_at(
                    description,
                    j,
                ),
        decreases MAX_STEPS + 1 - step,
    {
        proof {
            lemma_run(description, step as nat);
        }
        let current = StoredState::from(&machine);
        let mut i: usize = 0;
        while i < seen.len()
            invariant
                i <= seen@.len(),
                seen@.len() == step,
                step <= MAX_STEPS,
                forall|j: int| 0 <= j < step ==> #[trigger] seen@[j]@ == config_at(description, j as nat),
                current@ == config_at(description, step as nat),
                runs_for(description, step as nat),
                forall|j: int| 0 <= j < i ==> #[trigger] seen@[j]@ != current@,
            decreases seen@.len() - i,
        {
            if seen[i].same(&current) {
                proof {
                    assert(seen@[i as int]@ == current@);
                    assert(config_at(description, i as nat) == config_at(description, step as nat));
                }
                return true;
            }
            i = i + 1;
        }
        proof {
            assert forall|a: nat, b: nat|
                a < b < step + 1 implies #[trigger] config_at(description, a)
                != #[trigger] config_at(description, b) by {
                if b == step {
                    assert(seen@[a as int]@ != current@);
                }
            }
        }
        let ghost seen_before = seen@;
        seen.push(current);
        if machine.step() {
            proof {
                if is_cycler(description, MAX_STEPS as nat) {
                    let (a, b) = choose|a: nat, b: nat|
                        a < b <= MAX_STEPS && #[trigger] config_at(description, a)
                            == #[trigger] config_at(description, b) && runs_for(description, b);
                    if b > step {
                        assert(!start.run(step as nat).halts());
                    }
                }
            }
            return false;
        }
        proof {
            assert forall|j: int| 0 <= j < step + 1 implies #[trigger] seen@[j]@ == config_at(
                description,
                j as nat,
            ) by {
                if j < step {
                    assert(seen@[j] == seen_before[j]);
                }
            }
        }
        step = step + 1;
    }
    proof {
        if is_cycler(description, MAX_STEPS as nat) {
            let (a, b) = choose|a: nat, b: nat|
                a < b <= MAX_STEPS && #[trigger] config_at(description, a) == #[trigger] config_at(
                    description,
                    b,
                ) && runs_for(description, b);
        }
    }
    false
}

} // verus!
