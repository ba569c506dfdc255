//! The translated cycler decider: a machine whose tape profile beside the head
//! recurs, shifted, each time it grows its tape on one side loops forever.
use vstd::prelude::*;

use crate::deciders::cyclers::runs_for;
use crate::machine::{
    Dir, Machine, MachineDescription, MachineView, State, bit_index, lemma_next, lemma_run,
};

verus! {

/// Step budget the decider is usually run with.
pub const MAX_STEPS: usize = 1000;

/// Largest step budget the decider accepts: every logical position and window
/// bound it computes then fits in an `i32`.
pub const STEP_LIMIT: usize = 0x2000_0000;

/// The configuration after `k` steps from the start.
pub open spec fn state_at(d: MachineDescription, k: nat) -> MachineView {
    MachineView::initial(d).run(k)
}

/// Logical head position after `k` steps.
pub open spec fn head_at(d: MachineDescription, k: nat) -> int {
    state_at(d, k).head()
}

/// Leftmost head position over the steps `p ..= s`.
pub open spec fn lowest_head(d: MachineDescription, p: nat, s: nat) -> int
    decreases s - p,
{
    if s <= p {
        head_at(d, p)
    } else {
        let m = lowest_head(d, p, (s - 1) as nat);
        if head_at(d, s) < m {
            head_at(d, s)
        } else {
            m
        }
    }
}

/// Rightmost head position over the steps `p ..= s`.
pub open spec fn highest_head(d: MachineDescription, p: nat, s: nat) -> int
    decreases s - p,
{
    if s <= p {
        head_at(d, p)
    } else {
        let m = highest_head(d, p, (s - 1) as nat);
        if head_at(d, s) > m {
            head_at(d, s)
        } else {
            m
        }
    }
}

/// The cells at logical positions `[lo, hi)` of a stored window whose first cell
/// sits at logical position `tape_start`, if they all lie in it.
pub open spec fn window_of(tape: Seq<bool>, tape_start: int, lo: int, hi: int) -> Option<
    Seq<bool>,
> {
    let start = lo - tape_start;
    let end = hi - tape_start;
    if start < 0 || end > tape.len() || start > end {
        None
    } else {
        Some(tape.subrange(start, end))
    }
}

/// The cells at logical positions `[lo, hi)` of a configuration's stored window.
pub open spec fn window(v: MachineView, lo: int, hi: int) -> Option<Seq<bool>> {
    window_of(v.tape, -v.cells_below_zero, lo, hi)
}

/// The two windows compared when step `s` is checked against the earlier step `p`:
/// from the farthest cell visited since `p` up to the head at `s` (exclusive), and
/// the same span beside the head at `p`.
pub open spec fn compared_windows(d: MachineDescription, p: nat, s: nat) -> (
    Option<Seq<bool>>,
    Option<Seq<bool>>,
) {
    let prev = state_at(d, p);
    let cur = state_at(d, s);
    if cur.current_transition().dir == Dir::R {
        let leftmost = lowest_head(d, p, s);
        let delta = cur.head() - leftmost;
        (window(prev, prev.head() - delta, prev.head()), window(cur, leftmost, cur.head()))
    } else {
        let rightmost = highest_head(d, p, s);
        let delta = rightmost - cur.head();
        (
            window(prev, prev.head() + 1, prev.head() + 1 + delta),
            window(cur, cur.head() + 1, rightmost + 1),
        )
    }
}

/// Steps `p` and `s` both grow the tape on the same side, into the same state,
/// writing the same symbol.
pub open spec fn same_key(d: MachineDescription, p: nat, s: nat) -> bool {
    let tp = state_at(d, p).current_transition();
    let ts = state_at(d, s).current_transition();
    &&& tp.dir == ts.dir
    &&& tp.new_state == ts.new_state
    &&& tp.out == ts.out
}

/// Boundary events `p` and `s` have the same key and the tape swept since `p`
/// repeats, shifted, what lay beside the head at `p`.
#[verifier::opaque]
pub open spec fn translated_match(d: MachineDescription, p: nat, s: nat) -> bool {
    &&& state_at(d, p).is_breakpoint()
    &&& state_at(d, s).is_breakpoint()
    &&& same_key(d, p, s)
    &&& compared_windows(d, p, s).0 == compared_windows(d, p, s).1
}

/// Within the first `n` steps some boundary event matches an earlier one, and the
/// machine does not halt up to it.
pub open spec fn is_translated_cycler(d: MachineDescription, n: nat) -> bool {
    exists|p: nat, s: nat|
        p < s < n && #[trigger] translated_match(d, p, s) && runs_for(d, s + 1)
}

/// Position of a boundary event's bucket among the twenty.
pub open spec fn bucket_index(dir: Dir, state: State, bit: bool) -> int {
    (if dir == Dir::R {
        0int
    } else {
        10int
    }) + state.spec_index() * 2 + bit_index(bit)
}

/// Bucket of the step taken from `v`, when it does not halt.
pub open spec fn bucket_of(v: MachineView) -> int {
    let t = v.current_transition();
    match t.new_state.to_state() {
        Some(st) => bucket_index(t.dir, st, t.out),
        None => 0,
    }
}

/// The stored window only grows, so every head position up to step `s` lies in
/// the window of step `s`; positions after `k` steps lie within `k` of the origin.
proof fn lemma_window_grows(d: MachineDescription, k: nat, s: nat)
    requires
        k <= s,
    ensures
        state_at(d, s).cells_below_zero >= state_at(d, k).cells_below_zero,
        state_at(d, s).tape.len() - state_at(d, s).cells_below_zero >= state_at(d, k).tape.len()
            - state_at(d, k).cells_below_zero,
        -state_at(d, s).cells_below_zero <= head_at(d, k) < state_at(d, s).tape.len()
            - state_at(d, s).cells_below_zero,
        -(k as int) <= head_at(d, k) <= k,
    decreases s - k,
{
    lemma_run(d, k);
    lemma_run(d, s);
    if k < s {
        lemma_window_grows(d, k, (s - 1) as nat);
        lemma_run(d, (s - 1) as nat);
        lemma_next(state_at(d, (s - 1) as nat));
    }
}

/// Bounds of the farthest positions visited over `p ..= s`.
proof fn lemma_extremes(d: MachineDescription, p: nat, s: nat)
    requires
        p <= s,
    ensures
        -state_at(d, s).cells_below_zero <= lowest_head(d, p, s) <= head_at(d, s),
        head_at(d, s) <= highest_head(d, p, s) < state_at(d, s).tape.len() - state_at(
            d,
            s,
        ).cells_below_zero,
        -(s as int) <= lowest_head(d, p, s),
        highest_head(d, p, s) <= s,
    decreases s - p,
{
    lemma_window_grows(d, s, s);
    if p < s {
        lemma_extremes(d, p, (s - 1) as nat);
        lemma_window_grows(d, (s - 1) as nat, s);
        lemma_window_grows(d, p, s);
    }
}

/// The window taken from the current configuration always lies in its stored tape.
pub proof fn lemma_current_window_exists(d: MachineDescription, p: nat, s: nat)
    requires
        p <= s,
    ensures
        compared_windows(d, p, s).1 is Some,
{
    lemma_extremes(d, p, s);
    lemma_run(d, s);
}

/// The decider's verdict depends on the table and the budget alone: equal
/// arguments get equal verdicts, so asking twice gives the same answer.
pub proof fn lemma_translated_verdict_is_function(
    d1: MachineDescription,
    d2: MachineDescription,
    n: nat,
)
    requires
        d1 == d2,
    ensures
        is_translated_cycler(d1, n) == is_translated_cycler(d2, n),
{
}

/// A table whose first transition halts is never a translated cycler.
pub proof fn lemma_translated_rejects_immediate_halt(d: MachineDescription, n: nat)
    requires
        d.transitions@[0].new_state is Undef,
    ensures
        !is_translated_cycler(d, n),
{
    assert(state_at(d, 0).halts());
    if is_translated_cycler(d, n) {
        let (p, s) = choose|p: nat, s: nat|
            p < s < n && #[trigger] translated_match(d, p, s) && runs_for(d, s + 1);
        assert(!MachineView::initial(d).run(0).halts());
    }
}

/// What a snapshot records of a configuration.
pub struct SnapshotView {
    pub step: nat,
    pub tape: Seq<bool>,
    pub state: State,
    pub head: int,
    pub tape_start: int,
}

/// The snapshot of the configuration after `k` steps.
pub open spec fn snapshot_at(d: MachineDescription, k: nat) -> SnapshotView {
    let v = state_at(d, k);
    SnapshotView {
        step: k,
        tape: v.tape,
        state: v.state,
        head: v.head(),
        tape_start: -v.cells_below_zero,
    }
}

/// A configuration frozen at a boundary event, with its own copy of the tape.
struct StoredSnapshot {
    // Tape, as it was when the machine hit this step.
    step: usize,
    tape: Vec<bool>,
    state: State,
    head: i32,
    tape_start: i32,
}

impl View for StoredSnapshot {
    type V = SnapshotView;

    closed spec fn view(&self) -> SnapshotView {
        SnapshotView {
            step: self.step as nat,
            tape: self.tape@,
            state: self.state,
            head: self.head as int,
            tape_start: self.tape_start as int,
        }
    }
}

impl StoredSnapshot {
    fn new(step: usize, machine: &Machine) -> (r: Self)
        requires
            machine.wf(),
            machine.tape@.len() <= i32::MAX,
        ensures
            r@ == (SnapshotView {
                step: step as nat,
                tape: machine@.tape,
                state: machine@.state,
                head: machine@.head(),
                tape_start: -machine@.cells_below_zero,
            }),
            r.step == step,
    {
        let mut tape: Vec<bool> = Vec::new();
        let mut i: usize = 0;
        while i < machine.tape.len()
            invariant
                i <= machine.tape@.len(),
                tape@ =~= machine.tape@.subrange(0, i as int),
            decreases machine.tape@.len() - i,
        {
            tape.push(machine.tape[i]);
            i = i + 1;
        }
        assert(tape@ =~= machine.tape@);
        StoredSnapshot {
            step,
            tape,
            state: machine.state,
            head: machine.head(),
            tape_start: -(machine.cells_below_zero as i32),
        }
    }

    /// The cells at logical positions `[lo, hi)`, if they lie in the stored window.
    fn tape_slice(&self, lo: i32, hi: i32) -> (r: Option<&[bool]>)
        requires
            self.tape@.len() <= i32::MAX,
        ensures
            r is Some == window_of(self@.tape, self@.tape_start, lo as int, hi as int) is Some,
            r is Some ==> r->0@ == window_of(
                self@.tape,
                self@.tape_start,
                lo as int,
                hi as int,
            )->0,
    {
        let start = lo as i64 - self.tape_start as i64;
        let end = hi as i64 - self.tape_start as i64;
        if start < 0 || end > self.tape.len() as i64 || start > end {
            return None;
        }
        Some(vstd::slice::slice_subrange(self.tape.as_slice(), start as usize, end as usize))
    }
}

fn slices_equal(a: &[bool], b: &[bool]) -> (r: bool)
    ensures
        r == (a@ == b@),
{
    if a.len() != b.len() {
        return false;
    }
    let mut i: usize = 0;
    while i < a.len()
        invariant
            a@.len() == b@.len(),
            i <= a@.len(),
            forall|j: int| 0 <= j < i ==> a@[j] == b@[j],
        decreases a@.len() - i,
    {
        if a[i] != b[i] {
            return false;
        }
        i = i + 1;
    }
    assert(a@ =~= b@);
    true
}

fn breakpoint_set_index(dir: Dir, state: State, bit: bool) -> (r: usize)
    ensures
        r == bucket_index(dir, state, bit),
        r < 20,
{
    let d: usize = match dir {
        Dir::R => 0,
        Dir::L => 1,
    };
    d * 5 * 2 + state.index() * 2 + if bit { 1usize } else { 0usize }
}

/// Two non-halting transitions share a bucket exactly when they share a key.
proof fn lemma_bucket_injective(t1: crate::machine::Transition, t2: crate::machine::Transition)
    requires
        t1.new_state.to_state() is Some,
        t2.new_state.to_state() is Some,
        bucket_index(t1.dir, t1.new_state.to_state()->0, t1.out) == bucket_index(
            t2.dir,
            t2.new_state.to_state()->0,
            t2.out,
        ),
    ensures
        t1.dir == t2.dir,
        t1.new_state == t2.new_state,
        t1.out == t2.out,
{
}

/// Leftmost of `history[from ..]`, the head positions of steps `from ..= s`.
fn lowest_since(history: &Vec<i32>, from: usize, Ghost(d): Ghost<MachineDescription>) -> (r: i32)
    requires
        from < history@.len() <= STEP_LIMIT,
        forall|i: int| 0 <= i < history@.len() ==> history@[i] == head_at(d, i as nat),
    ensures
        r == lowest_head(d, from as nat, (history@.len() - 1) as nat),
{
    let mut m = history[from];
    let mut k: usize = from + 1;
    while k < history.len()
        invariant
            from < k <= history@.len(),
            forall|i: int| 0 <= i < history@.len() ==> history@[i] == head_at(d, i as nat),
            m == lowest_head(d, from as nat, (k - 1) as nat),
        decreases history@.len() - k,
    {
        if history[k] < m {
            m = history[k];
        }
        k = k + 1;
    }
    m
}

/// Rightmost of `history[from ..]`, the head positions of steps `from ..= s`.
fn highest_since(history: &Vec<i32>, from: usize, Ghost(d): Ghost<MachineDescription>) -> (r: i32)
    requires
        from < history@.len() <= STEP_LIMIT,
        forall|i: int| 0 <= i < history@.len() ==> history@[i] == head_at(d, i as nat),
    ensures
        r == highest_head(d, from as nat, (history@.len() - 1) as nat),
{
    let mut m = history[from];
    let mut k: usize = from + 1;
    while k < history.len()
        invariant
            from < k <= history@.len(),
            forall|i: int| 0 <= i < history@.len() ==> history@[i] == head_at(d, i as nat),
            m == highest_head(d, from as nat, (k - 1) as nat),
        decreases history@.len() - k,
    {
        if history[k] > m {
            m = history[k];
        }
        k = k + 1;
    }
    m
}

/// Compares the window swept since `prev` with the matching window of `prev`.
fn windows_match(
    prev: &StoredSnapshot,
    current: &StoredSnapshot,
    dir: Dir,
    history: &Vec<i32>,
    Ghost(d): Ghost<MachineDescription>,
) -> (r: bool)
    requires
        prev@ == snapshot_at(d, prev.step as nat),
        current@ == snapshot_at(d, current.step as nat),
        prev.step < current.step < STEP_LIMIT,
        history@.len() == current.step + 1,
        forall|i: int| 0 <= i < history@.len() ==> history@[i] == head_at(d, i as nat),
        dir == state_at(d, current.step as nat).current_transition().dir,
    ensures
        r == (compared_windows(d, prev.step as nat, current.step as nat).0 == compared_windows(
            d,
            prev.step as nat,
            current.step as nat,
        ).1),
{
    let ghost p = prev.step as nat;
    let ghost s = current.step as nat;
    proof {
        lemma_extremes(d, p, s);
        lemma_run(d, p);
        lemma_run(d, s);
        lemma_current_window_exists(d, p, s);
    }
    let prev_lo: i32;
    let prev_hi: i32;
    let cur_lo: i32;
    let cur_hi: i32;
    match dir {
        Dir::R => {
            let leftmost = lowest_since(history, prev.step, Ghost(d));
            let delta = current.head - leftmost;
            prev_lo = prev.head - delta;
            prev_hi = prev.head;
            cur_lo = leftmost;
            cur_hi = current.head;
        },
        Dir::L => {
            let rightmost = highest_since(history, prev.step, Ghost(d));
            let delta = rightmost - current.head;
            prev_lo = prev.head + 1;
            prev_hi = prev.head + 1 + delta;
            cur_lo = current.head + 1;
            cur_hi = rightmost + 1;
        },
    }
    let previous_slice = prev.tape_slice(prev_lo, prev_hi);
    let current_slice = current.tape_slice(cur_lo, cur_hi);
    // The window swept since `prev` always lies in the current stored tape.
    assert(current_slice is Some);
    match (previous_slice, current_slice) {
        (Some(a), Some(b)) => slices_equal(a, b),
        _ => false,
    }
}

/// Step `p` is a boundary event.
#[verifier::opaque]
spec fn event_at(d: MachineDescription, p: nat) -> bool {
    state_at(d, p).is_breakpoint()
}

/// Bucket of step `p`.
#[verifier::opaque]
spec fn event_bucket(d: MachineDescription, p: nat) -> int {
    bucket_of(state_at(d, p))
}

/// `snap` is the snapshot of the configuration at its step.
#[verifier::opaque]
spec fn snapshot_faithful(d: MachineDescription, snap: SnapshotView) -> bool {
    snap == snapshot_at(d, snap.step)
}

/// Every stored snapshot is that of an earlier boundary event, kept in its bucket.
#[verifier::opaque]
spec fn sets_sound(d: MachineDescription, sets: Seq<Vec<StoredSnapshot>>, step: nat) -> bool {
    &&& sets.len() == 20
    &&& forall|b: int, j: int|
        0 <= b < 20 && 0 <= j < sets[b]@.len() ==> {
            let snap = #[trigger] sets[b]@[j];
            &&& snapshot_faithful(d, snap@)
            &&& snap.step < step
            &&& event_at(d, snap.step as nat)
            &&& event_bucket(d, snap.step as nat) == b
        }
}

/// Every boundary event before `step` has its snapshot in its bucket.
#[verifier::opaque]
spec fn sets_complete(d: MachineDescription, sets: Seq<Vec<StoredSnapshot>>, step: nat) -> bool {
    forall|p: nat|
        p < step && #[trigger] event_at(d, p) ==> exists|j: int|
            0 <= j < sets[event_bucket(d, p)]@.len() && #[trigger] sets[event_bucket(d, p)]@[j].step
                == p
}

/// No two boundary events before `step` match.
#[verifier::opaque]
spec fn no_match_before(d: MachineDescription, step: nat) -> bool {
    forall|p: nat, s: nat| p < s < step ==> !#[trigger] translated_match(d, p, s)
}

proof fn lemma_sets_entry(
    d: MachineDescription,
    sets: Seq<Vec<StoredSnapshot>>,
    step: nat,
    b: int,
    j: int,
)
    requires
        sets_sound(d, sets, step),
        0 <= b < 20,
        0 <= j < sets[b]@.len(),
    ensures
        sets[b]@[j]@ == snapshot_at(d, sets[b]@[j].step as nat),
        sets[b]@[j].step < step,
        state_at(d, sets[b]@[j].step as nat).is_breakpoint(),
        bucket_of(state_at(d, sets[b]@[j].step as nat)) == b,
{
    reveal(sets_sound);
    reveal(event_at);
    reveal(event_bucket);
    reveal(snapshot_faithful);
}

proof fn lemma_sets_start(d: MachineDescription, sets: Seq<Vec<StoredSnapshot>>)
    requires
        sets.len() == 20,
        forall|b: int| 0 <= b < 20 ==> (#[trigger] sets[b])@.len() == 0,
    ensures
        sets_sound(d, sets, 0),
        sets_complete(d, sets, 0),
        no_match_before(d, 0),
{
    reveal(sets_sound);
    reveal(sets_complete);
    reveal(no_match_before);
}

/// Storing the snapshot of boundary event `step` in its bucket keeps the buckets
/// sound and complete one step further.
proof fn lemma_sets_push(
    d: MachineDescription,
    old_sets: Seq<Vec<StoredSnapshot>>,
    new_sets: Seq<Vec<StoredSnapshot>>,
    bpi: int,
    snap: StoredSnapshot,
    step: nat,
)
    requires
        sets_sound(d, old_sets, step),
        sets_complete(d, old_sets, step),
        0 <= bpi < 20,
        bpi == event_bucket(d, step),
        event_at(d, step),
        snapshot_faithful(d, snap@),
        snap.step == step,
        new_sets.len() == 20,
        new_sets[bpi]@ == old_sets[bpi]@.push(snap),
        forall|b: int| 0 <= b < 20 && b != bpi ==> new_sets[b] == old_sets[b],
    ensures
        sets_sound(d, new_sets, step + 1),
        sets_complete(d, new_sets, step + 1),
{
    reveal(sets_sound);
    reveal(sets_complete);
    assert forall|b: int, k: int| 0 <= b < 20 && 0 <= k < new_sets[b]@.len() implies {
        let e = #[trigger] new_sets[b]@[k];
        &&& snapshot_faithful(d, e@)
        &&& e.step < step + 1
        &&& event_at(d, e.step as nat)
        &&& event_bucket(d, e.step as nat) == b
    } by {
        if b != bpi || k < old_sets[b]@.len() {
            assert(new_sets[b]@[k] == old_sets[b]@[k]);
        }
    }
    assert forall|p: nat| p < step + 1 && #[trigger] event_at(d, p) implies exists|k: int|
        0 <= k < new_sets[event_bucket(d, p)]@.len() && #[trigger] new_sets[event_bucket(
            d,
            p,
        )]@[k].step == p by {
        let b = event_bucket(d, p);
        reveal(event_bucket);
        assert(0 <= b < 20);
        if p == step {
            assert(new_sets[b]@[old_sets[b]@.len() as int].step == p);
        } else {
            let k = choose|k: int| 0 <= k < old_sets[b]@.len() && #[trigger] old_sets[b]@[k].step == p;
            assert(new_sets[b]@[k] == old_sets[b]@[k]);
        }
    }
}

/// A step that is no boundary event leaves the buckets sound and complete, and
/// matches no earlier event.
proof fn lemma_sets_skip(d: MachineDescription, sets: Seq<Vec<StoredSnapshot>>, step: nat)
    requires
        sets_sound(d, sets, step),
        sets_complete(d, sets, step),
        no_match_before(d, step),
        !event_at(d, step),
    ensures
        sets_sound(d, sets, step + 1),
        sets_complete(d, sets, step + 1),
        no_match_before(d, step + 1),
{
    reveal(sets_sound);
    reveal(sets_complete);
    reveal(no_match_before);
    assert forall|p: nat, s: nat| p < s < step + 1 implies !#[trigger] translated_match(d, p, s) by {
        if s == step {
            reveal(event_at);
            reveal(translated_match);
        }
    }
}

/// Boundary event `step` matches none of the snapshots in its bucket, so it
/// matches no earlier event at all.
proof fn lemma_no_match_extend(
    d: MachineDescription,
    sets: Seq<Vec<StoredSnapshot>>,
    step: nat,
    bpi: int,
)
    requires
        sets_complete(d, sets, step),
        no_match_before(d, step),
        0 <= bpi < 20,
        bpi == event_bucket(d, step),
        !state_at(d, step).halts(),
        forall|k: int| 0 <= k < sets[bpi]@.len() ==> !translated_match(
            d,
            (#[trigger] sets[bpi]@[k]).step as nat,
            step,
        ),
    ensures
        no_match_before(d, step + 1),
{
    reveal(sets_complete);
    reveal(no_match_before);
    reveal(translated_match);
    reveal(event_at);
    reveal(event_bucket);
    assert forall|p: nat, s: nat| p < s < step + 1 implies !#[trigger] translated_match(d, p, s) by {
        if s < step {
            assert(!translated_match(d, p, s));
        } else if translated_match(d, p, s) {
            assert(event_at(d, p));
            let b = event_bucket(d, p);
            assert(b == bpi);
            let k = choose|k: int| 0 <= k < sets[b]@.len() && #[trigger] sets[b]@[k].step == p;
        }
    }
}

/// Without a match before `step`, a machine that halts at `step` is no
/// translated cycler, whatever the budget.
proof fn lemma_halt_rejects(d: MachineDescription, step: nat, n: nat)
    requires
        no_match_before(d, step),
        state_at(d, step).halts(),
    ensures
        !is_translated_cycler(d, n),
{
    reveal(no_match_before);
    if is_translated_cycler(d, n) {
        let (p, s) = choose|p: nat, s: nat|
            p < s < n && #[trigger] translated_match(d, p, s) && runs_for(d, s + 1);
        if s >= step {
            assert(!MachineView::initial(d).run(step).halts());
        } else {
            assert(!translated_match(d, p, s));
        }
    }
}

proof fn lemma_budget_rejects(d: MachineDescription, n: nat)
    requires
        no_match_before(d, n),
    ensures
        !is_translated_cycler(d, n),
{
    reveal(no_match_before);
    if is_translated_cycler(d, n) {
        let (p, s) = choose|p: nat, s: nat|
            p < s < n && #[trigger] translated_match(d, p, s) && runs_for(d, s + 1);
        assert(!translated_match(d, p, s));
    }
}

/// Checks if there is a translated cycle.
///
/// Runs the machine for up to `max_steps` steps, recording a snapshot every time
/// it grows the tape (explores a cell it has not visited before). When that
/// happens, the snapshots taken at earlier such events with the same direction,
/// new state and written symbol are compared with the current one: if the part
/// of the tape swept since an earlier event equals the translated part that lay
/// beside the head back then, the machine keeps adding translated copies of that
/// segment forever. Returns false if the machine halts or the budget runs out.
pub fn decide(descr: MachineDescription, max_steps: usize) -> (r: bool)
    requires
        max_steps <= STEP_LIMIT,
    ensures
        r == is_translated_cycler(descr, max_steps as nat),
{
    let ghost d = descr;
    let mut machine = Machine::new(descr);
    // Snapshots of earlier boundary events, by (direction, new state, written bit).
    let mut breakpoint_sets: Vec<Vec<StoredSnapshot>> = Vec::new();
    while breakpoint_sets.len() < 20
        invariant
            breakpoint_sets@.len() <= 20,
            forall|b: int| 0 <= b < breakpoint_sets@.len() ==> (#[trigger] breakpoint_sets@[b])@.len() == 0,
        decreases 20 - breakpoint_sets@.len(),
    {
        breakpoint_sets.push(Vec::new());
    }
    proof {
        lemma_sets_start(d, breakpoint_sets@);
    }
    let mut head_history: Vec<i32> = Vec::new();
    let mut step: usize = 0;
    while step < max_steps
        invariant
            d == descr,
            max_steps <= STEP_LIMIT,
            step <= max_steps,
            machine@ == state_at(d, step as nat),
            head_history@.len() == step,
            forall|i: int| 0 <= i < step ==> head_history@[i] == head_at(d, i as nat),
            breakpoint_sets@.len() == 20,
            sets_sound(d, breakpoint_sets@, step as nat),
            sets_complete(d, breakpoint_sets@, step as nat),
            no_match_before(d, step as nat),
            runs_for(d, step as nat),
        decreases max_steps - step,
    {
        proof {
            lemma_run(d, step as nat);
        }
        head_history.push(machine.head());
        let transition = machine.transition();
        let new_state = match transition.state() {
            Some(s) => s,
            None => {
                proof {
                    lemma_halt_rejects(d, step as nat, max_steps as nat);
                }
                return false;
            },
        };
        let is_breakpoint = (transition.dir == Dir::L && machine.head_offset == 0) || (
        transition.dir == Dir::R && machine.head_offset + 1 == machine.tape.len());
        proof {
            assert forall|p: nat| p < step + 1 implies !(#[trigger] MachineView::initial(d).run(p)).halts() by {
                if p < step {
                    assert(!MachineView::initial(d).run(p).halts());
                }
            }
        }
        if is_breakpoint {
            let bpi = breakpoint_set_index(transition.dir, new_state, transition.out);
            let current_snapshot = StoredSnapshot::new(step, &machine);
            let mut j: usize = 0;
            while j < breakpoint_sets[bpi].len()
                invariant
                    d == descr,
                    step < max_steps <= STEP_LIMIT,
                    bpi < 20,
                    bpi == bucket_of(state_at(d, step as nat)),
                    state_at(d, step as nat).is_breakpoint(),
                    transition == state_at(d, step as nat).current_transition(),
                    current_snapshot@ == snapshot_at(d, step as nat),
                    current_snapshot.step == step,
                    head_history@.len() == step + 1,
                    forall|i: int| 0 <= i < step + 1 ==> head_history@[i] == head_at(d, i as nat),
                    breakpoint_sets@.len() == 20,
                    sets_sound(d, breakpoint_sets@, step as nat),
                    runs_for(d, (step + 1) as nat),
                    j <= breakpoint_sets@[bpi as int]@.len(),
                    forall|k: int|
                        0 <= k < j ==> !translated_match(
                            d,
                            (#[trigger] breakpoint_sets@[bpi as int]@[k]).step as nat,
                            step as nat,
                        ),
                decreases breakpoint_sets@[bpi as int]@.len() - j,
            {
                let bp_snapshot = &breakpoint_sets[bpi][j];
                proof {
                    lemma_sets_entry(d, breakpoint_sets@, step as nat, bpi as int, j as int);
                }
                if windows_match(bp_snapshot, &current_snapshot, transition.dir, &head_history, Ghost(d)) {
                    proof {
                        let p = bp_snapshot.step as nat;
                        lemma_bucket_injective(
                            state_at(d, p).current_transition(),
                            state_at(d, step as nat).current_transition(),
                        );
                        reveal(translated_match);
                        assert(translated_match(d, p, step as nat));
                        assert(p < step < max_steps);
                        assert(runs_for(d, step as nat + 1));
                    }
                    return true;
                }
                proof {
                    reveal(translated_match);
                }
                j = j + 1;
            }
            proof {
                reveal(event_at);
                reveal(event_bucket);
                reveal(snapshot_faithful);
                lemma_no_match_extend(d, breakpoint_sets@, step as nat, bpi as int);
            }
            let ghost old_sets = breakpoint_sets@;
            breakpoint_sets[bpi].push(current_snapshot);
            proof {
                lemma_sets_push(d, old_sets, breakpoint_sets@, bpi as int, current_snapshot, step as nat);
            }
        } else {
            proof {
                reveal(event_at);
                lemma_sets_skip(d, breakpoint_sets@, step as nat);
            }
        }
        machine.step();
        step = step + 1;
    }
    proof {
        lemma_budget_rejects(d, max_steps as nat);
    }
    false
}

/// Runs the decider with the usual budget and, where that finds nothing and the
/// machine is one that a translated cycler search is known to decide, once more
/// with twice the budget.
pub fn decide_with_retry(descr: MachineDescription, in_reference: bool) -> (r: bool)
    ensures
        r == (is_translated_cycler(descr, MAX_STEPS as nat) || (in_reference
            && is_translated_cycler(descr, 2 * MAX_STEPS as nat))),
{
    let res = decide(descr, MAX_STEPS);
    if !res && in_reference {
        decide(descr, 2 * MAX_STEPS)
    } else {
        res
    }
}

} // verus!
