//! Transition tables of 5-state, 2-symbol Turing machines and the tape simulator.
use vstd::prelude::*;

verus! {

/// Direction in which the head moves.
#[derive(Copy, Clone, Debug, Hash, PartialEq, Eq, Structural)]
pub enum Dir {
    R,
    L,
}

/// Target of a transition: one of the five states, or `Undef` for a halting one.
#[derive(Copy, Clone, Debug, Hash, PartialEq, Eq, Structural)]
pub enum NewState {
    Undef,
    A,
    B,
    C,
    D,
    E,
}

/// One of the five machine states.
#[derive(Copy, Clone, Debug, Hash, PartialEq, Eq, Structural)]
pub enum State {
    A,
    B,
    C,
    D,
    E,
}

/// What the machine does on one (state, symbol) pair.
#[derive(Copy, Clone, Debug, Hash, PartialEq, Eq, Structural)]
pub struct Transition {
    pub out: bool,
    pub dir: Dir,
    pub new_state: NewState,
}

/// A transition table: entry `2 * s + b` is the transition of state `s` on symbol `b`.
#[derive(Copy, Clone, Debug, Hash, PartialEq, Eq)]
pub struct MachineDescription {
    pub transitions: [Transition; 10],
}

/// The state whose index (A = 0, ..., E = 4) is `i`.
pub open spec fn state_of_index(i: int) -> State {
    if i == 0 {
        State::A
    } else if i == 1 {
        State::B
    } else if i == 2 {
        State::C
    } else if i == 3 {
        State::D
    } else {
        State::E
    }
}

/// Index of a symbol: 0 or 1.
pub open spec fn bit_index(b: bool) -> int {
    if b {
        1
    } else {
        0
    }
}

impl State {
    pub open spec fn spec_index(self) -> int {
        match self {
            State::A => 0,
            State::B => 1,
            State::C => 2,
            State::D => 3,
            State::E => 4,
        }
    }

    pub fn index(self) -> (r: usize)
        ensures
            r == self.spec_index(),
            r < 5,
    {
        match self {
            State::A => 0,
            State::B => 1,
            State::C => 2,
            State::D => 3,
            State::E => 4,
        }
    }
}

impl NewState {
    pub open spec fn to_state(self) -> Option<State> {
        match self {
            NewState::Undef => None,
            NewState::A => Some(State::A),
            NewState::B => Some(State::B),
            NewState::C => Some(State::C),
            NewState::D => Some(State::D),
            NewState::E => Some(State::E),
        }
    }

    pub fn state(self) -> (r: Option<State>)
        ensures
            r == self.to_state(),
    {
        match self {
            NewState::Undef => None,
            NewState::A => Some(State::A),
            NewState::B => Some(State::B),
            NewState::C => Some(State::C),
            NewState::D => Some(State::D),
            NewState::E => Some(State::E),
        }
    }

    pub fn from_state_idx(idx: usize) -> (r: NewState)
        requires
            idx < 5,
        ensures
            r.to_state() == Some(state_of_index(idx as int)),
    {
        match idx {
            0 => NewState::A,
            1 => NewState::B,
            2 => NewState::C,
            3 => NewState::D,
            _ => NewState::E,
        }
    }

    pub fn from_state(state: State) -> (r: NewState)
        ensures
            r.to_state() == Some(state),
    {
        match state {
            State::A => NewState::A,
            State::B => NewState::B,
            State::C => NewState::C,
            State::D => NewState::D,
            State::E => NewState::E,
        }
    }
}

impl Transition {
    pub fn state(&self) -> (r: Option<State>)
        ensures
            r == self.new_state.to_state(),
    {
        self.new_state.state()
    }
}

impl MachineDescription {
    /// Position in the table of the transition of `state` on symbol `cell`.
    pub open spec fn slot(state: State, cell: bool) -> int {
        state.spec_index() * 2 + bit_index(cell)
    }

    pub open spec fn spec_transition(&self, state: State, cell: bool) -> Transition {
        self.transitions@[Self::slot(state, cell)]
    }

    /// Decodes a 30-byte record: ten transitions `(out, dir, next)` in the order
    /// A0, A1, B0, ..., E1. `None` if the length or a byte is out of range.
    pub fn from_bytes(bytes: &[u8]) -> (r: Option<MachineDescription>)
        ensures
            r is Some <==> valid_record(bytes@),
            r is Some ==> forall|i: int|
                0 <= i < 10 ==> r->0.transitions@[i] == transition_of_bytes(bytes@, i)->0,
    {
        if bytes.len() != 30 {
            return None;
        }
        let blank = Transition { out: false, dir: Dir::L, new_state: NewState::Undef };
        let mut transitions = [blank;10];
        let mut i: usize = 0;
        while i < 10
            invariant
                bytes@.len() == 30,
                i <= 10,
                forall|j: int| 0 <= j < i ==> (#[trigger] transition_of_bytes(bytes@, j)) is Some
                    && transitions@[j] == transition_of_bytes(bytes@, j)->0,
            decreases 10 - i,
        {
            let t = transition_from_bytes(bytes[3 * i], bytes[3 * i + 1], bytes[3 * i + 2]);
            match t {
                Some(t) => {
                    transitions[i] = t;
                },
                None => {
                    assert(!valid_record(bytes@)) by {
                        assert(transition_of_bytes(bytes@, i as int) is None);
                    }
                    return None;
                },
            }
            i = i + 1;
        }
        Some(MachineDescription { transitions })
    }

    /// Whether some state cannot be reached from A. A state that can be reached
    /// at all is reached within five transitions (see
    /// `lemma_reach_order_is_reachable_set`).
    pub fn has_less_than_5_states(&self) -> (r: bool)
        ensures
            r == (reach_order(*self).len() < 5),
            r == exists|s: State| !#[trigger] reaches(*self, State::A, s, 5),
    {
        let mut map: [Option<NewState>; 5] = [None;5];
        let mut map_next: usize = 0;
        assert(map_states(map, 0) =~= Seq::<State>::empty());
        make_map_recursive(&mut map, &mut map_next, self, State::A, Ghost(5));
        proof {
            let v = reach_order(*self);
            lemma_reach_order_is_reachable_set(*self, State::A);
            if v.len() < 5 {
                if forall|s: State| v.contains(s) {
                    lemma_all_states_need_five(v);
                }
                let s = choose|s: State| !v.contains(s);
                lemma_reach_order_is_reachable_set(*self, s);
                assert(!reaches(*self, State::A, s, 5));
            } else {
                assert forall|s: State| #[trigger] reaches(*self, State::A, s, 5) by {
                    lemma_five_distinct_states(v, s);
                    lemma_reach_order_is_reachable_set(*self, s);
                }
            }
        }
        map_next != 5
    }

    /// Renames the states in the order a depth-first walk from A reaches them
    /// (unreachable ones become `Undef`), then mirrors the table if its first
    /// transition moves right.
    pub fn normalize(&self) -> (r: MachineDescription)
        ensures
            forall|i: int| 0 <= i < 10 ==> r.transitions@[i] == normalized_transition(*self, i),
    {
        // Map new state -> old state
        let mut map: [Option<NewState>; 5] = [None;5];
        let mut map_next: usize = 0;
        assert(map_states(map, 0) =~= Seq::<State>::empty());
        make_map_recursive(&mut map, &mut map_next, self, State::A, Ghost(5));
        let ghost m = state_map(*self);
        proof {
            let v = reach_order(*self);
            assert forall|j: int| 0 <= j < 5 implies map@[j] == if j < map_next {
                Some(m[j])
            } else {
                None::<NewState>
            } by {
                if j < map_next {
                    assert(map_states(map, map_next as int)[j] == v[j]);
                    lemma_new_state_of(v[j], map@[j]->0);
                }
            }
        }
        // Some states may be unreachable; they become Undef.
        let mut k: usize = 0;
        while k < 5
            invariant
                map_next == reach_order(*self).len(),
                m == state_map(*self),
                k <= 5,
                forall|j: int| 0 <= j < k ==> map@[j] == Some(m[j]),
                forall|j: int| k <= j < 5 ==> map@[j] == if j < map_next {
                    Some(m[j])
                } else {
                    None::<NewState>
                },
            decreases 5 - k,
        {
            if map[k].is_none() {
                map[k] = Some(NewState::Undef);
            }
            k = k + 1;
        }
        let blank = Transition { out: false, dir: Dir::L, new_state: NewState::Undef };
        let mut transitions = [blank;10];
        let mut i: usize = 0;
        while i < 10
            invariant
                i <= 10,
                m == state_map(*self),
                forall|j: int| 0 <= j < 5 ==> map@[j] == Some(m[j]),
                forall|j: int| 0 <= j < i ==> transitions@[j] == renamed_transition(*self, j),
            decreases 10 - i,
        {
            let old_state = match map[i / 2] {
                Some(x) => x.state(),
                None => None,
            };
            transitions[i] = match old_state {
                Some(old_state) => {
                    let bit = i % 2 == 1;
                    let old_transition = self.transition(old_state, bit);
                    let new_transition_state = match old_transition.state() {
                        Some(transit_state) => match map[transit_state.index()] {
                            Some(x) => x,
                            None => NewState::Undef,
                        },
                        None => NewState::Undef,
                    };
                    Transition { new_state: new_transition_state, ..old_transition }
                },
                None => Transition { new_state: NewState::Undef, out: false, dir: Dir::L },
            };
            i = i + 1;
        }
        if transitions[0].dir == Dir::R {
            let mut j: usize = 0;
            while j < 10
                invariant
                    j <= 10,
                    renamed_transition(*self, 0).dir == Dir::R,
                    forall|x: int| 0 <= x < j ==> transitions@[x] == normalized_transition(*self, x),
                    forall|x: int| j <= x < 10 ==> transitions@[x] == renamed_transition(*self, x),
                decreases 10 - j,
            {
                let t = transitions[j];
                transitions[j] = Transition {
                    dir: match t.dir {
                        Dir::R => Dir::L,
                        Dir::L => Dir::R,
                    },
                    ..t
                };
                j = j + 1;
            }
        }
        MachineDescription { transitions }
    }

    pub fn transition(&self, state: State, cell: bool) -> (t: Transition)
        ensures
            t == self.spec_transition(state, cell),
    {
        let transition_index = state.index() * 2 + if cell { 1usize } else { 0usize };
        self.transitions[transition_index]
    }

    pub fn set_transition(&mut self, state: State, cell: bool, transition: Transition)
        ensures
            final(self).transitions@ == old(self).transitions@.update(
                Self::slot(state, cell),
                transition,
            ),
    {
        let transition_index = state.index() * 2 + if cell { 1usize } else { 0usize };
        self.transitions[transition_index] = transition;
    }
}

/// The direction a record byte stands for: 0 is right, 1 is left.
pub open spec fn dir_of_byte(b: u8) -> Option<Dir> {
    if b == 0 {
        Some(Dir::R)
    } else if b == 1 {
        Some(Dir::L)
    } else {
        None
    }
}

/// The target a record byte stands for: 0 halts, 1 to 5 are A to E.
pub open spec fn new_state_of_byte(b: u8) -> Option<NewState> {
    if b == 0 {
        Some(NewState::Undef)
    } else if b == 1 {
        Some(NewState::A)
    } else if b == 2 {
        Some(NewState::B)
    } else if b == 3 {
        Some(NewState::C)
    } else if b == 4 {
        Some(NewState::D)
    } else if b == 5 {
        Some(NewState::E)
    } else {
        None
    }
}

/// The transition held by bytes `3 * i .. 3 * i + 3` of a record.
pub open spec fn transition_of_bytes(b: Seq<u8>, i: int) -> Option<Transition> {
    let o = b[3 * i];
    let d = dir_of_byte(b[3 * i + 1]);
    let n = new_state_of_byte(b[3 * i + 2]);
    if o <= 1 && d is Some && n is Some {
        Some(Transition { out: o == 1, dir: d->0, new_state: n->0 })
    } else {
        None
    }
}

/// A record: 30 bytes, ten well-formed transitions.
pub open spec fn valid_record(b: Seq<u8>) -> bool {
    &&& b.len() == 30
    &&& forall|i: int| 0 <= i < 10 ==> (#[trigger] transition_of_bytes(b, i)) is Some
}

fn transition_from_bytes(out: u8, dir: u8, next: u8) -> (r: Option<Transition>)
    ensures
        r == transition_of_bytes(seq![out, dir, next], 0),
{
    let d = if dir == 0 {
        Dir::R
    } else if dir == 1 {
        Dir::L
    } else {
        return None;
    };
    let n = if next == 0 {
        NewState::Undef
    } else if next == 1 {
        NewState::A
    } else if next == 2 {
        NewState::B
    } else if next == 3 {
        NewState::C
    } else if next == 4 {
        NewState::D
    } else if next == 5 {
        NewState::E
    } else {
        return None;
    };
    if out > 1 {
        return None;
    }
    Some(Transition { out: out == 1, dir: d, new_state: n })
}

/// The transition target naming state `s`.
pub open spec fn new_state_of(s: State) -> NewState {
    match s {
        State::A => NewState::A,
        State::B => NewState::B,
        State::C => NewState::C,
        State::D => NewState::D,
        State::E => NewState::E,
    }
}

/// The states in the order a depth-first walk from `s` first reaches them,
/// following the transition on 0 before the one on 1, appended to `visited`.
/// A walk stops at a state already visited; `fuel` bounds its depth.
pub open spec fn visit_order(
    d: MachineDescription,
    visited: Seq<State>,
    s: State,
    fuel: nat,
) -> Seq<State>
    decreases fuel,
{
    if fuel == 0 || visited.contains(s) || visited.len() >= 5 {
        visited
    } else {
        let v1 = visited.push(s);
        let v2 = match d.spec_transition(s, false).new_state.to_state() {
            Some(n) => visit_order(d, v1, n, (fuel - 1) as nat),
            None => v1,
        };
        match d.spec_transition(s, true).new_state.to_state() {
            Some(n) => visit_order(d, v2, n, (fuel - 1) as nat),
            None => v2,
        }
    }
}

/// The states reachable from A, in the order a depth-first walk reaches them.
pub open spec fn reach_order(d: MachineDescription) -> Seq<State> {
    visit_order(d, Seq::empty(), State::A, 5)
}

/// The state the transition of `s` on `bit` leads to, if it does not halt.
pub open spec fn successor(d: MachineDescription, s: State, bit: bool) -> Option<State> {
    d.spec_transition(s, bit).new_state.to_state()
}

/// `to` is reached from `from` in at most `n` non-halting transitions.
pub open spec fn reaches(d: MachineDescription, from: State, to: State, n: nat) -> bool
    decreases n,
{
    ||| from == to
    ||| (n > 0 && successor(d, from, false) is Some && reaches(
        d,
        successor(d, from, false)->0,
        to,
        (n - 1) as nat,
    ))
    ||| (n > 0 && successor(d, from, true) is Some && reaches(
        d,
        successor(d, from, true)->0,
        to,
        (n - 1) as nat,
    ))
}

/// Every successor of a state of `r` from index `lo` on is in `r`.
pub open spec fn closed_from(d: MachineDescription, r: Seq<State>, lo: int) -> bool {
    forall|i: int, b: bool|
        lo <= i < r.len() && (#[trigger] successor(d, r[i], b)) is Some ==> r.contains(
            successor(d, r[i], b)->0,
        )
}

/// Every state of `r` from index `lo` on is reached from `s` within `n` transitions.
pub open spec fn reached_from(
    d: MachineDescription,
    r: Seq<State>,
    lo: int,
    s: State,
    n: nat,
) -> bool {
    forall|i: int| lo <= i < r.len() ==> reaches(d, s, #[trigger] r[i], n)
}

/// Five distinct states are all the states.
proof fn lemma_five_distinct_states(v: Seq<State>, s: State)
    requires
        v.no_duplicates(),
        v.len() >= 5,
    ensures
        v.contains(s),
{
    if !v.contains(s) {
        assert(v[0] != s && v[1] != s && v[2] != s && v[3] != s && v[4] != s);
        assert(v[0] != v[1] && v[0] != v[2] && v[0] != v[3] && v[0] != v[4]);
        assert(v[1] != v[2] && v[1] != v[3] && v[1] != v[4]);
        assert(v[2] != v[3] && v[2] != v[4] && v[3] != v[4]);
    }
}

/// A sequence holding every state holds at least five entries.
proof fn lemma_all_states_need_five(v: Seq<State>)
    requires
        forall|s: State| v.contains(s),
    ensures
        v.len() >= 5,
{
    assert(v.contains(State::A) && v.contains(State::B) && v.contains(State::C));
    assert(v.contains(State::D) && v.contains(State::E));
    let a = choose|i: int| 0 <= i < v.len() && v[i] == State::A;
    let b = choose|i: int| 0 <= i < v.len() && v[i] == State::B;
    let c = choose|i: int| 0 <= i < v.len() && v[i] == State::C;
    let d = choose|i: int| 0 <= i < v.len() && v[i] == State::D;
    let e = choose|i: int| 0 <= i < v.len() && v[i] == State::E;
    assert(a != b && a != c && a != d && a != e && b != c && b != d && b != e);
    assert(c != d && c != e && d != e);
}

proof fn lemma_prefix_contains(r: Seq<State>, v: Seq<State>, x: State)
    requires
        v.len() <= r.len(),
        r.subrange(0, v.len() as int) == v,
        v.contains(x),
    ensures
        r.contains(x),
{
    let i = choose|i: int| 0 <= i < v.len() && v[i] == x;
    assert(r[i] == r.subrange(0, v.len() as int)[i]);
}

proof fn lemma_reaches_step(d: MachineDescription, s: State, b: bool, x: State, n: nat)
    requires
        successor(d, s, b) is Some,
        reaches(d, successor(d, s, b)->0, x, n),
    ensures
        reaches(d, s, x, n + 1),
{
    assert(reaches(d, s, x, n + 1));
}

/// The part of the walk from `s` that follows its transition on 0.
spec fn visit_mid(d: MachineDescription, v: Seq<State>, s: State, fuel: nat) -> Seq<State> {
    let v1 = v.push(s);
    match successor(d, s, false) {
        Some(n) => visit_order(d, v1, n, (fuel - 1) as nat),
        None => v1,
    }
}

/// A walk from `s` that does not stop at once: `s`, then the walk along the
/// transition on 0, then the one along the transition on 1.
spec fn walks_on(d: MachineDescription, v: Seq<State>, s: State, fuel: nat) -> bool {
    !(fuel == 0 || v.contains(s) || v.len() >= 5)
}

proof fn lemma_visit_unfold(d: MachineDescription, v: Seq<State>, s: State, fuel: nat)
    requires
        walks_on(d, v, s, fuel),
    ensures
        visit_order(d, v, s, fuel) == match successor(d, s, true) {
            Some(n) => visit_order(d, visit_mid(d, v, s, fuel), n, (fuel - 1) as nat),
            None => visit_mid(d, v, s, fuel),
        },
{
}

proof fn lemma_prefix_trans(a: Seq<State>, b: Seq<State>, c: Seq<State>)
    requires
        a.len() <= b.len() <= c.len(),
        c.subrange(0, b.len() as int) == b,
        b.subrange(0, a.len() as int) == a,
    ensures
        c.subrange(0, a.len() as int) == a,
        forall|i: int| 0 <= i < b.len() ==> c[i] == b[i],
{
    assert forall|i: int| 0 <= i < b.len() implies c[i] == b[i] by {
        assert(c.subrange(0, b.len() as int)[i] == c[i]);
    }
    assert(c.subrange(0, a.len() as int) =~= a) by {
        assert forall|i: int| 0 <= i < a.len() implies c.subrange(0, a.len() as int)[i] == a[i] by {
            assert(b.subrange(0, a.len() as int)[i] == b[i]);
        }
    }
}

/// The walk extends what was visited, repeats no state and reaches `s`.
proof fn lemma_visit_shape(d: MachineDescription, v: Seq<State>, s: State, fuel: nat)
    requires
        fuel + v.len() >= 5,
        v.no_duplicates(),
    ensures
        visit_order(d, v, s, fuel).len() >= v.len(),
        visit_order(d, v, s, fuel).subrange(0, v.len() as int) == v,
        visit_order(d, v, s, fuel).no_duplicates(),
        visit_order(d, v, s, fuel).contains(s),
        walks_on(d, v, s, fuel) ==> visit_mid(d, v, s, fuel).len() > v.len(),
        walks_on(d, v, s, fuel) ==> visit_mid(d, v, s, fuel).subrange(0, v.len() as int + 1) == v.push(s),
        walks_on(d, v, s, fuel) ==> visit_mid(d, v, s, fuel).no_duplicates(),
        walks_on(d, v, s, fuel) ==> visit_order(d, v, s, fuel).subrange(
            0,
            visit_mid(d, v, s, fuel).len() as int,
        ) == visit_mid(d, v, s, fuel),
    decreases fuel,
{
    let r = visit_order(d, v, s, fuel);
    if !walks_on(d, v, s, fuel) {
        assert(r.subrange(0, v.len() as int) =~= v);
        if !v.contains(s) {
            lemma_five_distinct_states(v, s);
        }
    } else {
        let v1 = v.push(s);
        assert(v1.no_duplicates());
        assert(v1.subrange(0, v.len() as int) =~= v);
        let v2 = visit_mid(d, v, s, fuel);
        if let Some(n) = successor(d, s, false) {
            lemma_visit_shape(d, v1, n, (fuel - 1) as nat);
        } else {
            assert(v2.subrange(0, v1.len() as int) =~= v1);
        }
        lemma_visit_unfold(d, v, s, fuel);
        if let Some(n) = successor(d, s, true) {
            lemma_visit_shape(d, v2, n, (fuel - 1) as nat);
        } else {
            assert(r.subrange(0, v2.len() as int) =~= v2);
        }
        lemma_prefix_trans(v1, v2, r);
        lemma_prefix_trans(v, v1, r);
        assert(r[v.len() as int] == s);
    }
}

/// Every successor of a state the walk adds is in the walk.
proof fn lemma_visit_closed(d: MachineDescription, v: Seq<State>, s: State, fuel: nat)
    requires
        fuel + v.len() >= 5,
        v.no_duplicates(),
    ensures
        closed_from(d, visit_order(d, v, s, fuel), v.len() as int),
    decreases fuel,
{
    let r = visit_order(d, v, s, fuel);
    lemma_visit_shape(d, v, s, fuel);
    if walks_on(d, v, s, fuel) {
        let v1 = v.push(s);
        let v2 = visit_mid(d, v, s, fuel);
        lemma_visit_unfold(d, v, s, fuel);
        if let Some(n) = successor(d, s, false) {
            lemma_visit_closed(d, v1, n, (fuel - 1) as nat);
            lemma_visit_shape(d, v1, n, (fuel - 1) as nat);
        }
        if let Some(n) = successor(d, s, true) {
            lemma_visit_closed(d, v2, n, (fuel - 1) as nat);
            lemma_visit_shape(d, v2, n, (fuel - 1) as nat);
        }
        lemma_prefix_trans(v1, v2, r);
        assert forall|i: int, b: bool|
            v.len() <= i < r.len() && (#[trigger] successor(d, r[i], b)) is Some implies r.contains(
                successor(d, r[i], b)->0,
            ) by {
            let x = successor(d, r[i], b)->0;
            if i < v2.len() {
                if i == v.len() {
                    assert(v2.subrange(0, v.len() as int + 1)[i] == s);
                    if !b {
                        lemma_prefix_contains(r, v2, x);
                    }
                } else {
                    assert(successor(d, v2[i], b) is Some);
                    assert(v2.contains(x));
                    lemma_prefix_contains(r, v2, x);
                }
            }
        }
    }
}

/// Every state the walk adds is reached from `s` within `fuel` transitions.
proof fn lemma_visit_reached(d: MachineDescription, v: Seq<State>, s: State, fuel: nat)
    requires
        fuel + v.len() >= 5,
        v.no_duplicates(),
    ensures
        reached_from(d, visit_order(d, v, s, fuel), v.len() as int, s, fuel),
    decreases fuel,
{
    let r = visit_order(d, v, s, fuel);
    lemma_visit_shape(d, v, s, fuel);
    if walks_on(d, v, s, fuel) {
        let v1 = v.push(s);
        let v2 = visit_mid(d, v, s, fuel);
        lemma_visit_unfold(d, v, s, fuel);
        if let Some(n) = successor(d, s, false) {
            lemma_visit_reached(d, v1, n, (fuel - 1) as nat);
            lemma_visit_shape(d, v1, n, (fuel - 1) as nat);
        }
        if let Some(n) = successor(d, s, true) {
            lemma_visit_reached(d, v2, n, (fuel - 1) as nat);
            lemma_visit_shape(d, v2, n, (fuel - 1) as nat);
        }
        lemma_prefix_trans(v1, v2, r);
        assert forall|i: int| v.len() <= i < r.len() implies reaches(d, s, #[trigger] r[i], fuel) by {
            if i == v.len() {
                assert(v2.subrange(0, v.len() as int + 1)[i] == s);
            } else if i < v2.len() {
                assert(r[i] == v2[i]);
                lemma_reaches_step(d, s, false, v2[i], (fuel - 1) as nat);
            } else {
                lemma_reaches_step(d, s, true, r[i], (fuel - 1) as nat);
            }
        }
    }
}

proof fn lemma_closed_holds_reached(
    d: MachineDescription,
    r: Seq<State>,
    from: State,
    to: State,
    n: nat,
)
    requires
        closed_from(d, r, 0),
        r.contains(from),
        reaches(d, from, to, n),
    ensures
        r.contains(to),
    decreases n,
{
    if from != to {
        let i = choose|i: int| 0 <= i < r.len() && r[i] == from;
        if successor(d, from, false) is Some && reaches(
            d,
            successor(d, from, false)->0,
            to,
            (n - 1) as nat,
        ) {
            assert(successor(d, r[i], false) is Some);
            lemma_closed_holds_reached(d, r, successor(d, from, false)->0, to, (n - 1) as nat);
        } else {
            assert(successor(d, r[i], true) is Some);
            lemma_closed_holds_reached(d, r, successor(d, from, true)->0, to, (n - 1) as nat);
        }
    }
}

/// The walk from A lists each state reachable from A exactly once, and nothing else.
pub proof fn lemma_reach_order_is_reachable_set(d: MachineDescription, s: State)
    ensures
        reach_order(d).no_duplicates(),
        reach_order(d).contains(s) <==> exists|n: nat| #[trigger] reaches(d, State::A, s, n),
        reach_order(d).contains(s) <==> reaches(d, State::A, s, 5),
{
    lemma_visit_shape(d, Seq::empty(), State::A, 5);
    lemma_visit_closed(d, Seq::empty(), State::A, 5);
    lemma_visit_reached(d, Seq::empty(), State::A, 5);
    let r = reach_order(d);
    if exists|n: nat| #[trigger] reaches(d, State::A, s, n) {
        let n = choose|n: nat| #[trigger] reaches(d, State::A, s, n);
        lemma_closed_holds_reached(d, r, State::A, s, n);
    }
    if r.contains(s) {
        let i = choose|i: int| 0 <= i < r.len() && r[i] == s;
        assert(reaches(d, State::A, r[i], 5));
    }
}

/// For each new state index, the old state it renames, or `Undef` where fewer
/// than five states are reachable.
pub open spec fn state_map(d: MachineDescription) -> Seq<NewState> {
    let v = reach_order(d);
    Seq::new(5, |i: int| if i < v.len() { new_state_of(v[i]) } else { NewState::Undef })
}

/// Entry `i` of the renamed table, before directions are normalized.
pub open spec fn renamed_transition(d: MachineDescription, i: int) -> Transition {
    let m = state_map(d);
    match m[i / 2].to_state() {
        Some(old_state) => {
            let t = d.spec_transition(old_state, i % 2 == 1);
            Transition {
                new_state: match t.new_state.to_state() {
                    Some(ts) => m[ts.spec_index()],
                    None => NewState::Undef,
                },
                ..t
            }
        },
        None => Transition { new_state: NewState::Undef, out: false, dir: Dir::L },
    }
}

/// Entry `i` of the normalized table: the renamed table, mirrored if its first
/// transition moves right.
pub open spec fn normalized_transition(d: MachineDescription, i: int) -> Transition {
    let t = renamed_transition(d, i);
    if renamed_transition(d, 0).dir == Dir::R {
        Transition { dir: if t.dir == Dir::R { Dir::L } else { Dir::R }, ..t }
    } else {
        t
    }
}

/// The first `n` entries of `map` name states and the rest are empty.
pub open spec fn map_wf(map: [Option<NewState>; 5], n: int) -> bool {
    &&& 0 <= n <= 5
    &&& forall|i: int| 0 <= i < n ==> (#[trigger] map@[i]) is Some && map@[i]->0.to_state() is Some
    &&& forall|i: int| n <= i < 5 ==> (#[trigger] map@[i]) is None
}

/// The states named by the first `n` entries of `map`.
pub open spec fn map_states(map: [Option<NewState>; 5], n: int) -> Seq<State> {
    Seq::new(n as nat, |i: int| map@[i]->0.to_state()->0)
}

proof fn lemma_new_state_of(s: State, ns: NewState)
    ensures
        (ns.to_state() == Some(s)) == (ns == new_state_of(s)),
{
}

fn make_map_recursive(
    map: &mut [Option<NewState>; 5],
    map_next: &mut usize,
    table: &MachineDescription,
    state: State,
    Ghost(fuel): Ghost<nat>,
)
    requires
        map_wf(*old(map), *old(map_next) as int),
        fuel + *old(map_next) >= 5,
    ensures
        map_wf(*final(map), *final(map_next) as int),
        *final(map_next) >= *old(map_next),
        map_states(*final(map), *final(map_next) as int) == visit_order(
            *table,
            map_states(*old(map), *old(map_next) as int),
            state,
            fuel,
        ),
    decreases fuel,
{
    let ghost visited = map_states(*map, *map_next as int);
    let target = NewState::from_state(state);
    let mut i: usize = 0;
    while i < 5
        invariant
            map_wf(*map, *map_next as int),
            visited == map_states(*map, *map_next as int),
            target.to_state() == Some(state),
            i <= 5,
            forall|j: int| 0 <= j < i ==> map@[j] != Some(target),
        decreases 5 - i,
    {
        let found = match map[i] {
            Some(x) => x == target,
            None => false,
        };
        if found {
            assert(visited[i as int] == state);
            return;
        }
        i = i + 1;
    }
    assert(!visited.contains(state)) by {
        if visited.contains(state) {
            let j = choose|j: int| 0 <= j < visited.len() && visited[j] == state;
            lemma_new_state_of(state, map@[j]->0);
            lemma_new_state_of(state, target);
        }
    }
    if *map_next >= 5 {
        return;
    }
    map[*map_next] = Some(target);
    *map_next = *map_next + 1;
    assert(map_states(*map, *map_next as int) =~= visited.push(state));
    if let Some(next_state) = table.transition(state, false).state() {
        make_map_recursive(map, map_next, table, next_state, Ghost((fuel - 1) as nat));
    }
    if let Some(next_state) = table.transition(state, true).state() {
        make_map_recursive(map, map_next, table, next_state, Ghost((fuel - 1) as nat));
    }
}

/// A machine configuration: the table, the stored tape window, the head's index
/// into it, how many stored cells lie left of the origin, and the current state.
pub struct MachineView {
    pub description: MachineDescription,
    pub tape: Seq<bool>,
    pub head_offset: int,
    pub cells_below_zero: int,
    pub state: State,
}

impl MachineView {
    /// The configuration a machine starts in: one blank cell, head on it, state A.
    pub open spec fn initial(description: MachineDescription) -> MachineView {
        MachineView {
            description,
            tape: seq![false],
            head_offset: 0,
            cells_below_zero: 0,
            state: State::A,
        }
    }

    pub open spec fn wf(self) -> bool {
        &&& self.tape.len() >= 1
        &&& 0 <= self.head_offset < self.tape.len()
        &&& 0 <= self.cells_below_zero < self.tape.len()
    }

    /// Logical position of the head.
    pub open spec fn head(self) -> int {
        self.head_offset - self.cells_below_zero
    }

    /// The transition taken from this configuration.
    pub open spec fn current_transition(self) -> Transition {
        self.description.spec_transition(self.state, self.tape[self.head_offset])
    }

    pub open spec fn halts(self) -> bool {
        self.current_transition().new_state is Undef
    }

    /// The configuration after one step; a halting configuration stays as it is.
    pub open spec fn next(self) -> MachineView {
        let t = self.current_transition();
        match t.new_state.to_state() {
            None => self,
            Some(s) => {
                let written = self.tape.update(self.head_offset, t.out);
                match t.dir {
                    Dir::L => if self.head_offset == 0 {
                        MachineView {
                            tape: seq![false] + written,
                            cells_below_zero: self.cells_below_zero + 1,
                            state: s,
                            ..self
                        }
                    } else {
                        MachineView {
                            tape: written,
                            head_offset: self.head_offset - 1,
                            state: s,
                            ..self
                        }
                    },
                    Dir::R => MachineView {
                        tape: if self.head_offset + 1 == self.tape.len() {
                            written.push(false)
                        } else {
                            written
                        },
                        head_offset: self.head_offset + 1,
                        state: s,
                        ..self
                    },
                }
            },
        }
    }

    /// The configuration after `n` steps.
    pub open spec fn run(self, n: nat) -> MachineView
        decreases n,
    {
        if n == 0 {
            self
        } else {
            self.run((n - 1) as nat).next()
        }
    }

    /// Whether the step taken from here grows the stored window.
    pub open spec fn is_breakpoint(self) -> bool {
        let t = self.current_transition();
        ||| (t.dir == Dir::L && self.head_offset == 0)
        ||| (t.dir == Dir::R && self.head_offset + 1 == self.tape.len())
    }
}

/// One step keeps a configuration well formed, never shrinks the window nor the
/// cells left of the origin, and moves the head by one cell unless it halts.
pub proof fn lemma_next(v: MachineView)
    requires
        v.wf(),
    ensures
        v.next().wf(),
        v.next().description == v.description,
        v.next().cells_below_zero >= v.cells_below_zero,
        v.next().tape.len() >= v.tape.len(),
        v.next().tape.len() <= v.tape.len() + 1,
        v.next().tape.len() - v.next().cells_below_zero >= v.tape.len() - v.cells_below_zero,
        v.next().cells_below_zero == v.cells_below_zero + if !v.halts()
            && v.current_transition().dir == Dir::L && v.head_offset == 0 {
            1int
        } else {
            0int
        },
        v.next().tape.len() == v.tape.len() + if !v.halts() && v.is_breakpoint() {
            1int
        } else {
            0int
        },
        v.halts() ==> v.next() == v,
        !v.halts() && v.current_transition().dir == Dir::L ==> v.next().head() == v.head() - 1,
        !v.halts() && v.current_transition().dir == Dir::R ==> v.next().head() == v.head() + 1,
{
}

/// After `n` steps from the start the configuration is well formed and its window
/// holds at most `n + 1` cells.
pub proof fn lemma_run(d: MachineDescription, n: nat)
    ensures
        MachineView::initial(d).run(n).wf(),
        MachineView::initial(d).run(n).description == d,
        MachineView::initial(d).run(n).tape.len() <= n + 1,
    decreases n,
{
    if n > 0 {
        lemma_run(d, (n - 1) as nat);
        lemma_next(MachineView::initial(d).run((n - 1) as nat));
    }
}

/// The letter shown for state `s` on the head's cell: upper case on a 1,
/// lower case on a 0.
pub open spec fn state_letter(s: State, cell: bool) -> char {
    match s {
        State::A => if cell { 'A' } else { 'a' },
        State::B => if cell { 'B' } else { 'b' },
        State::C => if cell { 'C' } else { 'c' },
        State::D => if cell { 'D' } else { 'd' },
        State::E => if cell { 'E' } else { 'e' },
    }
}

/// How a configuration is drawn: one `_` for each padding cell left of the
/// stored window, then one character per stored cell: the state's letter on the
/// head's cell, a filled square for 1 and an empty square for 0 elsewhere.
pub open spec fn tape_text(v: MachineView, left_padding: int) -> Seq<char> {
    Seq::new((left_padding - v.cells_below_zero) as nat, |i: int| '_') + Seq::new(
        v.tape.len(),
        |i: int|
            if i == v.head_offset {
                state_letter(v.state, v.tape[i])
            } else if v.tape[i] {
                '\u{25A0}'
            } else {
                '\u{25A1}'
            },
    )
}

/// Relies on `String::from_iter` over `char`s: the string holds exactly those
/// characters, in order.
#[verifier::external_body]
fn string_from_chars(chars: &Vec<char>) -> (r: String)
    ensures
        r@ == chars@,
{
    String::from_iter(chars.iter())
}

fn letter(state: State, cell: bool) -> (r: char)
    ensures
        r == state_letter(state, cell),
{
    match state {
        State::A => if cell { 'A' } else { 'a' },
        State::B => if cell { 'B' } else { 'b' },
        State::C => if cell { 'C' } else { 'c' },
        State::D => if cell { 'D' } else { 'd' },
        State::E => if cell { 'E' } else { 'e' },
    }
}

pub struct Machine {
    pub description: MachineDescription,
    pub head_offset: usize,
    pub cells_below_zero: usize,
    pub state: State,
    pub tape: Vec<bool>,
}

impl View for Machine {
    type V = MachineView;

    open spec fn view(&self) -> MachineView {
        MachineView {
            description: self.description,
            tape: self.tape@,
            head_offset: self.head_offset as int,
            cells_below_zero: self.cells_below_zero as int,
            state: self.state,
        }
    }
}

impl Machine {
    pub open spec fn wf(&self) -> bool {
        self@.wf()
    }

    pub fn new(description: MachineDescription) -> (r: Self)
        ensures
            r@ == MachineView::initial(description),
            r.wf(),
    {
        let tape = vec![false];
        assert(tape@ =~= seq![false]);
        Machine { description, head_offset: 0, cells_below_zero: 0, state: State::A, tape }
    }

    /// Logical position of the head.
    pub fn head(&self) -> (r: i32)
        requires
            self.wf(),
            self.tape@.len() <= i32::MAX,
        ensures
            r == self@.head(),
    {
        self.head_offset as i32 - self.cells_below_zero as i32
    }

    /// The transition the next step takes.
    pub fn transition(&self) -> (t: Transition)
        requires
            self.wf(),
        ensures
            t == self@.current_transition(),
    {
        self.description.transition(self.state, self.tape[self.head_offset])
    }

    /// Draws the tape with `left_padding` cells left of the origin.
    pub fn tape_str(&self, left_padding: usize) -> (r: String)
        requires
            self.wf(),
            left_padding >= self.cells_below_zero,
        ensures
            r@ == tape_text(self@, left_padding as int),
    {
        let rem_padding = left_padding - self.cells_below_zero;
        let mut out: Vec<char> = Vec::new();
        let mut k: usize = 0;
        while k < rem_padding
            invariant
                k <= rem_padding,
                out@ =~= Seq::new(k as nat, |i: int| '_'),
            decreases rem_padding - k,
        {
            out.push('_');
            k = k + 1;
        }
        let ghost v = self@;
        let ghost text = tape_text(v, left_padding as int);
        assert(out@ =~= text.subrange(0, rem_padding as int));
        let mut i: usize = 0;
        while i < self.tape.len()
            invariant
                v == self@,
                v.wf(),
                rem_padding == left_padding - v.cells_below_zero,
                text == tape_text(v, left_padding as int),
                i <= self.tape@.len(),
                out@ =~= text.subrange(0, rem_padding + i),
            decreases self.tape@.len() - i,
        {
            let val = self.tape[i];
            if i == self.head_offset {
                out.push(letter(self.state, val));
            } else if val {
                out.push('\u{25A0}');
            } else {
                out.push('\u{25A1}');
            }
            assert(text[rem_padding + i] == out@.last());
            i = i + 1;
        }
        assert(text.subrange(0, rem_padding + i) =~= text);
        string_from_chars(&out)
    }

    /// Advances one step; returns true, and changes nothing, if the machine halts.
    pub fn step(&mut self) -> (halted: bool)
        requires
            old(self).wf(),
            old(self).tape@.len() < usize::MAX,
        ensures
            halted == old(self)@.halts(),
            final(self)@ == old(self)@.next(),
            final(self).wf(),
            final(self).cells_below_zero >= old(self).cells_below_zero,
            final(self).tape@.len() >= old(self).tape@.len(),
            final(self).cells_below_zero == old(self).cells_below_zero + if !halted
                && old(self)@.current_transition().dir == Dir::L && old(self).head_offset == 0 {
                1int
            } else {
                0int
            },
            final(self).tape@.len() == old(self).tape@.len() + if !halted
                && old(self)@.is_breakpoint() {
                1int
            } else {
                0int
            },
            !halted && old(self)@.current_transition().dir == Dir::L ==> final(self)@.head()
                == old(self)@.head() - 1,
            !halted && old(self)@.current_transition().dir == Dir::R ==> final(self)@.head()
                == old(self)@.head() + 1,
            halted ==> final(self)@.head() == old(self)@.head(),
    {
        proof {
            lemma_next(self@);
        }
        let transition = self.transition();
        self.state = match transition.state() {
            Some(s) => s,
            None => return true,
        };
        self.tape.set(self.head_offset, transition.out);
        match transition.dir {
            Dir::L => {
                if self.head_offset == 0 {
                    self.tape.insert(0, false);
                    self.cells_below_zero = self.cells_below_zero + 1;
                } else {
                    self.head_offset = self.head_offset - 1;
                }
            },
            Dir::R => {
                if self.head_offset + 1 == self.tape.len() {
                    self.tape.push(false);
                }
                self.head_offset = self.head_offset + 1;
            },
        }
        proof {
            assert(self.tape@ =~= old(self)@.next().tape);
        }
        false
    }
}

} // verus!
