//! Nondeterministic finite automata with empty moves.
use super::model::{accepts, eclose, empty_closed, lemma_eclose, lemma_len_bound, run, step, Model};
use super::symbol::{lawful_symbol, same_symbol};
use vstd::prelude::*;

verus! {

#[derive(Debug, Clone, Copy, PartialEq, Eq, PartialOrd, Ord, Hash, Structural)]
pub struct State(pub u128);

/// The states listed in `states`, as integers.
pub open spec fn state_set(states: Seq<State>) -> Set<int> {
    Set::new(|q: int| exists|i: int| 0 <= i < states.len() && (#[trigger] states[i]).0 == q)
}

/// Where a state may go: by empty moves, and on each symbol.
#[derive(Debug, Clone, PartialEq, Eq)]
pub struct TransitionOutput<T> {
    pub empty: Vec<State>,
    /// Each entry is a symbol and a state reached on it.
    pub symbols: Vec<(T, State)>,
}

/// An automaton that may also move without reading a symbol.
#[derive(Debug, Clone, PartialEq, Eq)]
pub struct Automaton<T> {
    pub initial_state: State,
    pub final_states: Vec<State>,
    /// Each entry is a state and where it may go.
    pub transitions: Vec<(State, TransitionOutput<T>)>,
}

/// Whether `transitions` lets state `p` move to `q` on symbol `t`.
pub open spec fn has_move<T>(transitions: Seq<(State, TransitionOutput<T>)>, p: int, t: T, q: int) -> bool {
    exists|i: int, j: int|
        0 <= i < transitions.len() && 0 <= j < transitions[i].1.symbols@.len() && transitions[i].0.0 == p
            && (#[trigger] transitions[i].1.symbols@[j]).0 == t && transitions[i].1.symbols@[j].1.0 == q
}

/// Whether `transitions` lets state `p` move to `q` without reading a symbol.
pub open spec fn has_empty_move<T>(transitions: Seq<(State, TransitionOutput<T>)>, p: int, q: int) -> bool {
    exists|i: int, j: int|
        0 <= i < transitions.len() && 0 <= j < transitions[i].1.empty@.len() && transitions[i].0.0 == p
            && (#[trigger] transitions[i].1.empty@[j]).0 == q
}

impl<T> Automaton<T> {
    pub open spec fn model(&self) -> Model<T> {
        Model {
            initial: self.initial_state.0 as int,
            finals: state_set(self.final_states@),
            moves: Set::new(|mv: (int, T, int)| has_move(self.transitions@, mv.0, mv.1, mv.2)),
            empty: Set::new(|e: (int, int)| has_empty_move(self.transitions@, e.0, e.1)),
        }
    }
}

/// Whether `s` is listed in `states`.
pub fn contains_state(states: &Vec<State>, s: State) -> (found: bool)
    ensures
        found == state_set(states@).contains(s.0 as int),
{
    let mut i: usize = 0;
    while i < states.len()
        invariant
            i <= states.len(),
            forall|j: int| 0 <= j < i ==> (#[trigger] states@[j]).0 != s.0,
        decreases states.len() - i,
    {
        if states[i].0 == s.0 {
            return true;
        }
        i += 1;
    }
    false
}

/// Whether the numbers of `states` are all different.
pub open spec fn distinct(states: Seq<State>) -> bool {
    forall|i: int, j: int| 0 <= i < j < states.len() ==> (#[trigger] states[i]).0 != (#[trigger] states[j]).0
}

/// Adds `s` to `states` unless it is already listed.
pub fn insert_state(states: &mut Vec<State>, s: State)
    ensures
        state_set(final(states)@) == state_set(old(states)@).insert(s.0 as int),
        state_set(old(states)@).contains(s.0 as int) ==> final(states)@ == old(states)@,
        !state_set(old(states)@).contains(s.0 as int) ==> final(states)@ == old(states)@.push(s),
        distinct(old(states)@) ==> distinct(final(states)@),
{
    if !contains_state(states, s) {
        states.push(s);
        proof {
            assert(states@.last() == s);
            if distinct(old(states)@) {
                assert forall|i: int, j: int| 0 <= i < j < states@.len() implies (#[trigger] states@[i]).0
                    != (#[trigger] states@[j]).0 by {
                    assert(states@[i] == old(states)@[i]);
                    if j < old(states)@.len() {
                        assert(states@[j] == old(states)@[j]);
                    }
                }
            }
        }
    }
    proof {
        assert forall|q: int| state_set(states@).contains(q) implies state_set(old(states)@).insert(
            s.0 as int,
        ).contains(q) by {
            let i = choose|i: int| 0 <= i < states@.len() && (#[trigger] states@[i]).0 == q;
            if i < old(states)@.len() {
                assert(old(states)@[i] == states@[i]);
            }
        }
        assert forall|q: int| state_set(old(states)@).insert(s.0 as int).contains(q) implies state_set(
            states@,
        ).contains(q) by {
            if q != s.0 as int {
                let i = choose|i: int| 0 <= i < old(states)@.len() && (#[trigger] old(states)@[i]).0 == q;
                assert(states@[i] == old(states)@[i]);
            } else if state_set(old(states)@).contains(q) {
                let i = choose|i: int| 0 <= i < old(states)@.len() && (#[trigger] old(states)@[i]).0 == q;
                assert(states@[i] == old(states)@[i]);
            } else {
                assert(states@[states@.len() - 1] == s);
            }
        }
        assert(state_set(states@) =~= state_set(old(states)@).insert(s.0 as int));
    }
}

/// The targets of the empty moves listed in `transitions`, in order.
pub open spec fn empty_targets<T>(transitions: Seq<(State, TransitionOutput<T>)>) -> Seq<int>
    decreases transitions.len(),
{
    if transitions.len() == 0 {
        Seq::empty()
    } else {
        empty_targets(transitions.drop_last()) + transitions.last().1.empty@.map_values(
            |s: State| s.0 as int,
        )
    }
}

proof fn lemma_empty_targets<T>(transitions: Seq<(State, TransitionOutput<T>)>, i: int, j: int)
    requires
        0 <= i < transitions.len(),
        0 <= j < transitions[i].1.empty@.len(),
    ensures
        empty_targets(transitions).contains(transitions[i].1.empty@[j].0 as int),
    decreases transitions.len(),
{
    let targets = empty_targets(transitions);
    let prev = empty_targets(transitions.drop_last());
    if i == transitions.len() - 1 {
        let last = transitions.last().1.empty@.map_values(|s: State| s.0 as int);
        assert(targets[prev.len() + j] == last[j]);
    } else {
        lemma_empty_targets(transitions.drop_last(), i, j);
        let k = choose|k: int| 0 <= k < prev.len() && prev[k] == transitions[i].1.empty@[j].0 as int;
        assert(targets[k] == prev[k]);
    }
}

/// The numbers of `states`, in order.
pub open spec fn numbers(states: Seq<State>) -> Seq<int> {
    states.map_values(|s: State| s.0 as int)
}

/// Whether `states` starts with `prefix`.
pub open spec fn extends(states: Seq<State>, prefix: Seq<State>) -> bool {
    prefix.len() <= states.len() && forall|k: int| 0 <= k < prefix.len() ==> #[trigger] states[k] == prefix[k]
}

/// Adds to `states` the targets of the empty moves out of `p`.
fn add_empty_targets<T>(a: &Automaton<T>, p: State, states: &mut Vec<State>)
    requires
        distinct(old(states)@),
    ensures
        distinct(final(states)@),
        extends(final(states)@, old(states)@),
        state_set(final(states)@) == state_set(old(states)@) + Set::new(
            |q: int| has_empty_move(a.transitions@, p.0 as int, q),
        ),
{
    let ghost targets = Set::new(|q: int| has_empty_move(a.transitions@, p.0 as int, q));
    let mut i: usize = 0;
    while i < a.transitions.len()
        invariant
            i <= a.transitions.len(),
            targets == Set::new(|q: int| has_empty_move(a.transitions@, p.0 as int, q)),
            distinct(states@),
            extends(states@, old(states)@),
            state_set(old(states)@).subset_of(state_set(states@)),
            forall|q: int| state_set(states@).contains(q) ==> state_set(old(states)@).contains(q) || targets.contains(q),
            forall|i2: int, j2: int|
                0 <= i2 < i && 0 <= j2 < a.transitions@[i2].1.empty@.len() && a.transitions@[i2].0.0 == p.0
                    ==> state_set(states@).contains((#[trigger] a.transitions@[i2].1.empty@[j2]).0 as int),
        decreases a.transitions.len() - i,
    {
        if a.transitions[i].0.0 == p.0 {
            let empty = &a.transitions[i].1.empty;
            let mut j: usize = 0;
            while j < empty.len()
                invariant
                    i < a.transitions.len(),
                    empty == &a.transitions@[i as int].1.empty,
                    a.transitions@[i as int].0.0 == p.0,
                    targets == Set::new(|q: int| has_empty_move(a.transitions@, p.0 as int, q)),
                    j <= empty.len(),
                    distinct(states@),
                    extends(states@, old(states)@),
                    state_set(old(states)@).subset_of(state_set(states@)),
                    forall|q: int| state_set(states@).contains(q) ==> state_set(old(states)@).contains(q) || targets.contains(q),
                    forall|i2: int, j2: int|
                        0 <= i2 < i && 0 <= j2 < a.transitions@[i2].1.empty@.len() && a.transitions@[i2].0.0 == p.0
                            ==> state_set(states@).contains((#[trigger] a.transitions@[i2].1.empty@[j2]).0 as int),
                    forall|j2: int| 0 <= j2 < j ==> state_set(states@).contains((#[trigger] empty@[j2]).0 as int),
                decreases empty.len() - j,
            {
                proof {
                    assert(has_empty_move(a.transitions@, p.0 as int, empty@[j as int].0 as int));
                }
                insert_state(states, empty[j]);
                j += 1;
            }
        }
        i += 1;
    }
    proof {
        assert forall|q: int| targets.contains(q) implies state_set(states@).contains(q) by {
            let (i2, j2) = choose|i2: int, j2: int|
                0 <= i2 < a.transitions@.len() && 0 <= j2 < a.transitions@[i2].1.empty@.len()
                    && a.transitions@[i2].0.0 == p.0 as int && (#[trigger] a.transitions@[i2].1.empty@[j2]).0 == q;
        }
        assert(state_set(states@) =~= state_set(old(states)@) + targets);
    }
}

/// Adds to `states` every state reached from them by empty moves.
pub fn close_empty<T>(a: &Automaton<T>, states: &mut Vec<State>)
    requires
        distinct(old(states)@),
    ensures
        distinct(final(states)@),
        state_set(final(states)@) == eclose(a.model(), state_set(old(states)@)),
{
    let ghost m = a.model();
    let ghost start = state_set(states@);
    let ghost pool = numbers(states@) + empty_targets(a.transitions@);
    proof {
        lemma_eclose(m, start);
        assert forall|k: int| 0 <= k < states@.len() implies pool.contains((#[trigger] states@[k]).0 as int) by {
            assert(pool[k] == states@[k].0 as int);
        }
    }
    loop
        invariant
            m == a.model(),
            distinct(states@),
            start.subset_of(state_set(states@)),
            state_set(states@).subset_of(eclose(m, start)),
            start.subset_of(eclose(m, start)),
            empty_closed(m, eclose(m, start)),
            forall|k: int| 0 <= k < states@.len() ==> pool.contains((#[trigger] states@[k]).0 as int),
            pool == numbers(old(states)@) + empty_targets(a.transitions@),
            start == state_set(old(states)@),
        ensures
            distinct(states@),
            state_set(states@) == eclose(m, start),
        decreases pool.len() - states@.len(),
    {
        proof {
            assert(numbers(states@).no_duplicates()) by {
                assert forall|x: int, y: int| 0 <= x < y < numbers(states@).len() implies numbers(states@)[x] != numbers(states@)[y] by {
                    assert(states@[x].0 != states@[y].0);
                }
            }
            lemma_len_bound(numbers(states@), pool);
        }
        let before_len = states.len();
        let ghost snapshot = states@;
        let mut k: usize = 0;
        while k < before_len
            invariant
                m == a.model(),
                pool == numbers(old(states)@) + empty_targets(a.transitions@),
                before_len == snapshot.len(),
                k <= before_len,
                distinct(states@),
                extends(states@, snapshot),
                start.subset_of(state_set(states@)),
                state_set(states@).subset_of(eclose(m, start)),
                empty_closed(m, eclose(m, start)),
                forall|x: int| 0 <= x < states@.len() ==> pool.contains((#[trigger] states@[x]).0 as int),
                forall|x: int, q: int|
                    0 <= x < k && #[trigger] m.empty.contains((snapshot[x].0 as int, q)) ==> state_set(states@).contains(q),
            decreases before_len - k,
        {
            let p = states[k];
            let ghost before = states@;
            proof {
                assert(state_set(before).contains(p.0 as int));
            }
            add_empty_targets(a, p, states);
            proof {
                assert forall|q: int| state_set(states@).contains(q) implies eclose(m, start).contains(q) by {
                    if !state_set(before).contains(q) {
                        assert(m.empty.contains((p.0 as int, q)));
                    }
                }
                assert forall|x: int| 0 <= x < states@.len() implies pool.contains((#[trigger] states@[x]).0 as int) by {
                    if x < before.len() {
                        assert(states@[x] == before[x]);
                    } else {
                        let q = states@[x].0 as int;
                        assert(state_set(states@).contains(q));
                        if !state_set(before).contains(q) {
                            let (i2, j2) = choose|i2: int, j2: int|
                                0 <= i2 < a.transitions@.len() && 0 <= j2 < a.transitions@[i2].1.empty@.len()
                                    && a.transitions@[i2].0.0 == p.0 as int && (#[trigger] a.transitions@[i2].1.empty@[j2]).0 == q;
                            lemma_empty_targets(a.transitions@, i2, j2);
                            let idx = choose|idx: int| 0 <= idx < empty_targets(a.transitions@).len() && empty_targets(a.transitions@)[idx] == q;
                            assert(pool[numbers(old(states)@).len() + idx] == q);
                        } else {
                            let y = choose|y: int| 0 <= y < before.len() && (#[trigger] before[y]).0 == q;
                            assert(pool.contains(before[y].0 as int));
                        }
                    }
                }
                assert forall|x: int, q: int|
                    0 <= x < k + 1 && #[trigger] m.empty.contains((snapshot[x].0 as int, q)) implies state_set(states@).contains(q) by {
                    if x == k {
                        assert(snapshot[x] == p);
                    } else {
                        assert(state_set(before).contains(q));
                    }
                }
            }
            k += 1;
        }
        if states.len() == before_len {
            proof {
                assert(states@ =~= snapshot);
                assert forall|p: int, q: int| state_set(states@).contains(p) && #[trigger] m.empty.contains((p, q)) implies state_set(states@).contains(q) by {
                    let x = choose|x: int| 0 <= x < states@.len() && (#[trigger] states@[x]).0 == p;
                    assert(m.empty.contains((snapshot[x].0 as int, q)));
                }
                assert(empty_closed(m, state_set(states@)));
                lemma_eclose(m, start);
                assert(eclose(m, start).subset_of(state_set(states@)));
                assert(state_set(states@) =~= eclose(m, start));
            }
            break;
        }
        proof {
            assert(numbers(states@).no_duplicates()) by {
                assert forall|x: int, y: int| 0 <= x < y < numbers(states@).len() implies numbers(states@)[x] != numbers(states@)[y] by {
                    assert(states@[x].0 != states@[y].0);
                }
            }
            lemma_len_bound(numbers(states@), pool);
        }
    }
}

/// The states reached from `states` on `symbol`, before any empty move.
fn step_states<T: PartialEq + Clone>(a: &Automaton<T>, states: &Vec<State>, symbol: &T) -> (next: Vec<State>)
    requires
        lawful_symbol::<T>(),
    ensures
        distinct(next@),
        state_set(next@) == step(a.model(), state_set(states@), *symbol),
{
    let ghost m = a.model();
    let ghost target = step(m, state_set(states@), *symbol);
    let mut next: Vec<State> = Vec::new();
    let mut i: usize = 0;
    while i < a.transitions.len()
        invariant
            lawful_symbol::<T>(),
            i <= a.transitions.len(),
            m == a.model(),
            target == step(m, state_set(states@), *symbol),
            distinct(next@),
            state_set(next@).subset_of(target),
            forall|i2: int, j2: int|
                0 <= i2 < i && 0 <= j2 < a.transitions@[i2].1.symbols@.len() && state_set(states@).contains(
                    a.transitions@[i2].0.0 as int,
                ) && (#[trigger] a.transitions@[i2].1.symbols@[j2]).0 == *symbol ==> state_set(next@).contains(
                    a.transitions@[i2].1.symbols@[j2].1.0 as int,
                ),
        decreases a.transitions.len() - i,
    {
        if contains_state(states, a.transitions[i].0) {
            let symbols = &a.transitions[i].1.symbols;
            let mut j: usize = 0;
            while j < symbols.len()
                invariant
                    lawful_symbol::<T>(),
                    i < a.transitions.len(),
                    symbols == &a.transitions@[i as int].1.symbols,
                    state_set(states@).contains(a.transitions@[i as int].0.0 as int),
                    j <= symbols.len(),
                    m == a.model(),
                    target == step(m, state_set(states@), *symbol),
                    distinct(next@),
                    state_set(next@).subset_of(target),
                    forall|i2: int, j2: int|
                        0 <= i2 < i && 0 <= j2 < a.transitions@[i2].1.symbols@.len() && state_set(
                            states@,
                        ).contains(a.transitions@[i2].0.0 as int) && (#[trigger] a.transitions@[i2].1.symbols@[j2]).0
                            == *symbol ==> state_set(next@).contains(a.transitions@[i2].1.symbols@[j2].1.0 as int),
                    forall|j2: int|
                        0 <= j2 < j && (#[trigger] symbols@[j2]).0 == *symbol ==> state_set(next@).contains(
                            symbols@[j2].1.0 as int,
                        ),
                decreases symbols.len() - j,
            {
                if same_symbol(&symbols[j].0, symbol) {
                    proof {
                        let p = a.transitions@[i as int].0.0 as int;
                        let q = symbols@[j as int].1.0 as int;
                        assert(has_move(a.transitions@, p, *symbol, q));
                        assert(m.moves.contains((p, *symbol, q)));
                    }
                    insert_state(&mut next, symbols[j].1);
                }
                j += 1;
            }
        }
        i += 1;
    }
    proof {
        assert forall|q: int| target.contains(q) implies state_set(next@).contains(q) by {
            let p = choose|p: int| state_set(states@).contains(p) && #[trigger] m.moves.contains((p, *symbol, q));
            let (i2, j2) = choose|i2: int, j2: int|
                0 <= i2 < a.transitions@.len() && 0 <= j2 < a.transitions@[i2].1.symbols@.len()
                    && a.transitions@[i2].0.0 == p && (#[trigger] a.transitions@[i2].1.symbols@[j2]).0 == *symbol
                    && a.transitions@[i2].1.symbols@[j2].1.0 == q;
        }
        assert(state_set(next@) =~= target);
    }
    next
}

impl<T: PartialEq + Clone> Automaton<T> {
    pub fn start(&self) -> (execution: Execution<'_, T>)
        ensures
            execution.automaton() == self,
            execution.states() == run(self.model(), Seq::empty()),
    {
        let mut execution = Execution { automaton: self, current_states: vec![self.initial_state] };
        proof {
            assert(state_set(execution.current_states@) =~= set![self.initial_state.0 as int]) by {
                assert(execution.current_states@[0] == self.initial_state);
            }
        }
        execution.next_empty_moves();
        execution
    }

    /// Whether the automaton accepts `input`.
    pub fn test(&self, input: &[T]) -> (accepted: bool)
        requires
            lawful_symbol::<T>(),
        ensures
            accepted == accepts(self.model(), input@),
    {
        let mut execution = self.start();
        let mut i: usize = 0;
        proof {
            assert(input@.take(0) =~= Seq::<T>::empty());
        }
        while i < input.len()
            invariant
                lawful_symbol::<T>(),
                i <= input.len(),
                execution.automaton() == self,
                execution.states() == run(self.model(), input@.take(i as int)),
            decreases input.len() - i,
        {
            execution.next(&input[i]);
            proof {
                assert(input@.take(i + 1).drop_last() =~= input@.take(i as int));
            }
            i += 1;
        }
        proof {
            assert(input@.take(input@.len() as int) =~= input@);
        }
        let current = execution.current_states();
        let mut j: usize = 0;
        while j < current.len()
            invariant
                j <= current.len(),
                state_set(current@) == run(self.model(), input@),
                forall|k: int|
                    0 <= k < j ==> !state_set(self.final_states@).contains((#[trigger] current@[k]).0 as int),
            decreases current.len() - j,
        {
            if contains_state(&self.final_states, current[j]) {
                proof {
                    assert(state_set(current@).contains(current@[j as int].0 as int));
                }
                return true;
            }
            j += 1;
        }
        proof {
            if accepts(self.model(), input@) {
                let q = choose|q: int|
                    #[trigger] run(self.model(), input@).contains(q) && self.model().finals.contains(q);
                let k = choose|k: int| 0 <= k < current@.len() && (#[trigger] current@[k]).0 == q;
                assert(!state_set(self.final_states@).contains(current@[k].0 as int));
            }
        }
        false
    }
}

/// A run of an automaton, holding the states it may be in.
#[derive(Debug, PartialEq, Eq)]
pub struct Execution<'automaton, T> {
    automaton: &'automaton Automaton<T>,
    current_states: Vec<State>,
}

impl<'automaton, T> Execution<'automaton, T> {
    pub closed spec fn automaton(&self) -> &'automaton Automaton<T> {
        self.automaton
    }

    /// The states the run may be in.
    pub closed spec fn states(&self) -> Set<int> {
        state_set(self.current_states@)
    }

    #[verifier::type_invariant]
    closed spec fn wf(&self) -> bool {
        distinct(self.current_states@)
    }

    pub fn current_states(&self) -> (states: &Vec<State>)
        ensures
            state_set(states@) == self.states(),
    {
        &self.current_states
    }

    /// Follows every empty move from the current states.
    fn next_empty_moves(&mut self)
        ensures
            final(self).automaton() == old(self).automaton(),
            final(self).states() == eclose(old(self).automaton().model(), old(self).states()),
    {
        proof {
            use_type_invariant(&*self);
        }
        let mut states = Vec::new();
        std::mem::swap(&mut states, &mut self.current_states);
        close_empty(self.automaton, &mut states);
        self.current_states = states;
    }
}

impl<'automaton, T: PartialEq + Clone> Execution<'automaton, T> {
    /// Reads one symbol, then follows every empty move.
    pub fn next(&mut self, symbol: &T)
        requires
            lawful_symbol::<T>(),
        ensures
            final(self).automaton() == old(self).automaton(),
            final(self).states() == eclose(
                old(self).automaton().model(),
                step(old(self).automaton().model(), old(self).states(), *symbol),
            ),
    {
        let next_states = step_states(self.automaton, &self.current_states, symbol);
        self.current_states = next_states;
        self.next_empty_moves();
    }
}

} // verus!
