//! Deterministic finite automata: a builder, and two compact forms to run them.
use super::finite_automaton::FiniteAutomaton;
use super::model::{accepts, covers, lemma_simulation, simulates, lemma_renamed_accepts, lemma_run_dead, lemma_run_start, lemma_run_step, renamed, lemma_len_bound, lemma_prune_unreachable, lemma_reachable, reachable, run, step, Model};
use super::renaming::Renaming;
use super::symbol::{copy_symbol, lawful_symbol, same_symbol, Countable, ToIndex};
use crate::text::{decimal, push_char, push_decimal};
use core::marker::PhantomData;
use vstd::prelude::*;

verus! {

/// Why a state or a transition was refused.
#[derive(Debug, Clone)]
pub enum BuildError {
    InvalidState { state: State },
    TransitionConflict { current_state: State, stored_next_state: State, requested_next_state: State },
}

#[derive(Debug, Clone, Copy, PartialEq, Eq, PartialOrd, Ord, Hash, Structural)]
pub struct State(u128);

impl State {
    /// The state every run starts in.
    pub fn initial() -> (state: Self)
        ensures
            state.number() == 0,
    {
        State(0)
    }

    /// The state's number.
    pub closed spec fn number(self) -> int {
        self.0 as int
    }

    /// The state written out: `q` and its number.
    pub fn to_string(&self) -> (text: String)
        ensures
            text@ == state_text(*self),
    {
        let mut text = String::new();
        self.write_to(&mut text);
        text
    }

    /// Appends the state written out.
    pub fn write_to(&self, text: &mut String)
        ensures
            final(text)@ == old(text)@ + state_text(*self),
    {
        push_char(text, 'q');
        push_decimal(text, self.0);
        assert(final(text)@ =~= old(text)@ + state_text(*self));
    }
}

/// How a state is written: `q` followed by its number.
pub open spec fn state_text(state: State) -> Seq<char> {
    seq!['q'] + decimal(state.number() as nat)
}

/// How a build error is written.
pub open spec fn build_error_text(error: BuildError) -> Seq<char> {
    match error {
        BuildError::InvalidState { state } => "invalid state "@ + state_text(state),
        BuildError::TransitionConflict { current_state, stored_next_state, requested_next_state } =>
            "transition conflict, requested insertion of next state "@ + state_text(requested_next_state)
            + " on entry with current state "@ + state_text(current_state) + " and next state "@
            + state_text(stored_next_state),
    }
}

impl BuildError {
    /// The error written out.
    pub fn to_string(&self) -> (text: String)
        ensures
            text@ == build_error_text(*self),
    {
        let mut text = String::new();
        match self {
            BuildError::InvalidState { state } => {
                text.append("invalid state ");
                state.write_to(&mut text);
            },
            BuildError::TransitionConflict { current_state, stored_next_state, requested_next_state } => {
                text.append("transition conflict, requested insertion of next state ");
                requested_next_state.write_to(&mut text);
                text.append(" on entry with current state ");
                current_state.write_to(&mut text);
                text.append(" and next state ");
                stored_next_state.write_to(&mut text);
            },
        }
        assert(text@ =~= build_error_text(*self));
        text
    }
}

/// The states listed in `states`, as integers.
pub open spec fn state_set(states: Seq<State>) -> Set<int> {
    Set::new(|q: int| exists|i: int| 0 <= i < states.len() && (#[trigger] states[i]).number() == q)
}

/// The moves listed in `transitions`.
pub open spec fn move_set<T>(transitions: Seq<(State, T, State)>) -> Set<(int, T, int)> {
    Set::new(
        |mv: (int, T, int)|
            exists|i: int|
                0 <= i < transitions.len() && (#[trigger] transitions[i]).0.number() == mv.0 && transitions[i].1
                    == mv.1 && transitions[i].2.number() == mv.2,
    )
}

/// Whether no two transitions leave the same state on the same symbol for
/// different states.
pub open spec fn functional<S, T>(transitions: Seq<(S, T, S)>) -> bool {
    forall|i: int, j: int|
        0 <= i < transitions.len() && 0 <= j < transitions.len() && (#[trigger] transitions[i]).0
            == (#[trigger] transitions[j]).0 && transitions[i].1 == transitions[j].1 ==> transitions[i].2
            == transitions[j].2
}

/// In functional transitions, a state leaves on a symbol for one state at most.
proof fn lemma_functional_moves<T>(transitions: Seq<(State, T, State)>, p: int, t: T, q1: int, q2: int)
    requires
        functional(transitions),
        move_set(transitions).contains((p, t, q1)),
        move_set(transitions).contains((p, t, q2)),
    ensures
        q1 == q2,
{
    let i = choose|i: int|
        0 <= i < transitions.len() && (#[trigger] transitions[i]).0.number() == p && transitions[i].1 == t
            && transitions[i].2.number() == q1;
    let j = choose|j: int|
        0 <= j < transitions.len() && (#[trigger] transitions[j]).0.number() == p && transitions[j].1 == t
            && transitions[j].2.number() == q2;
    assert(transitions[i].0 == transitions[j].0);
}

/// Builds a deterministic automaton step by step.
#[derive(Debug, Clone)]
pub struct Builder<T> {
    state_counter: State,
    transitions: Vec<(State, T, State)>,
    final_states: Vec<State>,
}

impl<T> Builder<T> {
    /// The automaton built so far; its initial state is `State::INITIAL`.
    pub closed spec fn model(&self) -> Model<T> {
        Model {
            initial: 0,
            finals: state_set(self.final_states@),
            moves: move_set(self.transitions@),
            empty: Set::empty(),
        }
    }

    /// The number the next generated state will get; the states below it are valid.
    pub closed spec fn counter(&self) -> int {
        self.state_counter.0 as int
    }

    /// Every state in use is valid, and no state leaves twice on one symbol.
    pub closed spec fn wf(&self) -> bool {
        &&& 1 <= self.state_counter.0
        &&& functional(self.transitions@)
        &&& forall|i: int|
            0 <= i < self.transitions@.len() ==> (#[trigger] self.transitions@[i]).0.0 < self.state_counter.0
                && self.transitions@[i].2.0 < self.state_counter.0
        &&& forall|i: int| 0 <= i < self.final_states@.len() ==> (#[trigger] self.final_states@[i]).0 < self.state_counter.0
    }

    pub fn new() -> (builder: Self)
        ensures
            builder.wf(),
            builder.counter() == 1,
            builder.model().moves.is_empty(),
            builder.model().finals.is_empty(),
    {
        let builder = Builder { state_counter: State(1), transitions: Vec::new(), final_states: Vec::new() };
        proof {
            assert(builder.model().moves =~= Set::empty());
            assert(builder.model().finals =~= Set::empty());
        }
        builder
    }

    /// A fresh state.
    pub fn gen_state(&mut self) -> (state: State)
        requires
            old(self).wf(),
            old(self).counter() < u128::MAX,
        ensures
            final(self).wf(),
            state.number() == old(self).counter(),
            final(self).counter() == old(self).counter() + 1,
            final(self).model() == old(self).model(),
    {
        let state = self.state_counter;
        self.state_counter = State(self.state_counter.0 + 1);
        state
    }

    fn check_state(&self, state: State) -> (result: Result<(), BuildError>)
        ensures
            result is Ok <==> state.number() < self.counter(),
            result matches Err(error) ==> error == (BuildError::InvalidState { state }),
    {
        if state.0 < self.state_counter.0 {
            Ok(())
        } else {
            Err(BuildError::InvalidState { state })
        }
    }

    /// Whether `state` is final.
    pub fn is_final_state(&self, state: State) -> (is_final: bool)
        ensures
            is_final == self.model().finals.contains(state.number()),
    {
        let mut i: usize = 0;
        while i < self.final_states.len()
            invariant
                i <= self.final_states.len(),
                forall|j: int| 0 <= j < i ==> (#[trigger] self.final_states@[j]).0 != state.0,
            decreases self.final_states.len() - i,
        {
            if self.final_states[i].0 == state.0 {
                return true;
            }
            i += 1;
        }
        false
    }

    /// Makes `state` final; refused when `state` is not valid.
    pub fn try_add_final_state(&mut self, state: State) -> (result: Result<&mut Self, BuildError>)
        requires
            old(self).wf(),
        ensures
            result is Ok <==> state.number() < old(self).counter(),
            result matches Err(error) ==> error == (BuildError::InvalidState { state }) && *final(self) == *old(self),
            result matches Ok(this) ==> {
                &&& this.wf()
                &&& this.counter() == old(self).counter()
                &&& this.model().moves == old(self).model().moves
                &&& this.model().finals == old(self).model().finals.insert(state.number())
                &&& *final(self) == *final(this)
            },
    {
        self.check_state(state)?;
        if !self.is_final_state(state) {
            self.final_states.push(state);
        }
        proof {
            assert forall|q: int| #[trigger] state_set(self.final_states@).contains(q) <==> state_set(old(self).final_states@).insert(state.0 as int).contains(q) by {
                if state_set(self.final_states@).contains(q) {
                    let i = choose|i: int| 0 <= i < self.final_states@.len() && (#[trigger] self.final_states@[i]).0 == q;
                    if i < old(self).final_states@.len() {
                        assert(self.final_states@[i] == old(self).final_states@[i]);
                    }
                }
                if state_set(old(self).final_states@).contains(q) {
                    let i = choose|i: int| 0 <= i < old(self).final_states@.len() && (#[trigger] old(self).final_states@[i]).0 == q;
                    assert(self.final_states@[i] == old(self).final_states@[i]);
                }
                if q == state.0 as int && !state_set(old(self).final_states@).contains(q) {
                    assert(self.final_states@[self.final_states@.len() - 1] == state);
                }
            }
            assert(state_set(self.final_states@) =~= state_set(old(self).final_states@).insert(state.0 as int));
            assert forall|i: int| 0 <= i < self.final_states@.len() implies (#[trigger] self.final_states@[i]).0 < self.state_counter.0 by {
                if i < old(self).final_states@.len() {
                    assert(self.final_states@[i] == old(self).final_states@[i]);
                }
            }
        }
        Ok(self)
    }
}

impl<T: PartialEq + Clone> Builder<T> {
    /// The state reached from `current_state` on `symbol`, if any.
    fn find_transition(&self, current_state: State, symbol: &T) -> (next: Option<State>)
        requires
            lawful_symbol::<T>(),
            self.wf(),
        ensures
            next matches Some(q) ==> self.model().moves.contains((current_state.number(), *symbol, q.number())),
            next is None ==> forall|q: int| !self.model().moves.contains((current_state.number(), *symbol, q)),
    {
        let mut i: usize = 0;
        while i < self.transitions.len()
            invariant
                lawful_symbol::<T>(),
                i <= self.transitions.len(),
                forall|j: int|
                    0 <= j < i ==> !((#[trigger] self.transitions@[j]).0 == current_state && self.transitions@[j].1 == *symbol),
            decreases self.transitions.len() - i,
        {
            if self.transitions[i].0.0 == current_state.0 && same_symbol(&self.transitions[i].1, symbol) {
                proof {
                    assert(move_set(self.transitions@).contains(
                        (current_state.number(), *symbol, self.transitions@[i as int].2.number()),
                    ));
                }
                return Some(self.transitions[i].2);
            }
            i += 1;
        }
        proof {
            assert forall|q: int| !self.model().moves.contains((current_state.number(), *symbol, q)) by {
                if self.model().moves.contains((current_state.number(), *symbol, q)) {
                    let j = choose|j: int|
                        0 <= j < self.transitions@.len() && (#[trigger] self.transitions@[j]).0.number() == current_state.number()
                            && self.transitions@[j].1 == *symbol && self.transitions@[j].2.number() == q;
                    assert(self.transitions@[j].0 == current_state);
                }
            }
        }
        None
    }

    /// Adds a transition from `current_state` to `next_state` on `symbol`;
    /// refused when a state is not valid or `current_state` already has a
    /// transition on `symbol`.
    pub fn try_transition(&mut self, current_state: State, symbol: T, next_state: State) -> (result: Result<&mut Self, BuildError>)
        requires
            lawful_symbol::<T>(),
            old(self).wf(),
        ensures
            current_state.number() >= old(self).counter() ==> result == Err::<&mut Self, BuildError>(
                BuildError::InvalidState { state: current_state },
            ),
            current_state.number() < old(self).counter() && next_state.number() >= old(self).counter()
                ==> result == Err::<&mut Self, BuildError>(BuildError::InvalidState { state: next_state }),
            current_state.number() < old(self).counter() && next_state.number() < old(self).counter() ==> (
            result is Err <==> exists|q: int| old(self).model().moves.contains((current_state.number(), symbol, q))),
            forall|q: int|
                current_state.number() < old(self).counter() && next_state.number() < old(self).counter()
                    && #[trigger] old(self).model().moves.contains((current_state.number(), symbol, q))
                    ==> (result matches Err(BuildError::TransitionConflict { current_state: c, stored_next_state, requested_next_state })
                    && c == current_state && stored_next_state.number() == q && requested_next_state == next_state),
            result matches Err(BuildError::TransitionConflict { current_state: c, stored_next_state, requested_next_state }) ==> c
                == current_state && requested_next_state == next_state && old(self).model().moves.contains(
                (current_state.number(), symbol, stored_next_state.number()),
            ),
            result is Err ==> *final(self) == *old(self),
            result matches Ok(this) ==> {
                &&& this.wf()
                &&& this.counter() == old(self).counter()
                &&& this.model().finals == old(self).model().finals
                &&& this.model().moves == old(self).model().moves.insert(
                    (current_state.number(), symbol, next_state.number()),
                )
                &&& *final(self) == *final(this)
            },
    {
        self.check_state(current_state)?;
        self.check_state(next_state)?;
        if let Some(stored) = self.find_transition(current_state, &symbol) {
            proof {
                assert forall|q: int| #[trigger] old(self).model().moves.contains((current_state.number(), symbol, q))
                    implies q == stored.number() by {
                    lemma_functional_moves(self.transitions@, current_state.number(), symbol, q, stored.number());
                }
            }
            return Err(BuildError::TransitionConflict {
                current_state,
                stored_next_state: stored,
                requested_next_state: next_state,
            });
        }
        let ghost before = self.transitions@;
        self.transitions.push((current_state, symbol, next_state));
        proof {
            let added = (current_state.number(), symbol, next_state.number());
            let last = self.transitions@.len() - 1;
            assert(self.transitions@[last] == (current_state, symbol, next_state));
            assert forall|i: int, j: int|
                0 <= i < self.transitions@.len() && 0 <= j < self.transitions@.len() && (#[trigger] self.transitions@[i]).0
                    == (#[trigger] self.transitions@[j]).0 && self.transitions@[i].1 == self.transitions@[j].1 implies self.transitions@[i].2
                == self.transitions@[j].2 by {
                if i < last {
                    assert(self.transitions@[i] == before[i]);
                }
                if j < last {
                    assert(self.transitions@[j] == before[j]);
                }
                if i < last && j == last {
                    assert(before[i].0 == current_state && before[i].1 == symbol);
                    assert(move_set(before).contains((current_state.number(), symbol, before[i].2.number())));
                    assert(old(self).model().moves.contains((current_state.number(), symbol, before[i].2.number())));
                }
                if j < last && i == last {
                    assert(before[j].0 == current_state && before[j].1 == symbol);
                    assert(move_set(before).contains((current_state.number(), symbol, before[j].2.number())));
                    assert(old(self).model().moves.contains((current_state.number(), symbol, before[j].2.number())));
                }
            }
            assert forall|i: int| 0 <= i < self.transitions@.len() implies (#[trigger] self.transitions@[i]).0.0 < self.state_counter.0
                && self.transitions@[i].2.0 < self.state_counter.0 by {
                if i < last {
                    assert(self.transitions@[i] == before[i]);
                }
            }
            assert forall|mv: (int, T, int)| #[trigger] move_set(self.transitions@).contains(mv) <==> move_set(before).insert(added).contains(mv) by {
                if move_set(self.transitions@).contains(mv) {
                    let i = choose|i: int|
                        0 <= i < self.transitions@.len() && (#[trigger] self.transitions@[i]).0.number() == mv.0
                            && self.transitions@[i].1 == mv.1 && self.transitions@[i].2.number() == mv.2;
                    if i < last {
                        assert(self.transitions@[i] == before[i]);
                    }
                }
                if move_set(before).contains(mv) {
                    let i = choose|i: int|
                        0 <= i < before.len() && (#[trigger] before[i]).0.number() == mv.0 && before[i].1 == mv.1
                            && before[i].2.number() == mv.2;
                    assert(self.transitions@[i] == before[i]);
                }
            }
            assert(move_set(self.transitions@) =~= move_set(before).insert(added));
        }
        Ok(self)
    }

    /// Adds a transition; the states must be valid and `current_state` must have
    /// no transition on `symbol` yet.
    pub fn transition(&mut self, current_state: State, symbol: T, next_state: State) -> (this: &mut Self)
        requires
            lawful_symbol::<T>(),
            old(self).wf(),
            current_state.number() < old(self).counter(),
            next_state.number() < old(self).counter(),
            forall|q: int| !old(self).model().moves.contains((current_state.number(), symbol, q)),
        ensures
            this.wf(),
            this.counter() == old(self).counter(),
            this.model().finals == old(self).model().finals,
            this.model().moves == old(self).model().moves.insert(
                (current_state.number(), symbol, next_state.number()),
            ),
            *final(self) == *final(this),
    {
        let result = self.try_transition(current_state, symbol, next_state);
        proof {
            assert(result is Ok);
        }
        self
    }

    /// The state reached from `current_state` on `symbol`; refused when there is none.
    pub fn get_transition(&self, current_state: State, symbol: &T) -> (result: Result<State, BuildError>)
        requires
            lawful_symbol::<T>(),
            self.wf(),
        ensures
            result matches Ok(q) ==> self.model().moves.contains((current_state.number(), *symbol, q.number())),
            result is Err <==> forall|q: int| !self.model().moves.contains((current_state.number(), *symbol, q)),
            result matches Err(error) ==> error == (BuildError::InvalidState { state: current_state }),
    {
        match self.find_transition(current_state, symbol) {
            Some(state) => Ok(state),
            None => Err(BuildError::InvalidState { state: current_state }),
        }
    }

    /// Makes `state` final; it must be valid.
    pub fn add_final_state(&mut self, state: State) -> (this: &mut Self)
        requires
            old(self).wf(),
            state.number() < old(self).counter(),
        ensures
            this.wf(),
            this.counter() == old(self).counter(),
            this.model().moves == old(self).model().moves,
            this.model().finals == old(self).model().finals.insert(state.number()),
            *final(self) == *final(this),
    {
        let result = self.try_add_final_state(state);
        proof {
            assert(result is Ok);
        }
        self
    }
}

/// Goes through the transitions of a builder: current state, symbol, next state.
#[derive(Debug)]
pub struct IterTransitions<'builder, T> {
    transitions: &'builder Vec<(State, T, State)>,
    index: usize,
}

impl<'builder, T> IterTransitions<'builder, T> {
    /// The transitions still to come.
    pub closed spec fn remaining(&self) -> Seq<(State, T, State)> {
        self.transitions@.skip(self.index as int)
    }

    #[verifier::type_invariant]
    closed spec fn wf(&self) -> bool {
        self.index <= self.transitions@.len()
    }

    pub fn next(&mut self) -> (item: Option<(State, &'builder T, State)>)
        ensures
            old(self).remaining().len() == 0 ==> item is None && final(self).remaining().len() == 0,
            old(self).remaining().len() > 0 ==> (item matches Some(t) && (t.0, *t.1, t.2) == old(self).remaining()[0]
                && final(self).remaining() == old(self).remaining().drop_first()),
    {
        proof {
            use_type_invariant(&*self);
        }
        if self.index < self.transitions.len() {
            let transition = &self.transitions[self.index];
            self.index += 1;
            proof {
                assert(self.remaining() =~= old(self).remaining().drop_first());
            }
            Some((transition.0, &transition.1, transition.2))
        } else {
            None
        }
    }
}

/// Goes through the transitions out of one state: symbol, next state.
#[derive(Debug)]
pub struct IterNextStates<'builder, T> {
    transitions: &'builder Vec<(State, T, State)>,
    current_state: State,
    index: usize,
}

impl<'builder, T> IterNextStates<'builder, T> {
    /// The transitions still to look at.
    pub closed spec fn remaining(&self) -> Seq<(State, T, State)> {
        self.transitions@.skip(self.index as int)
    }

    /// The state whose transitions are given.
    pub closed spec fn current(&self) -> State {
        self.current_state
    }

    #[verifier::type_invariant]
    closed spec fn wf(&self) -> bool {
        self.index <= self.transitions@.len()
    }

    pub fn next(&mut self) -> (item: Option<(&'builder T, State)>)
        ensures
            final(self).current() == old(self).current(),
            item is None ==> forall|k: int|
                0 <= k < old(self).remaining().len() ==> (#[trigger] old(self).remaining()[k]).0 != old(self).current(),
            item matches Some(t) ==> (exists|k: int|
                0 <= k < old(self).remaining().len() && (#[trigger] old(self).remaining()[k]) == (old(self).current(), *t.0, t.1)
                    && final(self).remaining() == old(self).remaining().skip(k + 1) && forall|l: int|
                    0 <= l < k ==> (#[trigger] old(self).remaining()[l]).0 != old(self).current()),
    {
        proof {
            use_type_invariant(&*self);
        }
        let ghost start = self.index as int;
        while self.index < self.transitions.len()
            invariant
                start <= self.index <= self.transitions.len(),
                self.transitions == old(self).transitions,
                self.current_state == old(self).current_state,
                start == old(self).index,
                forall|l: int| start <= l < self.index ==> (#[trigger] self.transitions@[l]).0 != self.current_state,
            decreases self.transitions.len() - self.index,
        {
            let transition = &self.transitions[self.index];
            self.index += 1;
            if transition.0.0 == self.current_state.0 {
                proof {
                    let k = self.index - 1 - start;
                    assert(old(self).remaining()[k] == self.transitions@[self.index - 1]);
                    assert(self.remaining() =~= old(self).remaining().skip(k + 1));
                    assert forall|l: int| 0 <= l < k implies (#[trigger] old(self).remaining()[l]).0 != old(self).current() by {
                        assert(old(self).remaining()[l] == self.transitions@[start + l]);
                    }
                }
                return Some((&transition.1, transition.2));
            }
        }
        proof {
            assert forall|k: int| 0 <= k < old(self).remaining().len() implies (#[trigger] old(self).remaining()[k]).0 != old(self).current() by {
                assert(old(self).remaining()[k] == self.transitions@[start + k]);
            }
        }
        None
    }
}

/// Goes through the final states of a builder.
#[derive(Debug)]
pub struct IterFinalStates<'builder> {
    final_states: &'builder Vec<State>,
    index: usize,
}

impl<'builder> IterFinalStates<'builder> {
    /// The final states still to come.
    pub closed spec fn remaining(&self) -> Seq<State> {
        self.final_states@.skip(self.index as int)
    }

    #[verifier::type_invariant]
    closed spec fn wf(&self) -> bool {
        self.index <= self.final_states@.len()
    }

    pub fn next(&mut self) -> (item: Option<State>)
        ensures
            old(self).remaining().len() == 0 ==> item is None && final(self).remaining().len() == 0,
            old(self).remaining().len() > 0 ==> item == Some(old(self).remaining()[0]) && final(self).remaining()
                == old(self).remaining().drop_first(),
    {
        proof {
            use_type_invariant(&*self);
        }
        if self.index < self.final_states.len() {
            let state = self.final_states[self.index];
            self.index += 1;
            proof {
                assert(self.remaining() =~= old(self).remaining().drop_first());
            }
            Some(state)
        } else {
            None
        }
    }
}

/// The reachable states of a builder, each once.
#[derive(Debug)]
pub struct ReachableStates {
    count: usize,
    states: Vec<State>,
    index: usize,
}

impl ReachableStates {
    /// The reachable states still to come.
    pub closed spec fn remaining(&self) -> Seq<State> {
        self.states@.skip(self.index as int)
    }

    /// The reachable states, each once.
    pub closed spec fn all(&self) -> Seq<State> {
        self.states@
    }

    /// How many states are reachable.
    pub fn total_count(&self) -> (count: usize)
        ensures
            count == self.all().len(),
    {
        proof {
            use_type_invariant(self);
        }
        self.count
    }

    #[verifier::type_invariant]
    closed spec fn wf(&self) -> bool {
        self.count == self.states@.len() && self.index <= self.states@.len()
    }

    pub fn next(&mut self) -> (item: Option<State>)
        ensures
            final(self).all() == old(self).all(),
            old(self).remaining().len() == 0 ==> item is None && final(self).remaining().len() == 0,
            old(self).remaining().len() > 0 ==> item == Some(old(self).remaining()[0]) && final(self).remaining()
                == old(self).remaining().drop_first(),
    {
        proof {
            use_type_invariant(&*self);
        }
        if self.index < self.states.len() {
            let state = self.states[self.index];
            self.index += 1;
            proof {
                assert(self.remaining() =~= old(self).remaining().drop_first());
            }
            Some(state)
        } else {
            None
        }
    }
}

impl<T> Builder<T> {
    pub fn iter_transitions(&self) -> (iter: IterTransitions<'_, T>)
        ensures
            move_set(iter.remaining()) == self.model().moves,
            iter.remaining() == self.transitions_seq(),
    {
        let iter = IterTransitions { transitions: &self.transitions, index: 0 };
        proof {
            assert(iter.remaining() =~= self.transitions@);
        }
        iter
    }

    /// The transitions, in the order they were added.
    pub closed spec fn transitions_seq(&self) -> Seq<(State, T, State)> {
        self.transitions@
    }

    /// The transitions out of `current_state`; refused when there are none.
    pub fn iter_next_states(&self, current_state: State) -> (result: Result<IterNextStates<'_, T>, BuildError>)
        ensures
            result is Err <==> forall|t: T, q: int| !self.model().moves.contains((current_state.number(), t, q)),
            result matches Err(error) ==> error == (BuildError::InvalidState { state: current_state }),
            result matches Ok(iter) ==> iter.remaining() == self.transitions_seq() && iter.current() == current_state,
    {
        let mut i: usize = 0;
        while i < self.transitions.len()
            invariant
                i <= self.transitions.len(),
                forall|j: int| 0 <= j < i ==> (#[trigger] self.transitions@[j]).0 != current_state,
            decreases self.transitions.len() - i,
        {
            if self.transitions[i].0.0 == current_state.0 {
                let iter = IterNextStates { transitions: &self.transitions, current_state, index: 0 };
                proof {
                    assert(iter.remaining() =~= self.transitions@);
                    let tr = self.transitions@[i as int];
                    assert(move_set(self.transitions@).contains((current_state.number(), tr.1, tr.2.number())));
                    assert(self.model().moves.contains((current_state.number(), tr.1, tr.2.number())));
                }
                return Ok(iter);
            }
            i += 1;
        }
        proof {
            assert forall|t: T, q: int| !self.model().moves.contains((current_state.number(), t, q)) by {
                if self.model().moves.contains((current_state.number(), t, q)) {
                    let j = choose|j: int|
                        0 <= j < self.transitions@.len() && (#[trigger] self.transitions@[j]).0.number() == current_state.number()
                            && self.transitions@[j].1 == t && self.transitions@[j].2.number() == q;
                    assert(self.transitions@[j].0 == current_state);
                }
            }
        }
        Err(BuildError::InvalidState { state: current_state })
    }

    pub fn iter_final_states(&self) -> (iter: IterFinalStates<'_>)
        ensures
            state_set(iter.remaining()) == self.model().finals,
    {
        let iter = IterFinalStates { final_states: &self.final_states, index: 0 };
        proof {
            assert(iter.remaining() =~= self.final_states@);
        }
        iter
    }
}

/// Whether the numbers of `states` are all different.
pub open spec fn distinct(states: Seq<State>) -> bool {
    forall|i: int, j: int| 0 <= i < j < states.len() ==> (#[trigger] states[i]).number() != (#[trigger] states[j]).number()
}

/// Whether `s` is listed in `states`.
fn contains_state(states: &Vec<State>, s: State) -> (found: bool)
    ensures
        found == state_set(states@).contains(s.number()),
{
    let mut i: usize = 0;
    while i < states.len()
        invariant
            i <= states.len(),
            forall|j: int| 0 <= j < i ==> (#[trigger] states@[j]).0 != s.0,
        decreases states.len() - i,
    {
        if states[i].0 == s.0 {
            return true;
        }
        i += 1;
    }
    false
}

proof fn lemma_state_set_push(states: Seq<State>, s: State)
    ensures
        state_set(states.push(s)) == state_set(states).insert(s.number()),
{
    let pushed = states.push(s);
    assert forall|q: int| state_set(pushed).contains(q) <==> state_set(states).insert(s.number()).contains(q) by {
        if state_set(pushed).contains(q) {
            let i = choose|i: int| 0 <= i < pushed.len() && (#[trigger] pushed[i]).number() == q;
            if i < states.len() {
                assert(pushed[i] == states[i]);
            }
        }
        if state_set(states).contains(q) {
            let i = choose|i: int| 0 <= i < states.len() && (#[trigger] states[i]).number() == q;
            assert(pushed[i] == states[i]);
        }
        if q == s.number() {
            assert(pushed[states.len() as int] == s);
        }
    }
    assert(state_set(pushed) =~= state_set(states).insert(s.number()));
}

proof fn lemma_state_set_drop_last(states: Seq<State>)
    requires
        states.len() > 0,
    ensures
        state_set(states) == state_set(states.drop_last()).insert(states.last().number()),
{
    assert(states.drop_last().push(states.last()) =~= states);
    lemma_state_set_push(states.drop_last(), states.last());
}

/// A list of states with different numbers lists as many states as its set of numbers holds.
pub proof fn lemma_distinct_count(states: Seq<State>)
    requires
        distinct(states),
    ensures
        state_set(states).finite(),
        state_set(states).len() == states.len(),
    decreases states.len(),
{
    if states.len() == 0 {
        assert(state_set(states) =~= Set::<int>::empty());
    } else {
        let rest = states.drop_last();
        assert(distinct(rest)) by {
            assert forall|i: int, j: int| 0 <= i < j < rest.len() implies (#[trigger] rest[i]).number() != (
            #[trigger] rest[j]).number() by {
                assert(rest[i] == states[i] && rest[j] == states[j]);
            }
        }
        lemma_distinct_count(rest);
        lemma_state_set_drop_last(states);
        if state_set(rest).contains(states.last().number()) {
            let i = choose|i: int| 0 <= i < rest.len() && (#[trigger] rest[i]).number() == states.last().number();
            assert(rest[i] == states[i]);
            assert(states[i].number() != states[states.len() - 1].number());
        }
    }
}

/// The states that pruning gives are the reachable ones, each once: their count is the number
/// of reachable states, at least one since the initial state is reachable, and stays so while
/// they are handed out.
pub proof fn lemma_reachable_count<T>(m: Model<T>, reachable_states: ReachableStates)
    requires
        state_set(reachable_states.all()) == reachable(m),
        distinct(reachable_states.all()),
    ensures
        reachable(m).finite(),
        reachable_states.all().len() == reachable(m).len(),
        reachable_states.all().len() >= 1,
{
    lemma_distinct_count(reachable_states.all());
    lemma_reachable(m);
    assert(reachable(m).contains(m.initial));
}

/// A builder holds one move at most from a state on a symbol: so what `get_transition` gives
/// after `try_transition` stored a move is that move's target, until `drop_useless_transitions`
/// drops it.
pub proof fn lemma_read_back<T>(builder: Builder<T>, state: int, symbol: T, first: int, second: int)
    requires
        builder.wf(),
        builder.model().moves.contains((state, symbol, first)),
        builder.model().moves.contains((state, symbol, second)),
    ensures
        first == second,
{
    lemma_functional_moves(builder.transitions@, state, symbol, first, second);
}

/// The numbers of the targets of `transitions`, in order.
spec fn targets<T>(transitions: Seq<(State, T, State)>) -> Seq<int> {
    transitions.map_values(|tr: (State, T, State)| tr.2.number())
}

impl<T> Builder<T> {
    /// Keeps only the transitions into reachable states and the reachable final
    /// states, and gives the reachable states.
    pub fn drop_useless_transitions(&mut self) -> (reachable_states: ReachableStates)
        requires
            old(self).wf(),
        ensures
            final(self).wf(),
            final(self).counter() == old(self).counter(),
            final(self).model().initial == old(self).model().initial,
            final(self).model().empty == old(self).model().empty,
            final(self).model().moves == old(self).model().moves.filter(
                |mv: (int, T, int)| reachable(old(self).model()).contains(mv.2),
            ),
            final(self).model().finals == old(self).model().finals.intersect(reachable(old(self).model())),
            state_set(reachable_states.all()) == reachable(old(self).model()),
            distinct(reachable_states.all()),
            reachable_states.remaining() == reachable_states.all(),
            forall|w: Seq<T>| #[trigger] accepts(final(self).model(), w) == accepts(old(self).model(), w),
    {
        let ghost m = self.model();
        let ghost r = reachable(m);
        let ghost pool = seq![0int] + targets(self.transitions@);
        proof {
            lemma_reachable(m);
        }
        let mut reachable_list: Vec<State> = Vec::new();
        let mut branches: Vec<State> = vec![State::initial()];
        proof {
            assert(branches@[0].number() == 0);
            assert(pool[0] == 0);
        }
        while branches.len() > 0
            invariant
                m == self.model(),
                r == reachable(m),
                self.wf(),
                pool == seq![0int] + targets(self.transitions@),
                r.contains(m.initial),
                forall|p: int, t: T, q: int| r.contains(p) && #[trigger] m.moves.contains((p, t, q)) ==> r.contains(q),
                distinct(reachable_list@),
                state_set(reachable_list@).subset_of(r),
                state_set(branches@).subset_of(r),
                forall|k: int| 0 <= k < reachable_list@.len() ==> pool.contains((#[trigger] reachable_list@[k]).number()),
                forall|k: int| 0 <= k < branches@.len() ==> pool.contains((#[trigger] branches@[k]).number()),
                state_set(reachable_list@).contains(0) || state_set(branches@).contains(0),
                forall|p: int, t: T, q: int|
                    state_set(reachable_list@).contains(p) && #[trigger] m.moves.contains((p, t, q)) ==> state_set(
                        reachable_list@,
                    ).contains(q) || state_set(branches@).contains(q),
            decreases pool.len() - reachable_list@.len(), branches@.len(),
        {
            proof {
                let nums = reachable_list@.map_values(|s: State| s.number());
                assert forall|x: int, y: int| 0 <= x < y < nums.len() implies nums[x] != nums[y] by {
                    assert(reachable_list@[x].number() != reachable_list@[y].number());
                }
                assert forall|i: int| 0 <= i < nums.len() implies pool.contains(#[trigger] nums[i]) by {
                    assert(pool.contains(reachable_list@[i].number()));
                }
                lemma_len_bound(nums, pool);
            }
            let ghost old_branches = branches@;
            let ghost old_list = reachable_list@;
            let current_state = branches.pop().unwrap();
            proof {
                lemma_state_set_drop_last(old_branches);
                assert(old_branches.last() == current_state);
                assert(state_set(old_branches).contains(current_state.number())) by {
                    assert(old_branches[old_branches.len() - 1] == current_state);
                }
            }
            if !contains_state(&reachable_list, current_state) {
                reachable_list.push(current_state);
                proof {
                    lemma_state_set_push(old_list, current_state);
                    assert forall|x: int, y: int| 0 <= x < y < reachable_list@.len() implies (#[trigger] reachable_list@[x]).number()
                        != (#[trigger] reachable_list@[y]).number() by {
                        assert(reachable_list@[x] == old_list[x]);
                        if y < old_list.len() {
                            assert(reachable_list@[y] == old_list[y]);
                        } else {
                            assert(state_set(old_list).contains(old_list[x].number()));
                        }
                    }
                    assert forall|k: int| 0 <= k < reachable_list@.len() implies pool.contains((#[trigger] reachable_list@[k]).number()) by {
                        if k < old_list.len() {
                            assert(reachable_list@[k] == old_list[k]);
                        } else {
                            assert(pool.contains(old_branches[old_branches.len() - 1].number()));
                        }
                    }
                }
                let ghost mid_branches = branches@;
                let mut i: usize = 0;
                while i < self.transitions.len()
                    invariant
                        m == self.model(),
                        r == reachable(m),
                        self.wf(),
                        pool == seq![0int] + targets(self.transitions@),
                        r.contains(current_state.number()),
                        forall|p: int, t: T, q: int| r.contains(p) && #[trigger] m.moves.contains((p, t, q)) ==> r.contains(q),
                        i <= self.transitions.len(),
                        state_set(mid_branches).subset_of(state_set(branches@)),
                        state_set(branches@).subset_of(r),
                        forall|k: int| 0 <= k < branches@.len() ==> pool.contains((#[trigger] branches@[k]).number()),
                        forall|k: int|
                            0 <= k < i && (#[trigger] self.transitions@[k]).0 == current_state ==> state_set(branches@).contains(
                                self.transitions@[k].2.number(),
                            ),
                    decreases self.transitions.len() - i,
                {
                    if self.transitions[i].0.0 == current_state.0 {
                        let ghost before = branches@;
                        branches.push(self.transitions[i].2);
                        proof {
                            lemma_state_set_push(before, self.transitions@[i as int].2);
                            let tr = self.transitions@[i as int];
                            assert(m.moves.contains((current_state.number(), tr.1, tr.2.number())));
                            assert forall|k: int| 0 <= k < branches@.len() implies pool.contains((#[trigger] branches@[k]).number()) by {
                                if k < before.len() {
                                    assert(branches@[k] == before[k]);
                                } else {
                                    assert(targets(self.transitions@)[i as int] == tr.2.number());
                                    assert(pool[i + 1] == tr.2.number());
                                }
                            }
                        }
                    }
                    i += 1;
                }
                proof {
                    let nums = reachable_list@.map_values(|s: State| s.number());
                    assert forall|x: int, y: int| 0 <= x < y < nums.len() implies nums[x] != nums[y] by {
                        assert(reachable_list@[x].number() != reachable_list@[y].number());
                    }
                    assert forall|i2: int| 0 <= i2 < nums.len() implies pool.contains(#[trigger] nums[i2]) by {
                        assert(pool.contains(reachable_list@[i2].number()));
                    }
                    lemma_len_bound(nums, pool);
                    assert forall|p: int, t: T, q: int|
                        state_set(reachable_list@).contains(p) && #[trigger] m.moves.contains((p, t, q)) implies state_set(
                            reachable_list@,
                        ).contains(q) || state_set(branches@).contains(q) by {
                        if p == current_state.number() {
                            let k = choose|k: int|
                                0 <= k < self.transitions@.len() && (#[trigger] self.transitions@[k]).0.number() == p
                                    && self.transitions@[k].1 == t && self.transitions@[k].2.number() == q;
                            assert(self.transitions@[k].0 == current_state);
                        } else {
                            assert(state_set(old_list).contains(p));
                        }
                    }
                }
            }
        }
        proof {
            assert forall|p: int, t: T, q: int|
                state_set(reachable_list@).contains(p) && #[trigger] m.moves.contains((p, t, q)) implies state_set(
                    reachable_list@,
                ).contains(q) by {
                if state_set(branches@).contains(q) {
                    let k = choose|k: int| 0 <= k < branches@.len() && (#[trigger] branches@[k]).number() == q;
                }
            }
            if !state_set(reachable_list@).contains(0) {
                let k = choose|k: int| 0 <= k < branches@.len() && (#[trigger] branches@[k]).number() == 0;
            }
            assert(r.subset_of(state_set(reachable_list@)));
            assert(state_set(reachable_list@) =~= r);
        }
        let ghost old_builder = *self;
        let mut kept: Vec<(State, T, State)> = Vec::new();
        let mut transitions = Vec::new();
        std::mem::swap(&mut transitions, &mut self.transitions);
        let mut j: usize = 0;
        let ghost all = transitions@;
        let n = transitions.len();
        while j < n
            invariant
                all == old_builder.transitions@,
                n == all.len(),
                transitions@.len() == all.len() - j,
                forall|k: int| 0 <= k < transitions@.len() ==> #[trigger] transitions@[k] == all[j + k],
                j <= all.len(),
                state_set(reachable_list@) == r,
                move_set(kept@) == Set::new(
                    |mv: (int, T, int)|
                        exists|l: int|
                            0 <= l < j && (#[trigger] all[l]).0.number() == mv.0 && all[l].1 == mv.1 && all[l].2.number() == mv.2
                                && r.contains(mv.2),
                ),
                forall|k: int| 0 <= k < kept@.len() ==> exists|l: int| 0 <= l < j && #[trigger] kept@[k] == all[l],
            decreases all.len() - j,
        {
            let transition = transitions.remove(0);
            let ghost before = kept@;
            if contains_state(&reachable_list, transition.2) {
                kept.push(transition);
            }
            proof {
                assert(transition == all[j as int]);
                assert forall|k: int| 0 <= k < transitions@.len() implies #[trigger] transitions@[k] == all[j + 1 + k] by {}
                let prev = Set::new(
                    |mv: (int, T, int)|
                        exists|l: int|
                            0 <= l < j && (#[trigger] all[l]).0.number() == mv.0 && all[l].1 == mv.1 && all[l].2.number() == mv.2
                                && r.contains(mv.2),
                );
                let next = Set::new(
                    |mv: (int, T, int)|
                        exists|l: int|
                            0 <= l < j + 1 && (#[trigger] all[l]).0.number() == mv.0 && all[l].1 == mv.1 && all[l].2.number() == mv.2
                                && r.contains(mv.2),
                );
                assert forall|mv: (int, T, int)| move_set(kept@).contains(mv) <==> next.contains(mv) by {
                    if move_set(kept@).contains(mv) {
                        let k = choose|k: int|
                            0 <= k < kept@.len() && (#[trigger] kept@[k]).0.number() == mv.0 && kept@[k].1 == mv.1
                                && kept@[k].2.number() == mv.2;
                        if k < before.len() {
                            assert(kept@[k] == before[k]);
                            assert(move_set(before).contains(mv));
                            assert(prev.contains(mv));
                            let l = choose|l: int|
                                0 <= l < j && (#[trigger] all[l]).0.number() == mv.0 && all[l].1 == mv.1 && all[l].2.number() == mv.2
                                    && r.contains(mv.2);
                        } else {
                            assert(kept@[k] == all[j as int]);
                            assert(r.contains(mv.2));
                        }
                    }
                    if next.contains(mv) {
                        let l = choose|l: int|
                            0 <= l < j + 1 && (#[trigger] all[l]).0.number() == mv.0 && all[l].1 == mv.1 && all[l].2.number() == mv.2
                                && r.contains(mv.2);
                        if l < j {
                            assert(prev.contains(mv));
                            let k = choose|k: int|
                                0 <= k < before.len() && (#[trigger] before[k]).0.number() == mv.0 && before[k].1 == mv.1
                                    && before[k].2.number() == mv.2;
                            assert(kept@[k] == before[k]);
                        } else {
                            assert(state_set(reachable_list@).contains(all[l].2.number()));
                            assert(kept@[kept@.len() - 1] == all[l]);
                        }
                    }
                }
                assert(move_set(kept@) =~= next);
                assert forall|k: int| 0 <= k < kept@.len() implies exists|l: int| 0 <= l < j + 1 && #[trigger] kept@[k] == all[l] by {
                    if k < before.len() {
                        assert(kept@[k] == before[k]);
                        let l = choose|l: int| 0 <= l < j && #[trigger] before[k] == all[l];
                    } else {
                        assert(kept@[k] == all[j as int]);
                    }
                }
            }
            j += 1;
        }
        self.transitions = kept;
        let mut kept_finals: Vec<State> = Vec::new();
        let mut i: usize = 0;
        while i < self.final_states.len()
            invariant
                i <= self.final_states.len(),
                self.final_states == old_builder.final_states,
                state_set(reachable_list@) == r,
                forall|k: int| 0 <= k < kept_finals@.len() ==> exists|l: int| 0 <= l < i && #[trigger] kept_finals@[k] == self.final_states@[l],
                state_set(kept_finals@) == state_set(self.final_states@.take(i as int)).intersect(r),
            decreases self.final_states.len() - i,
        {
            let ghost before = kept_finals@;
            let state = self.final_states[i];
            if contains_state(&reachable_list, state) {
                kept_finals.push(state);
                proof {
                    lemma_state_set_push(before, state);
                }
            }
            proof {
                assert(self.final_states@.take(i + 1) =~= self.final_states@.take(i as int).push(state));
                lemma_state_set_push(self.final_states@.take(i as int), state);
                assert(state_set(kept_finals@) =~= state_set(self.final_states@.take(i + 1)).intersect(r));
                assert forall|k: int| 0 <= k < kept_finals@.len() implies exists|l: int| 0 <= l < i + 1 && #[trigger] kept_finals@[k] == self.final_states@[l] by {
                    if k < before.len() {
                        assert(kept_finals@[k] == before[k]);
                        let l = choose|l: int| 0 <= l < i && #[trigger] before[k] == self.final_states@[l];
                    } else {
                        assert(kept_finals@[k] == self.final_states@[i as int]);
                    }
                }
            }
            i += 1;
        }
        proof {
            assert(self.final_states@.take(self.final_states@.len() as int) =~= self.final_states@);
        }
        self.final_states = kept_finals;
        proof {
            let old_m = old_builder.model();
            assert(self.model().moves =~= old_m.moves.filter(|mv: (int, T, int)| r.contains(mv.2))) by {
                assert forall|mv: (int, T, int)| self.model().moves.contains(mv) <==> old_m.moves.filter(|mv: (int, T, int)| r.contains(mv.2)).contains(mv) by {
                    if self.model().moves.contains(mv) {
                        let l = choose|l: int|
                            0 <= l < all.len() && (#[trigger] all[l]).0.number() == mv.0 && all[l].1 == mv.1 && all[l].2.number() == mv.2
                                && r.contains(mv.2);
                        assert(old_m.moves.contains(mv));
                    }
                    if old_m.moves.filter(|mv: (int, T, int)| r.contains(mv.2)).contains(mv) {
                        let l = choose|l: int|
                            0 <= l < all.len() && (#[trigger] all[l]).0.number() == mv.0 && all[l].1 == mv.1 && all[l].2.number() == mv.2;
                    }
                }
            }
            assert(self.model().finals =~= old_m.finals.intersect(r));
            assert forall|i2: int| 0 <= i2 < self.transitions@.len() implies (#[trigger] self.transitions@[i2]).0.0 < self.state_counter.0
                && self.transitions@[i2].2.0 < self.state_counter.0 by {
                let l = choose|l: int| 0 <= l < all.len() && #[trigger] self.transitions@[i2] == all[l];
            }
            assert forall|i2: int| 0 <= i2 < self.final_states@.len() implies (#[trigger] self.final_states@[i2]).0 < self.state_counter.0 by {
                let l = choose|l: int| 0 <= l < old_builder.final_states@.len() && #[trigger] self.final_states@[i2] == old_builder.final_states@[l];
            }
            assert forall|i2: int, j2: int|
                0 <= i2 < self.transitions@.len() && 0 <= j2 < self.transitions@.len() && (#[trigger] self.transitions@[i2]).0
                    == (#[trigger] self.transitions@[j2]).0 && self.transitions@[i2].1 == self.transitions@[j2].1 implies self.transitions@[i2].2
                == self.transitions@[j2].2 by {
                let l1 = choose|l: int| 0 <= l < all.len() && #[trigger] self.transitions@[i2] == all[l];
                let l2 = choose|l: int| 0 <= l < all.len() && #[trigger] self.transitions@[j2] == all[l];
                assert(old_builder.transitions@[l1] == all[l1]);
                assert(old_builder.transitions@[l2] == all[l2]);
            }
            assert forall|w: Seq<T>| #[trigger] accepts(self.model(), w) == accepts(old_m, w) by {
                lemma_prune_unreachable(old_m, self.model(), w);
            }
        }
        let count = reachable_list.len();
        let reachable_states = ReachableStates { count, states: reachable_list, index: 0 };
        proof {
            assert(reachable_states.remaining() =~= reachable_states.all());
        }
        reachable_states
    }
}

/// Numbers the states of a builder from 0, the initial state first.
struct StateTable {
    counter: u128,
    map: Renaming,
}

impl StateTable {
    spec fn wf(&self) -> bool {
        &&& self.map.wf()
        &&& self.map.below(self.counter as int)
        &&& self.counter as int == self.map.pairs@.len()
    }

    fn new() -> (table: Self)
        ensures
            table.wf(),
            table.map@ == map![0int => 0int],
    {
        StateTable { counter: 1, map: Renaming::single(0, 0) }
    }

    /// The number of `state`; the next free number the first time it is seen.
    fn map(&mut self, state: State) -> (number: usize)
        requires
            old(self).wf(),
        ensures
            final(self).wf(),
            final(self).map@.contains_key(state.number()),
            final(self).map@[state.number()] == number,
            forall|k: int| #[trigger] old(self).map@.contains_key(k) ==> final(self).map@.contains_key(k)
                && final(self).map@[k] == old(self).map@[k],
            forall|k: int| #[trigger] final(self).map@.contains_key(k) ==> old(self).map@.contains_key(k) || k == state.number(),
    {
        let bound = self.map.pairs.len();
        let number = self.map.rename(state.0, &mut self.counter);
        let len = self.map.pairs.len();
        proof {
            assert(number < self.counter);
        }
        number as usize
    }
}

/// A deterministic automaton over numbered states, starting in state 0.
#[derive(Debug, Clone)]
pub struct SmallAutomaton<T> {
    transitions: Vec<(usize, T, usize)>,
    final_states: Vec<usize>,
}

impl<T> SmallAutomaton<T> {
    pub closed spec fn model(&self) -> Model<T> {
        Model {
            initial: 0,
            finals: Set::new(|q: int| exists|i: int| 0 <= i < self.final_states@.len() && self.final_states@[i] == q),
            moves: Set::new(
                |mv: (int, T, int)|
                    exists|i: int|
                        0 <= i < self.transitions@.len() && (#[trigger] self.transitions@[i]).0 == mv.0 && self.transitions@[i].1
                            == mv.1 && self.transitions@[i].2 == mv.2,
            ),
            empty: Set::empty(),
        }
    }

    /// No state leaves twice on one symbol.
    pub closed spec fn wf(&self) -> bool {
        functional(self.transitions@)
    }
}

impl<T: PartialEq + Clone> FiniteAutomaton<T> for SmallAutomaton<T> {
    open spec fn automaton_model(&self) -> Model<T> {
        self.model()
    }

    open spec fn runnable(&self) -> bool {
        lawful_symbol::<T>() && self.wf()
    }

    fn test(&self, input: &[T]) -> (accepted: bool) {
        proof {
            lemma_run_start(self.model(), input@);
        }
        let ghost m = self.model();
        let mut current_state: usize = 0;
        let mut i: usize = 0;
        while i < input.len()
            invariant
                lawful_symbol::<T>(),
                m == self.model(),
                functional(self.transitions@),
                i <= input.len(),
                run(m, input@.take(i as int)) == set![current_state as int],
            decreases input.len() - i,
        {
            proof {
                lemma_run_step(m, input@, i as int);
            }
            let mut k: usize = 0;
            let mut found: Option<usize> = None;
            let ghost mut at: int = 0;
            while k < self.transitions.len()
                invariant
                    lawful_symbol::<T>(),
                    i < input.len(),
                    k <= self.transitions.len(),
                    found is None ==> forall|l: int|
                        0 <= l < k ==> !((#[trigger] self.transitions@[l]).0 == current_state && self.transitions@[l].1 == input@[i as int]),
                    found matches Some(q) ==> 0 <= at < self.transitions@.len() && self.transitions@[at].0 == current_state
                        && self.transitions@[at].1 == input@[i as int] && self.transitions@[at].2 == q,
                decreases self.transitions.len() - k,
            {
                if found.is_none() && self.transitions[k].0 == current_state && same_symbol(&self.transitions[k].1, &input[i]) {
                    found = Some(self.transitions[k].2);
                    proof {
                        at = k as int;
                    }
                }
                k += 1;
            }
            match found {
                Some(next_state) => {
                    proof {
                        let t = input@[i as int];
                        assert(m.moves.contains((current_state as int, t, next_state as int)));
                        assert forall|q: int| step(m, set![current_state as int], t).contains(q) <==> q == next_state as int by {
                            if step(m, set![current_state as int], t).contains(q) {
                                let p = choose|p: int| set![current_state as int].contains(p) && #[trigger] m.moves.contains((p, t, q));
                                let l = choose|l: int|
                                    0 <= l < self.transitions@.len() && (#[trigger] self.transitions@[l]).0 == p && self.transitions@[l].1 == t
                                        && self.transitions@[l].2 == q;
                                assert(self.transitions@[l].0 == self.transitions@[at].0);
                            }
                        }
                        assert(step(m, set![current_state as int], t) =~= set![next_state as int]);
                    }
                    current_state = next_state;
                },
                None => {
                    proof {
                        let t = input@[i as int];
                        assert forall|q: int| !step(m, set![current_state as int], t).contains(q) by {
                            if step(m, set![current_state as int], t).contains(q) {
                                let p = choose|p: int| set![current_state as int].contains(p) && #[trigger] m.moves.contains((p, t, q));
                                let l = choose|l: int|
                                    0 <= l < self.transitions@.len() && (#[trigger] self.transitions@[l]).0 == p && self.transitions@[l].1 == t
                                        && self.transitions@[l].2 == q;
                            }
                        }
                        assert(run(m, input@.take(i + 1)) =~= Set::empty());
                        lemma_run_dead(m, input@, i + 1);
                        if accepts(m, input@) {
                            let q = choose|q: int| #[trigger] run(m, input@).contains(q) && m.finals.contains(q);
                        }
                    }
                    return false;
                },
            }
            i += 1;
        }
        proof {
            assert(input@.take(input@.len() as int) =~= input@);
        }
        let mut j: usize = 0;
        while j < self.final_states.len()
            invariant
                j <= self.final_states.len(),
                m == self.model(),
                run(m, input@) == set![current_state as int],
                forall|l: int| 0 <= l < j ==> (#[trigger] self.final_states@[l]) != current_state,
            decreases self.final_states.len() - j,
        {
            if self.final_states[j] == current_state {
                proof {
                    assert(m.finals.contains(current_state as int));
                    assert(run(m, input@).contains(current_state as int));
                }
                return true;
            }
            j += 1;
        }
        proof {
            if accepts(m, input@) {
                let q = choose|q: int| #[trigger] run(m, input@).contains(q) && m.finals.contains(q);
                assert(q == current_state as int);
                let l = choose|l: int| 0 <= l < self.final_states@.len() && self.final_states@[l] == q;
                assert(self.final_states@[l] != current_state);
            }
        }
        false
    }
}

impl<T: PartialEq + Clone> Builder<T> {
    /// Drops what cannot be reached, numbers the states from 0 and gives the
    /// automaton in its small form.
    pub fn build_small(self) -> (automaton: SmallAutomaton<T>)
        requires
            lawful_symbol::<T>(),
            self.wf(),
        ensures
            automaton.wf(),
            forall|w: Seq<T>| #[trigger] accepts(automaton.model(), w) == accepts(self.model(), w),
    {
        let mut builder = self;
        builder.drop_useless_transitions();
        let ghost pruned = builder.model();
        let mut state_table = StateTable::new();
        let ghost start = state_table.map@;
        assert(start.contains_key(0) && start[0] == 0);
        state_table.map(State::initial());
        let mut transitions: Vec<(usize, T, usize)> = Vec::new();
        let mut i: usize = 0;
        while i < builder.transitions.len()
            invariant
                lawful_symbol::<T>(),
                builder.wf(),
                pruned == builder.model(),
                i <= builder.transitions.len(),
                state_table.wf(),
                state_table.map@.contains_key(0) && state_table.map@[0] == 0,
                forall|k: int| #[trigger] state_table.map@.contains_key(k) ==> k == 0 || pruned.finals.contains(k) || exists|l: int|
                    0 <= l < i && ((#[trigger] builder.transitions@[l]).0.number() == k || builder.transitions@[l].2.number() == k),
                transitions@.len() == i,
                forall|l: int|
                    0 <= l < i ==> {
                        let tr = #[trigger] builder.transitions@[l];
                        &&& state_table.map@.contains_key(tr.0.number())
                        &&& state_table.map@.contains_key(tr.2.number())
                        &&& transitions@[l] == (state_table.map@[tr.0.number()] as usize, tr.1, state_table.map@[tr.2.number()] as usize)
                    },
            decreases builder.transitions.len() - i,
        {
            let ghost before = state_table.map@;
            let current = state_table.map(builder.transitions[i].0);
            let next = state_table.map(builder.transitions[i].2);
            transitions.push((current, copy_symbol(&builder.transitions[i].1), next));
            proof {
                assert forall|k: int| #[trigger] state_table.map@.contains_key(k) implies k == 0 || pruned.finals.contains(k) || exists|l: int|
                    0 <= l < i + 1 && ((#[trigger] builder.transitions@[l]).0.number() == k || builder.transitions@[l].2.number() == k) by {
                    if before.contains_key(k) {
                        if k != 0 && !pruned.finals.contains(k) {
                            let l = choose|l: int|
                                0 <= l < i && ((#[trigger] builder.transitions@[l]).0.number() == k || builder.transitions@[l].2.number() == k);
                            assert(0 <= l < i + 1);
                        }
                    } else {
                        assert(builder.transitions@[i as int].0.number() == k || builder.transitions@[i as int].2.number() == k);
                    }
                }
            }
            i += 1;
        }
        let mut final_states: Vec<usize> = Vec::new();
        let mut j: usize = 0;
        while j < builder.final_states.len()
            invariant
                builder.wf(),
                pruned == builder.model(),
                j <= builder.final_states.len(),
                state_table.wf(),
                state_table.map@.contains_key(0) && state_table.map@[0] == 0,
                forall|k: int| #[trigger] state_table.map@.contains_key(k) ==> k == 0 || pruned.finals.contains(k) || exists|l: int|
                    0 <= l < builder.transitions@.len() && ((#[trigger] builder.transitions@[l]).0.number() == k
                        || builder.transitions@[l].2.number() == k),
                transitions@.len() == builder.transitions@.len(),
                forall|l: int|
                    0 <= l < builder.transitions@.len() ==> {
                        let tr = #[trigger] builder.transitions@[l];
                        &&& state_table.map@.contains_key(tr.0.number())
                        &&& state_table.map@.contains_key(tr.2.number())
                        &&& transitions@[l] == (state_table.map@[tr.0.number()] as usize, tr.1, state_table.map@[tr.2.number()] as usize)
                    },
                final_states@.len() == j,
                forall|l: int|
                    0 <= l < j ==> state_table.map@.contains_key((#[trigger] builder.final_states@[l]).number())
                        && final_states@[l] == state_table.map@[builder.final_states@[l].number()],
            decreases builder.final_states.len() - j,
        {
            proof {
                assert(pruned.finals.contains(builder.final_states@[j as int].number()));
            }
            let number = state_table.map(builder.final_states[j]);
            final_states.push(number);
            j += 1;
        }
        let automaton = SmallAutomaton { transitions, final_states };
        proof {
            let f = state_table.map@;
            state_table.map.lemma_injective(state_table.counter as int);
            assert forall|k: int| #[trigger] f.contains_key(k) implies 0 <= f[k] < state_table.counter <= usize::MAX by {
                let len = state_table.map.pairs@.len();
            }
            let r = renamed(pruned, f);
            assert forall|mv: (int, T, int)| automaton.model().moves.contains(mv) <==> r.moves.contains(mv) by {
                if automaton.model().moves.contains(mv) {
                    let l = choose|l: int|
                        0 <= l < automaton.transitions@.len() && (#[trigger] automaton.transitions@[l]).0 == mv.0
                            && automaton.transitions@[l].1 == mv.1 && automaton.transitions@[l].2 == mv.2;
                    let tr = builder.transitions@[l];
                    let mv2 = (tr.0.number(), tr.1, tr.2.number());
                    assert(pruned.moves.contains(mv2));
                    assert((f[mv2.0], mv2.1, f[mv2.2]) == mv);
                }
                if r.moves.contains(mv) {
                    let mv2 = choose|mv2: (int, T, int)| #[trigger] pruned.moves.contains(mv2) && (f[mv2.0], mv2.1, f[mv2.2]) == mv;
                    let l = choose|l: int|
                        0 <= l < builder.transitions@.len() && (#[trigger] builder.transitions@[l]).0.number() == mv2.0
                            && builder.transitions@[l].1 == mv2.1 && builder.transitions@[l].2.number() == mv2.2;
                    assert(automaton.transitions@[l].0 == mv.0);
                }
            }
            assert forall|q: int| automaton.model().finals.contains(q) <==> r.finals.contains(q) by {
                if automaton.model().finals.contains(q) {
                    let l = choose|l: int| 0 <= l < automaton.final_states@.len() && automaton.final_states@[l] == q;
                    assert(pruned.finals.contains(builder.final_states@[l].number()));
                }
                if r.finals.contains(q) {
                    let p = choose|p: int| #[trigger] pruned.finals.contains(p) && f[p] == q;
                    let l = choose|l: int| 0 <= l < builder.final_states@.len() && (#[trigger] builder.final_states@[l]).number() == p;
                    assert(automaton.final_states@[l] == q);
                }
            }
            assert(automaton.model().moves =~= r.moves);
            assert(automaton.model().finals =~= r.finals);
            assert(automaton.model() == r);
            assert forall|p: int| #[trigger] pruned.finals.contains(p) implies f.contains_key(p) by {
                let l = choose|l: int| 0 <= l < builder.final_states@.len() && (#[trigger] builder.final_states@[l]).number() == p;
            }
            assert forall|mv: (int, T, int)| #[trigger] pruned.moves.contains(mv) implies f.contains_key(mv.0) && f.contains_key(mv.2) by {
                let l = choose|l: int|
                    0 <= l < builder.transitions@.len() && (#[trigger] builder.transitions@[l]).0.number() == mv.0
                        && builder.transitions@[l].1 == mv.1 && builder.transitions@[l].2.number() == mv.2;
            }
            assert(covers(f, pruned));
            assert forall|a: int, b: int|
                0 <= a < automaton.transitions@.len() && 0 <= b < automaton.transitions@.len() && (#[trigger] automaton.transitions@[a]).0
                    == (#[trigger] automaton.transitions@[b]).0 && automaton.transitions@[a].1 == automaton.transitions@[b].1 implies automaton.transitions@[a].2
                == automaton.transitions@[b].2 by {
                let ta = builder.transitions@[a];
                let tb = builder.transitions@[b];
                assert(f[ta.0.number()] == f[tb.0.number()]);
                assert(ta.0.number() == tb.0.number());
                assert(ta.0 == tb.0);
            }
            assert forall|w: Seq<T>| #[trigger] accepts(automaton.model(), w) == accepts(self.model(), w) by {
                lemma_renamed_accepts(pruned, f, w);
            }
        }
        automaton
    }
}

impl<T> Builder<T> {
    /// The automaton built so far starts in state 0, has no empty moves, leaves
    /// each state at most once on each symbol, and uses only valid states.
    pub proof fn lemma_model(&self)
        requires
            self.wf(),
        ensures
            self.model().initial == 0,
            self.model().empty.is_empty(),
            forall|a: int, t: T, b1: int, b2: int|
                #[trigger] self.model().moves.contains((a, t, b1)) && #[trigger] self.model().moves.contains((a, t, b2)) ==> b1 == b2,
            forall|mv: (int, T, int)|
                #[trigger] self.model().moves.contains(mv) ==> 0 <= mv.0 < self.counter() && 0 <= mv.2 < self.counter(),
            forall|q: int| #[trigger] self.model().finals.contains(q) ==> 0 <= q < self.counter(),
    {
        let m = self.model();
        assert forall|a: int, t: T, b1: int, b2: int|
            #[trigger] m.moves.contains((a, t, b1)) && #[trigger] m.moves.contains((a, t, b2)) implies b1 == b2 by {
            let i = choose|i: int|
                0 <= i < self.transitions@.len() && (#[trigger] self.transitions@[i]).0.number() == a
                    && self.transitions@[i].1 == t && self.transitions@[i].2.number() == b1;
            let j = choose|j: int|
                0 <= j < self.transitions@.len() && (#[trigger] self.transitions@[j]).0.number() == a
                    && self.transitions@[j].1 == t && self.transitions@[j].2.number() == b2;
            assert(self.transitions@[i].0 == self.transitions@[j].0);
        }
        assert forall|mv: (int, T, int)| #[trigger] m.moves.contains(mv) implies 0 <= mv.0 < self.counter() && 0 <= mv.2 < self.counter() by {
            let i = choose|i: int|
                0 <= i < self.transitions@.len() && (#[trigger] self.transitions@[i]).0.number() == mv.0
                    && self.transitions@[i].1 == mv.1 && self.transitions@[i].2.number() == mv.2;
        }
        assert forall|q: int| #[trigger] m.finals.contains(q) implies 0 <= q < self.counter() by {
            let i = choose|i: int| 0 <= i < self.final_states@.len() && (#[trigger] self.final_states@[i]).number() == q;
        }
    }
}

/// Slots of a table in rows of `e` are told apart by their row and column.
proof fn lemma_slot_unique(e: int, a: int, i: int, b: int, j: int)
    requires
        e > 0,
        0 <= i < e,
        0 <= j < e,
        0 <= a,
        0 <= b,
        a * e + i == b * e + j,
    ensures
        a == b,
        i == j,
{
    if a < b {
        assert(a * e + i < b * e) by (nonlinear_arith)
            requires
                a < b,
                0 <= i < e,
                e > 0,
        ;
    } else if b < a {
        assert(b * e + j < a * e) by (nonlinear_arith)
            requires
                b < a,
                0 <= j < e,
                e > 0,
        ;
    }
}

/// A slot of a table of `n` rows of `e` lies within the table.
proof fn lemma_slot_in_range(e: int, n: int, s: int, k: int)
    requires
        0 <= s < n,
        0 <= k < e,
    ensures
        0 <= s * e + k < n * e,
{
    assert(0 <= s * e + k < n * e) by (nonlinear_arith)
        requires
            0 <= s < n,
            0 <= k < e,
    ;
}

/// The next state in the table of rows of `e` for state `s` on the symbol numbered `k`.
pub open spec fn next_slot(table: Seq<usize>, e: int, s: int, k: int) -> usize {
    table[s * e + 1 + k]
}

/// The length of a row of the table of a fast automaton: the final mark and
/// one next state per symbol.
pub open spec fn row_len<T: Countable>() -> int {
    T::COUNT + 1
}

/// A deterministic automaton as a table: for each state a row holding whether
/// it is final and, for each symbol, the next state (`usize::MAX` for none).
#[derive(Debug)]
pub struct FastAutomaton<T> {
    transitions: Vec<usize>,
    _marker: PhantomData<T>,
}

impl<T: ToIndex> FastAutomaton<T> {
    /// How many states the table has.
    pub closed spec fn state_count(&self) -> int {
        (self.transitions@.len() as int) / row_len::<T>()
    }

    /// The table is made of whole rows, at least one, and names only its own states.
    pub closed spec fn wf(&self) -> bool {
        let e = row_len::<T>();
        let n = self.state_count();
        &&& T::count_exact()
        &&& T::COUNT < usize::MAX
        &&& self.transitions@.len() == n * e
        &&& n >= 1
        &&& forall|s: int, k: int|
            0 <= s < n && 0 <= k < T::COUNT ==> #[trigger] next_slot(self.transitions@, e, s, k) == usize::MAX
                || next_slot(self.transitions@, e, s, k) < n
    }

    pub closed spec fn model(&self) -> Model<T> {
        let e = row_len::<T>();
        let n = self.state_count();
        Model {
            initial: 0,
            finals: Set::new(|s: int| 0 <= s < n && self.transitions@[s * e] != 0),
            moves: Set::new(
                |mv: (int, T, int)|
                    0 <= mv.0 < n && mv.1.index_of() < T::COUNT && self.transitions@[mv.0 * e + 1 + mv.1.index_of()] == mv.2
                        && mv.2 != usize::MAX,
            ),
            empty: Set::empty(),
        }
    }

    fn entry_size() -> (size: usize)
        requires
            T::COUNT < usize::MAX,
        ensures
            size == row_len::<T>(),
    {
        1 + T::COUNT
    }

    fn entry_start(index: usize) -> (start: usize)
        requires
            T::COUNT < usize::MAX,
            index * row_len::<T>() <= usize::MAX,
        ensures
            start == index * row_len::<T>(),
    {
        let size = Self::entry_size();
        proof {
            assert(size * index == index * row_len::<T>()) by (nonlinear_arith)
                requires
                    size == row_len::<T>(),
            ;
        }
        size * index
    }

    fn words(state_count: usize) -> (words: usize)
        requires
            T::COUNT < usize::MAX,
            state_count * row_len::<T>() <= usize::MAX,
        ensures
            words == state_count * row_len::<T>(),
    {
        let size = Self::entry_size();
        proof {
            assert(size * state_count == state_count * row_len::<T>()) by (nonlinear_arith)
                requires
                    size == row_len::<T>(),
            ;
        }
        size * state_count
    }

    fn entry_final_state(current_state: usize) -> (slot: usize)
        requires
            T::COUNT < usize::MAX,
            current_state * row_len::<T>() <= usize::MAX,
        ensures
            slot == current_state * row_len::<T>(),
    {
        Self::entry_start(current_state)
    }

    fn entry_next_state(current_state: usize, symbol: &T) -> (slot: usize)
        requires
            T::count_exact(),
            T::COUNT < usize::MAX,
            (current_state + 1) * row_len::<T>() <= usize::MAX,
        ensures
            slot == current_state * row_len::<T>() + 1 + symbol.index_of(),
            symbol.index_of() < T::COUNT,
    {
        proof {
            assert((current_state + 1) * row_len::<T>() == current_state * row_len::<T>() + row_len::<T>()) by (nonlinear_arith);
        }
        Self::entry_start(current_state) + 1 + symbol.to_index()
    }
}

impl<T: ToIndex> FiniteAutomaton<T> for FastAutomaton<T> {
    open spec fn automaton_model(&self) -> Model<T> {
        self.model()
    }

    open spec fn runnable(&self) -> bool {
        self.wf()
    }

    fn test(&self, input: &[T]) -> (accepted: bool) {
        let ghost m = self.model();
        let ghost e = row_len::<T>();
        let ghost n = self.state_count();
        proof {
            lemma_run_start(m, input@);
        }
        let len = self.transitions.len();
        let mut current_state: usize = 0;
        let mut i: usize = 0;
        while i < input.len()
            invariant
                self.wf(),
                len == self.transitions@.len(),
                m == self.model(),
                e == row_len::<T>(),
                n == self.state_count(),
                i <= input.len(),
                current_state < n,
                run(m, input@.take(i as int)) == set![current_state as int],
            decreases input.len() - i,
        {
            proof {
                lemma_run_step(m, input@, i as int);
                assert((current_state + 1) * e <= n * e) by (nonlinear_arith)
                    requires
                        current_state + 1 <= n,
                        e > 0,
                ;
            }
            let index = Self::entry_next_state(current_state, &input[i]);
            proof {
                lemma_slot_in_range(e, n, current_state as int, 1 + input@[i as int].index_of() as int);
            }
            let next_state = self.transitions[index];
            let ghost t = input@[i as int];
            proof {
                assert(next_state == next_slot(self.transitions@, e, current_state as int, input@[i as int].index_of() as int));
            }
            if next_state == usize::MAX {
                proof {
                    assert forall|q: int| !step(m, set![current_state as int], t).contains(q) by {
                        if step(m, set![current_state as int], t).contains(q) {
                            let p = choose|p: int| set![current_state as int].contains(p) && #[trigger] m.moves.contains((p, t, q));
                        }
                    }
                    assert(run(m, input@.take(i + 1)) =~= Set::empty());
                    lemma_run_dead(m, input@, i + 1);
                    if accepts(m, input@) {
                        let q = choose|q: int| #[trigger] run(m, input@).contains(q) && m.finals.contains(q);
                    }
                }
                return false;
            }
            proof {
                assert(m.moves.contains((current_state as int, t, next_state as int)));
                assert forall|q: int| step(m, set![current_state as int], t).contains(q) <==> q == next_state as int by {
                    if step(m, set![current_state as int], t).contains(q) {
                        let p = choose|p: int| set![current_state as int].contains(p) && #[trigger] m.moves.contains((p, t, q));
                    }
                }
                assert(step(m, set![current_state as int], t) =~= set![next_state as int]);
            }
            current_state = next_state;
            i += 1;
        }
        proof {
            assert(input@.take(input@.len() as int) =~= input@);
            assert((current_state + 1) * e <= n * e) by (nonlinear_arith)
                requires
                    current_state + 1 <= n,
                    e > 0,
            ;
            assert((current_state + 1) * e == current_state * e + e) by (nonlinear_arith);
        }
        let index = Self::entry_final_state(current_state);
        proof {
            lemma_slot_in_range(e, n, current_state as int, 0);
        }
        let accepted = self.transitions[index] != 0;
        proof {
            if accepted {
                assert(m.finals.contains(current_state as int));
                assert(run(m, input@).contains(current_state as int));
            }
            if accepts(m, input@) {
                let q = choose|q: int| #[trigger] run(m, input@).contains(q) && m.finals.contains(q);
                assert(q == current_state as int);
            }
        }
        accepted
    }
}

/// Whether the numbering `f` of the states of `pruned` is written into `table`
/// for the first `k` reachable states and the first `j` transitions.
spec fn table_follows<T: ToIndex>(
    table: Seq<usize>,
    f: Map<int, int>,
    reachable_states: Seq<State>,
    finals: Set<int>,
    transitions: Seq<(State, T, State)>,
    k: int,
    j: int,
) -> bool {
    let e = row_len::<T>();
    &&& forall|i: int|
        0 <= i < k ==> table[f[(#[trigger] reachable_states[i]).number()] * e] == if finals.contains(
            reachable_states[i].number(),
        ) {
            1usize
        } else {
            0usize
        }
    &&& forall|l: int|
        0 <= l < j ==> next_slot(table, e, f[(#[trigger] transitions[l]).0.number()], transitions[l].1.index_of() as int)
            == f[transitions[l].2.number()]
}

impl<T: ToIndex> Builder<T> {
    /// Drops what cannot be reached, numbers the states from 0 and gives the
    /// automaton as a table. The transitions out of unreachable states must
    /// not lead to reachable ones, the table must fit in memory, and the
    /// numbering of symbols must be one-to-one.
    pub fn build_fast(self) -> (automaton: FastAutomaton<T>)
        requires
            self.wf(),
            T::count_exact(),
            T::COUNT < usize::MAX,
            reachable(self.model()).len() * row_len::<T>() <= usize::MAX,
            forall|mv: (int, T, int)|
                #[trigger] self.model().moves.contains(mv) && reachable(self.model()).contains(mv.2) ==> reachable(
                    self.model(),
                ).contains(mv.0),
            forall|a: T, b: T| a.index_of() == b.index_of() ==> a == b,
        ensures
            automaton.wf(),
            forall|w: Seq<T>| #[trigger] accepts(automaton.model(), w) == accepts(self.model(), w),
    {
        let ghost r = reachable(self.model());
        let mut builder = self;
        let reachable_states = builder.drop_useless_transitions();
        let ghost pruned = builder.model();
        let ghost e = row_len::<T>();
        let count = reachable_states.total_count();
        let ghost list = reachable_states.states@;
        proof {
            let nums = list.map_values(|s: State| s.number());
            assert(nums.to_set() =~= r) by {
                assert forall|x: int| nums.to_set().contains(x) <==> r.contains(x) by {
                    if r.contains(x) {
                        assert(state_set(list).contains(x));
                        let i = choose|i: int| 0 <= i < list.len() && (#[trigger] list[i]).number() == x;
                        assert(nums[i] == x);
                    }
                    if nums.to_set().contains(x) {
                        let i = choose|i: int| 0 <= i < nums.len() && nums[i] == x;
                        assert(state_set(list).contains(list[i].number()));
                    }
                }
            }
            assert(nums.no_duplicates()) by {
                assert forall|x: int, y: int| 0 <= x < y < nums.len() implies nums[x] != nums[y] by {
                    assert(list[x].number() != list[y].number());
                }
            }
            nums.unique_seq_to_set();
            lemma_reachable(self.model());
            assert(state_set(list).contains(0));
            assert(count >= 1);
        }
        let words = FastAutomaton::<T>::words(count);
        let mut table: Vec<usize> = Vec::new();
        let mut w: usize = 0;
        while w < words
            invariant
                w <= words,
                table@.len() == w,
                forall|x: int| 0 <= x < w ==> table@[x] == usize::MAX,
            decreases words - w,
        {
            table.push(usize::MAX);
            w += 1;
        }
        let mut state_table = StateTable::new();
        let ghost start = state_table.map@;
        assert(start.contains_key(0) && start[0] == 0);
        proof {
            assert forall|s2: int, k2: int| 0 <= s2 < count && 0 <= k2 < T::COUNT implies #[trigger] next_slot(table@, e, s2, k2) == usize::MAX by {
                lemma_slot_in_range(e, count as int, s2, 1 + k2);
            }
        }
        let mut k: usize = 0;
        while k < count
            invariant
                k <= count,
                count == list.len(),
                list == reachable_states.states@,
                state_set(list) == r,
                distinct(list),
                builder.wf(),
                pruned == builder.model(),
                e == row_len::<T>(),
                T::count_exact(),
                T::COUNT < usize::MAX,
                count * e <= usize::MAX,
                table@.len() == count * e,
                state_table.wf(),
                state_table.map@.contains_key(0) && state_table.map@[0] == 0,
                forall|x: int| #[trigger] state_table.map@.contains_key(x) ==> r.contains(x),
                forall|i: int| 0 <= i < k ==> state_table.map@.contains_key((#[trigger] list[i]).number()),
                forall|x: int| #[trigger] state_table.map@.contains_key(x) ==> 0 <= state_table.map@[x] < count,
                forall|s2: int, k2: int|
                    0 <= s2 < count && 0 <= k2 < T::COUNT ==> #[trigger] next_slot(table@, e, s2, k2) == usize::MAX,
                table_follows(table@, state_table.map@, list, pruned.finals, builder.transitions@, k as int, 0),
            decreases count - k,
        {
            let state = reachable_states.states[k];
            let ghost before = state_table.map@;
            let number = state_table.map(state);
            proof {
                let keys = state_table.map.pairs@.map_values(|p: (u128, u128)| p.0 as int);
                assert forall|x: int, y: int| 0 <= x < y < keys.len() implies keys[x] != keys[y] by {
                    assert(state_table.map.pairs@[x].0 != state_table.map.pairs@[y].0);
                }
                let nums = list.map_values(|s: State| s.number());
                assert forall|i: int| 0 <= i < keys.len() implies nums.contains(#[trigger] keys[i]) by {
                    state_table.map.lemma_lookup(i);
                    let x = keys[i];
                    if before.contains_key(x) {
                        assert(r.contains(x));
                    } else {
                        assert(x == state.number());
                        assert(r.contains(x));
                    }
                    assert(state_set(list).contains(x));
                    let y = choose|y: int| 0 <= y < list.len() && (#[trigger] list[y]).number() == x;
                    assert(nums[y] == x);
                }
                crate::metaphrastees::model::lemma_len_bound(keys, nums);
                state_table.map.lemma_injective(state_table.counter as int);
                assert(number < count);
                assert((number + 1) * e <= count * e) by (nonlinear_arith)
                    requires
                        number + 1 <= count,
                        e > 0,
                ;
                assert((number + 1) * e == number * e + e) by (nonlinear_arith);
            }
            let index = FastAutomaton::<T>::entry_final_state(number);
            let is_final = builder.is_final_state(state);
            let ghost old_table = table@;
            table.set(index, if is_final { 1 } else { 0 });
            proof {
                let f = state_table.map@;
                assert forall|s2: int, k2: int| 0 <= s2 < count && 0 <= k2 < T::COUNT implies #[trigger] next_slot(table@, e, s2, k2) == usize::MAX by {
                    lemma_slot_in_range(e, count as int, s2, 1 + k2);
                    if s2 * e + 1 + k2 == number * e {
                        lemma_slot_unique(e, s2, 1 + k2, number as int, 0);
                    }
                    assert(next_slot(old_table, e, s2, k2) == usize::MAX);
                }
                assert forall|i: int| 0 <= i < k + 1 implies table@[f[(#[trigger] list[i]).number()] * e] == if pruned.finals.contains(
                    list[i].number(),
                ) {
                    1usize
                } else {
                    0usize
                } by {
                    if i < k {
                        assert(before.contains_key(list[i].number()));
                        let row = f[list[i].number()];
                        if row == number as int {
                            assert(list[i].number() == state.number());
                            assert(list[i].number() != list[k as int].number());
                        }
                        lemma_slot_in_range(e, count as int, row, 0);
                        if row * e == number * e {
                            lemma_slot_unique(e, row, 0, number as int, 0);
                        }
                    }
                }
                assert forall|x: int| #[trigger] state_table.map@.contains_key(x) implies 0 <= state_table.map@[x] < count by {
                    if before.contains_key(x) {
                    } else {
                        assert(x == state.number());
                    }
                }
            }
            k += 1;
        }
        let mut j: usize = 0;
        while j < builder.transitions.len()
            invariant
                j <= builder.transitions@.len(),
                count == list.len(),
                state_set(list) == r,
                distinct(list),
                builder.wf(),
                pruned == builder.model(),
                e == row_len::<T>(),
                T::count_exact(),
                T::COUNT < usize::MAX,
                count * e <= usize::MAX,
                table@.len() == count * e,
                state_table.wf(),
                state_table.map@.contains_key(0) && state_table.map@[0] == 0,
                forall|i: int| 0 <= i < count ==> state_table.map@.contains_key((#[trigger] list[i]).number()),
                forall|x: int| #[trigger] state_table.map@.contains_key(x) <==> r.contains(x),
                forall|x: int| #[trigger] state_table.map@.contains_key(x) ==> 0 <= state_table.map@[x] < count,
                state_table.map@.is_injective(),
                forall|mv: (int, T, int)| #[trigger] pruned.moves.contains(mv) ==> r.contains(mv.0) && r.contains(mv.2),
                forall|a: T, b: T| a.index_of() == b.index_of() ==> a == b,
                forall|s2: int, k2: int|
                    0 <= s2 < count && 0 <= k2 < T::COUNT ==> #[trigger] next_slot(table@, e, s2, k2) == usize::MAX || exists|l: int|
                        0 <= l < j && state_table.map@[(#[trigger] builder.transitions@[l]).0.number()] == s2
                            && builder.transitions@[l].1.index_of() == k2,
                table_follows(table@, state_table.map@, list, pruned.finals, builder.transitions@, count as int, j as int),
            decreases builder.transitions@.len() - j,
        {
            let transition = &builder.transitions[j];
            let ghost tr = builder.transitions@[j as int];
            let ghost f = state_table.map@;
            proof {
                assert(pruned.moves.contains((tr.0.number(), tr.1, tr.2.number())));
                state_table.map.lemma_injective(state_table.counter as int);
            }
            let current = state_table.map(transition.0);
            let next = state_table.map(transition.2);
            proof {
                assert(state_table.map@ == f);
                assert((current + 1) * e <= count * e) by (nonlinear_arith)
                    requires
                        current + 1 <= count,
                        e > 0,
                ;
            }
            let index = FastAutomaton::<T>::entry_next_state(current, &transition.1);
            proof {
                lemma_slot_in_range(e, count as int, current as int, 1 + tr.1.index_of() as int);
            }
            let ghost old_table = table@;
            table.set(index, next);
            proof {
                let kk = tr.1.index_of() as int;
                assert(next_slot(table@, e, current as int, kk) == next);
                assert forall|s2: int, k2: int|
                    0 <= s2 < count && 0 <= k2 < T::COUNT implies #[trigger] next_slot(table@, e, s2, k2) == usize::MAX || exists|l: int|
                        0 <= l < j + 1 && state_table.map@[(#[trigger] builder.transitions@[l]).0.number()] == s2
                            && builder.transitions@[l].1.index_of() == k2 by {
                    lemma_slot_in_range(e, count as int, s2, 1 + k2);
                    if s2 * e + 1 + k2 == current * e + 1 + kk {
                        lemma_slot_unique(e, s2, 1 + k2, current as int, 1 + kk);
                        assert(builder.transitions@[j as int] == tr);
                    } else {
                        assert(next_slot(table@, e, s2, k2) == next_slot(old_table, e, s2, k2));
                        if next_slot(old_table, e, s2, k2) != usize::MAX {
                            let l = choose|l: int|
                                0 <= l < j && state_table.map@[(#[trigger] builder.transitions@[l]).0.number()] == s2
                                    && builder.transitions@[l].1.index_of() == k2;
                            assert(0 <= l < j + 1);
                        }
                    }
                }
                assert forall|i: int| 0 <= i < count implies table@[f[(#[trigger] list[i]).number()] * e] == if pruned.finals.contains(
                    list[i].number(),
                ) {
                    1usize
                } else {
                    0usize
                } by {
                    let row = f[list[i].number()];
                    lemma_slot_in_range(e, count as int, row, 0);
                    if row * e == current * e + 1 + kk {
                        lemma_slot_unique(e, row, 0, current as int, 1 + kk);
                    }
                    assert(table@[row * e] == old_table[row * e]);
                }
                assert forall|l: int| 0 <= l < j + 1 implies next_slot(table@, e, f[(#[trigger] builder.transitions@[l]).0.number()], builder.transitions@[l].1.index_of() as int)
                    == f[builder.transitions@[l].2.number()] by {
                    if l < j {
                        let tl = builder.transitions@[l];
                        tl.1.lemma_index_in_range();
                        assert(pruned.moves.contains((tl.0.number(), tl.1, tl.2.number())));
                        let row = f[tl.0.number()];
                        let col = tl.1.index_of() as int;
                        lemma_slot_in_range(e, count as int, row, 1 + col);
                        if row * e + 1 + col == current * e + 1 + kk {
                            lemma_slot_unique(e, row, 1 + col, current as int, 1 + kk);
                            assert(tl.0.number() == tr.0.number());
                            assert(tl.1 == tr.1);
                            assert(tl.0 == tr.0);
                        }
                        assert(next_slot(table@, e, row, col) == next_slot(old_table, e, row, col));
                    }
                }
            }
            j += 1;
        }
        let automaton = FastAutomaton { transitions: table, _marker: PhantomData };
        proof {
            let f = state_table.map@;
            let m = automaton.model();
            assert(automaton.state_count() == count) by {
                assert((count * e) / e == count as int) by (nonlinear_arith)
                    requires
                        e > 0,
                ;
            }
            assert forall|s2: int, k2: int| 0 <= s2 < count && 0 <= k2 < T::COUNT implies #[trigger] next_slot(automaton.transitions@, e, s2, k2)
                == usize::MAX || next_slot(automaton.transitions@, e, s2, k2) < count by {
                if next_slot(automaton.transitions@, e, s2, k2) != usize::MAX {
                    let l = choose|l: int|
                        0 <= l < builder.transitions@.len() && f[(#[trigger] builder.transitions@[l]).0.number()] == s2
                            && builder.transitions@[l].1.index_of() == k2;
                    let tl = builder.transitions@[l];
                    assert(pruned.moves.contains((tl.0.number(), tl.1, tl.2.number())));
                }
            }
            assert(automaton.wf());
            let forward = |x: int| f[x];
            let dom = r;
            assert forall|p: int, t: T, q: int| dom.contains(p) && #[trigger] pruned.moves.contains((p, t, q)) implies dom.contains(q)
                && m.moves.contains((forward(p), t, forward(q))) by {
                let l = choose|l: int|
                    0 <= l < builder.transitions@.len() && (#[trigger] builder.transitions@[l]).0.number() == p
                        && builder.transitions@[l].1 == t && builder.transitions@[l].2.number() == q;
                t.lemma_index_in_range();
                assert(next_slot(automaton.transitions@, e, f[p], t.index_of() as int) == f[q]);
            }
            assert forall|p: int| dom.contains(p) && #[trigger] pruned.finals.contains(p) implies m.finals.contains(forward(p)) by {
                let i = choose|i: int| 0 <= i < list.len() && (#[trigger] list[i]).number() == p;
            }
            lemma_reachable(self.model());
            builder.lemma_model();
            assert(simulates(pruned, m, forward, dom));
            let image = Set::new(|y: int| exists|x: int| #[trigger] f.contains_key(x) && f[x] == y);
            let backward = |y: int| choose|x: int| #[trigger] f.contains_key(x) && f[x] == y;
            assert forall|x: int| #[trigger] f.contains_key(x) implies backward(f[x]) == x by {
                assert(image.contains(f[x]));
                let z = backward(f[x]);
            }
            assert forall|y: int, t: T, q: int| image.contains(y) && #[trigger] m.moves.contains((y, t, q)) implies image.contains(q)
                && pruned.moves.contains((backward(y), t, backward(q))) by {
                assert(next_slot(automaton.transitions@, e, y, t.index_of() as int) == q);
                let l = choose|l: int|
                    0 <= l < builder.transitions@.len() && f[(#[trigger] builder.transitions@[l]).0.number()] == y
                        && builder.transitions@[l].1.index_of() == t.index_of();
                let tl = builder.transitions@[l];
                assert(pruned.moves.contains((tl.0.number(), tl.1, tl.2.number())));
                assert(tl.1 == t);
                assert(f[tl.2.number()] == q);
                assert(backward(f[tl.0.number()]) == tl.0.number());
                assert(backward(f[tl.2.number()]) == tl.2.number());
            }
            assert forall|y: int| image.contains(y) && #[trigger] m.finals.contains(y) implies pruned.finals.contains(backward(y)) by {
                let x = choose|x: int| #[trigger] f.contains_key(x) && f[x] == y;
                assert(backward(y) == x);
                let i = choose|i: int| 0 <= i < list.len() && (#[trigger] list[i]).number() == x;
            }
            assert(image.contains(0));
            assert(backward(0) == 0);
            assert(simulates(m, pruned, backward, image));
            assert forall|w: Seq<T>| #[trigger] accepts(automaton.model(), w) == accepts(self.model(), w) by {
                lemma_simulation(pruned, m, forward, dom, w);
                lemma_simulation(m, pruned, backward, image, w);
            }
        }
        automaton
    }
}

} // verus!
