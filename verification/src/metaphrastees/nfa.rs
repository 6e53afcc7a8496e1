//! Nondeterministic finite automata without empty moves.
use super::model::{accepts, lemma_eclose_no_empty, run, step, Model};
use super::model::{lemma_simulation, simulates};
use super::renaming::Renaming;
use super::symbol::{copy_symbol, lawful_symbol, same_symbol};
use vstd::prelude::*;

verus! {

#[derive(Debug, Clone, Copy, PartialEq, Eq, PartialOrd, Ord, Hash, Structural)]
pub struct State(pub u128);

/// The states listed in `states`, as integers.
pub open spec fn state_set(states: Seq<State>) -> Set<int> {
    Set::new(|q: int| exists|i: int| 0 <= i < states.len() && (#[trigger] states[i]).0 == q)
}

/// A transition as a move of the model.
pub open spec fn move_of<T>(transition: (State, T, State)) -> (int, T, int) {
    (transition.0.0 as int, transition.1, transition.2.0 as int)
}

/// The moves listed in `transitions`.
pub open spec fn move_set<T>(transitions: Seq<(State, T, State)>) -> Set<(int, T, int)> {
    Set::new(
        |mv: (int, T, int)|
            exists|i: int| 0 <= i < transitions.len() && move_of(#[trigger] transitions[i]) == mv,
    )
}

/// An automaton reading symbols of type `T`: on each symbol it moves from every
/// current state along every transition labelled with that symbol.
#[derive(Debug, Clone, PartialEq, Eq)]
pub struct Automaton<T> {
    pub initial_state: State,
    pub final_states: Vec<State>,
    /// Each transition is a current state, a symbol and a next state.
    pub transitions: Vec<(State, T, State)>,
}

impl<T> Automaton<T> {
    pub open spec fn model(&self) -> Model<T> {
        Model {
            initial: self.initial_state.0 as int,
            finals: state_set(self.final_states@),
            moves: move_set(self.transitions@),
            empty: Set::empty(),
        }
    }
}

/// Whether `s` is listed in `states`.
pub fn contains_state(states: &Vec<State>, s: State) -> (found: bool)
    ensures
        found == state_set(states@).contains(s.0 as int),
{
    let mut i: usize = 0;
    while i < states.len()
        invariant
            i <= states.len(),
            forall|j: int| 0 <= j < i ==> (#[trigger] states@[j]).0 != s.0,
        decreases states.len() - i,
    {
        if states[i].0 == s.0 {
            return true;
        }
        i += 1;
    }
    false
}

/// Adds `s` to `states` unless it is already listed.
pub fn insert_state(states: &mut Vec<State>, s: State)
    ensures
        state_set(final(states)@) == state_set(old(states)@).insert(s.0 as int),
        final(states)@.no_duplicates() <== old(states)@.no_duplicates(),
{
    if !contains_state(states, s) {
        states.push(s);
        proof {
            assert(states@.last() == s);
        }
    }
    proof {
        assert(state_set(states@) =~= state_set(old(states)@).insert(s.0 as int)) by {
            assert forall|q: int| state_set(states@).contains(q) implies state_set(
                old(states)@,
            ).insert(s.0 as int).contains(q) by {
                let i = choose|i: int| 0 <= i < states@.len() && (#[trigger] states@[i]).0 == q;
                if i < old(states)@.len() {
                    assert(old(states)@[i] == states@[i]);
                }
            }
            assert forall|q: int| state_set(old(states)@).insert(s.0 as int).contains(
                q,
            ) implies state_set(states@).contains(q) by {
                if q != s.0 as int {
                    let i = choose|i: int|
                        0 <= i < old(states)@.len() && (#[trigger] old(states)@[i]).0 == q;
                    assert(states@[i] == old(states)@[i]);
                }
            }
        }
    }
}

impl<T: PartialEq + Clone> Automaton<T> {
    pub fn start(&self) -> (execution: Execution<'_, T>)
        ensures
            execution.automaton() == self,
            execution.states() == set![self.initial_state.0 as int],
    {
        let execution = Execution { automaton: self, current_states: vec![self.initial_state] };
        proof {
            assert(execution.states() =~= set![self.initial_state.0 as int]) by {
                assert(execution.current_states@[0] == self.initial_state);
            }
        }
        execution
    }

    /// Whether the automaton accepts `input`.
    pub fn test(&self, input: &[T]) -> (accepted: bool)
        requires
            lawful_symbol::<T>(),
        ensures
            accepted == accepts(self.model(), input@),
    {
        let mut execution = self.start();
        let mut i: usize = 0;
        proof {
            lemma_eclose_no_empty(self.model(), set![self.model().initial]);
            assert(input@.take(0) =~= Seq::<T>::empty());
        }
        while i < input.len()
            invariant
                lawful_symbol::<T>(),
                i <= input.len(),
                execution.automaton() == self,
                execution.states() == run(self.model(), input@.take(i as int)),
            decreases input.len() - i,
        {
            let ghost before = execution.states();
            execution.next(&input[i]);
            proof {
                let prefix = input@.take(i + 1);
                assert(prefix.drop_last() =~= input@.take(i as int));
                lemma_eclose_no_empty(self.model(), step(self.model(), before, input@[i as int]));
            }
            i += 1;
        }
        proof {
            assert(input@.take(input@.len() as int) =~= input@);
        }
        let current = execution.current_states();
        let mut j: usize = 0;
        while j < current.len()
            invariant
                j <= current.len(),
                state_set(current@) == run(self.model(), input@),
                forall|k: int|
                    0 <= k < j ==> !state_set(self.final_states@).contains(
                        (#[trigger] current@[k]).0 as int,
                    ),
            decreases current.len() - j,
        {
            if contains_state(&self.final_states, current[j]) {
                proof {
                    assert(state_set(current@).contains(current@[j as int].0 as int));
                }
                return true;
            }
            j += 1;
        }
        proof {
            if accepts(self.model(), input@) {
                let q = choose|q: int|
                    #[trigger] run(self.model(), input@).contains(q) && self.model().finals.contains(
                        q,
                    );
                let k = choose|k: int| 0 <= k < current@.len() && (#[trigger] current@[k]).0 == q;
                assert(!state_set(self.final_states@).contains(current@[k].0 as int));
            }
        }
        false
    }
}

/// A run of an automaton, holding the states it may be in.
#[derive(Debug, PartialEq, Eq)]
pub struct Execution<'automaton, T> {
    automaton: &'automaton Automaton<T>,
    current_states: Vec<State>,
}

impl<'automaton, T> Execution<'automaton, T> {
    pub closed spec fn automaton(&self) -> &'automaton Automaton<T> {
        self.automaton
    }

    /// The states the run may be in.
    pub closed spec fn states(&self) -> Set<int> {
        state_set(self.current_states@)
    }

    pub fn current_states(&self) -> (states: &Vec<State>)
        ensures
            state_set(states@) == self.states(),
    {
        &self.current_states
    }
}

/// The states reached from `current` on `symbol`.
pub fn step_states<T: PartialEq + Clone>(automaton: &Automaton<T>, current: &Vec<State>, symbol: &T) -> (next: Vec<State>)
    requires
        lawful_symbol::<T>(),
    ensures
        state_set(next@) == step(automaton.model(), state_set(current@), *symbol),
{
    let mut next_states: Vec<State> = Vec::new();
    let transitions = &automaton.transitions;
    let ghost m = automaton.model();
    let mut i: usize = 0;
    while i < transitions.len()
        invariant
            lawful_symbol::<T>(),
            i <= transitions.len(),
            transitions == &automaton.transitions,
            m == automaton.model(),
            state_set(next_states@) == Set::new(
                |q: int|
                    exists|k: int|
                        0 <= k < i && #[trigger] transitions@[k].2.0 as int == q
                            && transitions@[k].1 == *symbol && state_set(
                            current@,
                        ).contains(transitions@[k].0.0 as int),
            ),
        decreases transitions.len() - i,
    {
        let transition = &transitions[i];
        if same_symbol(&transition.1, symbol) && contains_state(current, transition.0) {
            insert_state(&mut next_states, transition.2);
        }
        proof {
            let old_set = Set::new(
                |q: int|
                    exists|k: int|
                        0 <= k < i && #[trigger] transitions@[k].2.0 as int == q
                            && transitions@[k].1 == *symbol && state_set(
                            current@,
                        ).contains(transitions@[k].0.0 as int),
            );
            let new_set = Set::new(
                |q: int|
                    exists|k: int|
                        0 <= k < i + 1 && #[trigger] transitions@[k].2.0 as int == q
                            && transitions@[k].1 == *symbol && state_set(
                            current@,
                        ).contains(transitions@[k].0.0 as int),
            );
            assert forall|q: int| new_set.contains(q) implies state_set(next_states@).contains(q) by {
                let k = choose|k: int|
                    0 <= k < i + 1 && #[trigger] transitions@[k].2.0 as int == q
                        && transitions@[k].1 == *symbol && state_set(
                        current@,
                    ).contains(transitions@[k].0.0 as int);
                if k < i {
                    assert(old_set.contains(q));
                }
            }
            assert forall|q: int| state_set(next_states@).contains(q) implies new_set.contains(q) by {
                if !old_set.contains(q) {
                    assert(transitions@[i as int].2.0 as int == q);
                } else {
                    let k = choose|k: int|
                        0 <= k < i && #[trigger] transitions@[k].2.0 as int == q
                            && transitions@[k].1 == *symbol && state_set(
                            current@,
                        ).contains(transitions@[k].0.0 as int);
                    assert(transitions@[k].2.0 as int == q);
                }
            }
            assert(state_set(next_states@) =~= new_set);
        }
        i += 1;
    }
    proof {
        let target = step(m, state_set(current@), *symbol);
        assert forall|q: int| state_set(next_states@).contains(q) implies target.contains(q) by {
            let k = choose|k: int|
                0 <= k < transitions@.len() && #[trigger] transitions@[k].2.0 as int == q
                    && transitions@[k].1 == *symbol && state_set(current@).contains(
                    transitions@[k].0.0 as int,
                );
            assert(m.moves.contains(move_of(transitions@[k])));
        }
        assert forall|q: int| target.contains(q) implies state_set(next_states@).contains(q) by {
            let p = choose|p: int|
                state_set(current@).contains(p) && #[trigger] m.moves.contains(
                    (p, *symbol, q),
                );
            let k = choose|k: int|
                0 <= k < transitions@.len() && move_of(#[trigger] transitions@[k]) == (
                    p,
                    *symbol,
                    q,
                );
            assert(transitions@[k].2.0 as int == q);
        }
        assert(state_set(next_states@) =~= target);
    }
    next_states
}

impl<'automaton, T: PartialEq + Clone> Execution<'automaton, T> {
    /// Reads one symbol.
    pub fn next(&mut self, symbol: &T)
        requires
            lawful_symbol::<T>(),
        ensures
            final(self).automaton() == old(self).automaton(),
            final(self).states() == step(old(self).automaton().model(), old(self).states(), *symbol),
    {
        let next_states = step_states(self.automaton, &self.current_states, symbol);
        self.current_states = next_states;
    }
}

/// The states a model mentions: its initial state, its final states and the
/// ends of its moves.
pub open spec fn model_states<T>(m: Model<T>) -> Set<int> {
    Set::new(
        |q: int|
            q == m.initial || m.finals.contains(q) || exists|t: T, r: int|
                #![trigger m.moves.contains((q, t, r))]
                #![trigger m.moves.contains((r, t, q))]
                m.moves.contains((q, t, r)) || m.moves.contains((r, t, q)),
    )
}

/// A move with its states renamed by `f`.
pub open spec fn rename_move<T>(f: Map<int, int>, mv: (int, T, int)) -> (int, T, int) {
    (f[mv.0], mv.1, f[mv.2])
}

/// Whether `merged` joins `inputs` into one automaton, each input's states
/// renamed one-to-one by the matching renaming: every initial state becomes
/// state 0, the other states of different inputs stay apart, and the moves and
/// final states of the result are those of the inputs, renamed.
pub open spec fn is_merge<T>(inputs: Seq<Model<T>>, merged: Model<T>, renamings: Seq<Map<int, int>>) -> bool {
    &&& renamings.len() == inputs.len()
    &&& merged.initial == 0
    &&& merged.empty.is_empty()
    &&& forall|k: int|
        0 <= k < inputs.len() ==> {
            &&& (#[trigger] inputs[k]).empty.is_empty()
            &&& renamings[k].dom() == model_states(inputs[k])
            &&& renamings[k][inputs[k].initial] == 0
            &&& renamings[k].is_injective()
        }
    &&& forall|k: int, l: int, x: int, y: int|
        0 <= k < inputs.len() && 0 <= l < inputs.len() && k != l && renamings[k].contains_key(x)
            && renamings[l].contains_key(y) && #[trigger] renamings[k][x] == #[trigger] renamings[l][y]
            ==> renamings[k][x] == 0
    &&& merged.moves == Set::new(
        |mv: (int, T, int)|
            exists|k: int, mv2: (int, T, int)|
                0 <= k < inputs.len() && #[trigger] inputs[k].moves.contains(mv2) && rename_move(
                    renamings[k],
                    mv2,
                ) == mv,
    )
    &&& merged.finals == Set::new(
        |q: int|
            exists|k: int, p: int|
                0 <= k < inputs.len() && #[trigger] inputs[k].finals.contains(p) && renamings[k][p]
                    == q,
    )
}

/// The merged automaton accepts everything that any of the merged automata accepts.
pub proof fn lemma_merge_accepts<T>(
    inputs: Seq<Model<T>>,
    merged: Model<T>,
    renamings: Seq<Map<int, int>>,
    k: int,
    input: Seq<T>,
)
    requires
        is_merge(inputs, merged, renamings),
        0 <= k < inputs.len(),
    ensures
        accepts(inputs[k], input) ==> accepts(merged, input),
{
    let m = inputs[k];
    let f = |x: int| renamings[k][x];
    let dom = renamings[k].dom();
    assert(m.empty.is_empty());
    assert forall|p: int, t: T, q: int| dom.contains(p) && #[trigger] m.moves.contains((p, t, q)) implies dom.contains(q)
        && merged.moves.contains((f(p), t, f(q))) by {
        assert(model_states(m).contains(q));
        assert(rename_move(renamings[k], (p, t, q)) == (f(p), t, f(q)));
    }
    assert forall|p: int| dom.contains(p) && #[trigger] m.finals.contains(p) implies merged.finals.contains(f(p)) by {}
    assert(model_states(m).contains(m.initial));
    assert(simulates(m, merged, f, dom));
    lemma_simulation(m, merged, f, dom, input);
}

/// The number of states an automaton can bring into a merge, at most.
pub open spec fn merge_size<T>(automatons: Seq<Automaton<T>>) -> int
    decreases automatons.len(),
{
    if automatons.len() == 0 {
        0
    } else {
        merge_size(automatons.drop_last()) + automatons.last().final_states.len() + 2
            * automatons.last().transitions.len()
    }
}

pub proof fn lemma_merge_size_prefix<T>(automatons: Seq<Automaton<T>>, i: int)
    requires
        0 <= i <= automatons.len(),
    ensures
        0 <= merge_size(automatons.take(i)) <= merge_size(automatons),
    decreases automatons.len(),
{
    if automatons.len() > 0 {
        if i == automatons.len() {
            assert(automatons.take(i) =~= automatons);
            lemma_merge_size_prefix(automatons.drop_last(), i - 1);
            assert(automatons.drop_last().take(i - 1) =~= automatons.take(i - 1));
        } else {
            lemma_merge_size_prefix(automatons.drop_last(), i);
            assert(automatons.drop_last().take(i) =~= automatons.take(i));
        }
    }
}

/// The models of a sequence of automatons.
pub open spec fn models<T>(automatons: Seq<Automaton<T>>) -> Seq<Model<T>> {
    Seq::new(automatons.len(), |k: int| automatons[k].model())
}

/// The moves of the first `n` inputs, renamed.
pub open spec fn merged_moves<T>(inputs: Seq<Model<T>>, renamings: Seq<Map<int, int>>, n: int) -> Set<(int, T, int)> {
    Set::new(
        |mv: (int, T, int)|
            exists|k: int, mv2: (int, T, int)|
                0 <= k < n && #[trigger] inputs[k].moves.contains(mv2) && rename_move(renamings[k], mv2)
                    == mv,
    )
}

/// The final states of the first `n` inputs, renamed.
pub open spec fn merged_finals<T>(inputs: Seq<Model<T>>, renamings: Seq<Map<int, int>>, n: int) -> Set<int> {
    Set::new(
        |q: int|
            exists|k: int, p: int| 0 <= k < n && #[trigger] inputs[k].finals.contains(p) && renamings[k][p] == q,
    )
}

/// Whether `x` is the initial state, one of the first `j` final states, or an
/// end of one of the first `l` transitions of `a`.
pub open spec fn numbered<T>(a: Automaton<T>, j: int, l: int, x: int) -> bool {
    ||| x == a.initial_state.0 as int
    ||| exists|i: int| 0 <= i < j && (#[trigger] a.final_states@[i]).0 as int == x
    ||| exists|i: int| 0 <= i < l && touches(#[trigger] a.transitions@[i], x)
}

/// Whether `x` is an end of `transition`.
pub open spec fn touches<T>(transition: (State, T, State), x: int) -> bool {
    transition.0.0 as int == x || transition.2.0 as int == x
}

/// Numbers the states of `a`: its initial state gets 0, the others the next free numbers.
fn number_states<T>(a: &Automaton<T>, state_count: &mut u128) -> (mapping: Renaming)
    requires
        *old(state_count) >= 1,
        *old(state_count) + a.final_states.len() + 2 * a.transitions.len() < u128::MAX,
    ensures
        mapping.wf(),
        mapping.below(*final(state_count) as int),
        *old(state_count) <= *final(state_count) <= *old(state_count) + a.final_states.len() + 2
            * a.transitions.len(),
        mapping@.dom() == model_states(a.model()),
        mapping@[a.initial_state.0 as int] == 0,
        forall|x: int| #[trigger] mapping@.contains_key(x) && x != a.initial_state.0 as int ==> *old(state_count) <= mapping@[x],
{
    let ghost start = *state_count;
    let ghost init = a.initial_state.0 as int;
    let mut mapping = Renaming::single(a.initial_state.0, 0);
    let mut j: usize = 0;
    while j < a.final_states.len()
        invariant
            j <= a.final_states.len(),
            init == a.initial_state.0 as int,
            start >= 1,
            start + a.final_states.len() + 2 * a.transitions.len() < u128::MAX,
            start <= *state_count <= start + j,
            mapping.wf(),
            mapping.below(*state_count as int),
            mapping@[init] == 0,
            forall|x: int| #[trigger] mapping@.contains_key(x) <==> numbered(*a, j as int, 0, x),
            forall|x: int| #[trigger] mapping@.contains_key(x) && x != init ==> start <= mapping@[x],
        decreases a.final_states.len() - j,
    {
        let ghost before = mapping@;
        mapping.rename(a.final_states[j].0, state_count);
        proof {
            assert forall|x: int| #[trigger] mapping@.contains_key(x) <==> numbered(*a, j + 1, 0, x) by {
                if mapping@.contains_key(x) && x != a.final_states@[j as int].0 as int {
                    assert(before.contains_key(x));
                    assert(numbered(*a, j as int, 0, x));
                }
                if numbered(*a, j + 1, 0, x) && x != a.final_states@[j as int].0 as int && x != init {
                    let i = choose|i: int| 0 <= i < j + 1 && (#[trigger] a.final_states@[i]).0 as int == x;
                    assert(numbered(*a, j as int, 0, x));
                }
            }
        }
        j += 1;
    }
    let mut l: usize = 0;
    while l < a.transitions.len()
        invariant
            l <= a.transitions.len(),
            init == a.initial_state.0 as int,
            start >= 1,
            start + a.final_states.len() + 2 * a.transitions.len() < u128::MAX,
            start <= *state_count <= start + a.final_states.len() + 2 * l,
            mapping.wf(),
            mapping.below(*state_count as int),
            mapping@[init] == 0,
            forall|x: int|
                #[trigger] mapping@.contains_key(x) <==> numbered(*a, a.final_states.len() as int, l as int, x),
            forall|x: int| #[trigger] mapping@.contains_key(x) && x != init ==> start <= mapping@[x],
        decreases a.transitions.len() - l,
    {
        let ghost before = mapping@;
        mapping.rename(a.transitions[l].0.0, state_count);
        let ghost middle = mapping@;
        mapping.rename(a.transitions[l].2.0, state_count);
        proof {
            let n = a.final_states.len() as int;
            let tr = a.transitions@[l as int];
            assert forall|x: int| #[trigger] mapping@.contains_key(x) <==> numbered(*a, n, l + 1, x) by {
                if mapping@.contains_key(x) && x != tr.0.0 as int && x != tr.2.0 as int {
                    assert(middle.contains_key(x));
                    assert(before.contains_key(x));
                    assert(numbered(*a, n, l as int, x));
                }
                if numbered(*a, n, l + 1, x) && x != tr.0.0 as int && x != tr.2.0 as int {
                    if exists|i: int| 0 <= i < l + 1 && touches(#[trigger] a.transitions@[i], x) {
                        let i = choose|i: int| 0 <= i < l + 1 && touches(#[trigger] a.transitions@[i], x);
                        assert(i < l);
                    }
                    assert(numbered(*a, n, l as int, x));
                }
                if touches(tr, x) {
                    assert(numbered(*a, n, l + 1, x));
                }
            }
        }
        l += 1;
    }
    proof {
        let m = a.model();
        let n = a.final_states.len() as int;
        let t = a.transitions.len() as int;
        assert forall|x: int| #[trigger] mapping@.contains_key(x) <==> model_states(m).contains(x) by {
            if numbered(*a, n, t, x) {
                if x != init {
                    if exists|i: int| 0 <= i < n && (#[trigger] a.final_states@[i]).0 as int == x {
                        assert(m.finals.contains(x));
                    } else {
                        let i = choose|i: int| 0 <= i < t && touches(#[trigger] a.transitions@[i], x);
                        let mv = move_of(a.transitions@[i]);
                        assert(m.moves.contains(mv));
                        if mv.0 == x {
                            assert(m.moves.contains((x, mv.1, mv.2)));
                        } else {
                            assert(m.moves.contains((mv.0, mv.1, x)));
                        }
                    }
                }
            }
            if model_states(m).contains(x) && x != init {
                if m.finals.contains(x) {
                    let i = choose|i: int| 0 <= i < n && (#[trigger] a.final_states@[i]).0 == x;
                    assert(numbered(*a, n, t, x));
                } else {
                    let (u, r) = choose|u: T, r: int|
                        #![trigger m.moves.contains((x, u, r))]
                        #![trigger m.moves.contains((r, u, x))]
                        m.moves.contains((x, u, r)) || m.moves.contains((r, u, x));
                    if m.moves.contains((x, u, r)) {
                        let i = choose|i: int| 0 <= i < t && move_of(#[trigger] a.transitions@[i]) == (x, u, r);
                        assert(a.transitions@[i].0.0 as int == x);
                    } else {
                        let i = choose|i: int| 0 <= i < t && move_of(#[trigger] a.transitions@[i]) == (r, u, x);
                        assert(a.transitions@[i].2.0 as int == x);
                    }
                    assert(numbered(*a, n, t, x));
                }
            }
        }
        assert(mapping@.dom() =~= model_states(m));
    }
    mapping
}

/// The final states of `m` renamed by `f`.
pub open spec fn renamed_finals<T>(m: Model<T>, f: Map<int, int>) -> Set<int> {
    Set::new(|q: int| exists|p: int| #[trigger] m.finals.contains(p) && f[p] == q)
}

/// The moves of `m` renamed by `f`.
pub open spec fn renamed_moves<T>(m: Model<T>, f: Map<int, int>) -> Set<(int, T, int)> {
    Set::new(|mv: (int, T, int)| exists|mv2: (int, T, int)| #[trigger] m.moves.contains(mv2) && rename_move(f, mv2) == mv)
}

/// Adds the final states of `a`, renamed by `mapping`, to `final_states`.
fn emit_finals<T>(a: &Automaton<T>, mapping: &Renaming, final_states: &mut Vec<State>)
    requires
        mapping.wf(),
        mapping@.dom() == model_states(a.model()),
    ensures
        state_set(final(final_states)@) == state_set(old(final_states)@) + renamed_finals(a.model(), mapping@),
{
    let ghost m = a.model();
    let mut j: usize = 0;
    while j < a.final_states.len()
        invariant
            j <= a.final_states.len(),
            m == a.model(),
            mapping.wf(),
            mapping@.dom() == model_states(m),
            state_set(final_states@) == state_set(old(final_states)@) + Set::new(
                |q: int| exists|i: int| 0 <= i < j && mapping@[(#[trigger] a.final_states@[i]).0 as int] == q,
            ),
        decreases a.final_states.len() - j,
    {
        let ghost before = state_set(final_states@);
        let p = a.final_states[j].0;
        proof {
            assert(m.finals.contains(p as int));
            assert(model_states(m).contains(p as int));
        }
        let new = mapping.get(p).unwrap();
        insert_state(final_states, State(new));
        proof {
            let prev = Set::new(
                |q: int| exists|i: int| 0 <= i < j && mapping@[(#[trigger] a.final_states@[i]).0 as int] == q,
            );
            let next = Set::new(
                |q: int| exists|i: int| 0 <= i < j + 1 && mapping@[(#[trigger] a.final_states@[i]).0 as int] == q,
            );
            assert forall|q: int| next.contains(q) implies prev.insert(new as int).contains(q) by {
                let i = choose|i: int| 0 <= i < j + 1 && mapping@[(#[trigger] a.final_states@[i]).0 as int] == q;
                if i < j {
                    assert(prev.contains(q));
                }
            }
            assert forall|q: int| prev.insert(new as int).contains(q) implies next.contains(q) by {
                if q == new as int {
                    assert(mapping@[(a.final_states@[j as int]).0 as int] == q);
                } else {
                    let i = choose|i: int| 0 <= i < j && mapping@[(#[trigger] a.final_states@[i]).0 as int] == q;
                    assert(0 <= i < j + 1);
                }
            }
            assert(next =~= prev.insert(new as int));
            assert(state_set(final_states@) =~= state_set(old(final_states)@) + next);
        }
        j += 1;
    }
    proof {
        let all = Set::new(
            |q: int| exists|i: int|
                0 <= i < a.final_states.len() && mapping@[(#[trigger] a.final_states@[i]).0 as int] == q,
        );
        assert forall|q: int| all.contains(q) implies renamed_finals(m, mapping@).contains(q) by {
            let i = choose|i: int|
                0 <= i < a.final_states.len() && mapping@[(#[trigger] a.final_states@[i]).0 as int] == q;
            assert(m.finals.contains(a.final_states@[i].0 as int));
        }
        assert forall|q: int| renamed_finals(m, mapping@).contains(q) implies all.contains(q) by {
            let p = choose|p: int| #[trigger] m.finals.contains(p) && mapping@[p] == q;
            let i = choose|i: int| 0 <= i < a.final_states.len() && (#[trigger] a.final_states@[i]).0 == p;
            assert(mapping@[(a.final_states@[i]).0 as int] == q);
        }
        assert(all =~= renamed_finals(m, mapping@));
    }
}

/// Adds the transitions of `a`, renamed by `mapping`, to `transitions`.
fn emit_transitions<T: PartialEq + Clone>(
    a: &Automaton<T>,
    mapping: &Renaming,
    transitions: &mut Vec<(State, T, State)>,
)
    requires
        lawful_symbol::<T>(),
        mapping.wf(),
        mapping@.dom() == model_states(a.model()),
    ensures
        move_set(final(transitions)@) == move_set(old(transitions)@) + renamed_moves(a.model(), mapping@),
{
    let ghost m = a.model();
    let mut j: usize = 0;
    while j < a.transitions.len()
        invariant
            lawful_symbol::<T>(),
            j <= a.transitions.len(),
            m == a.model(),
            mapping.wf(),
            mapping@.dom() == model_states(m),
            move_set(transitions@) == move_set(old(transitions)@) + Set::new(
                |mv: (int, T, int)|
                    exists|i: int| 0 <= i < j && rename_move(mapping@, move_of(#[trigger] a.transitions@[i])) == mv,
            ),
        decreases a.transitions.len() - j,
    {
        let transition = &a.transitions[j];
        let ghost mv = move_of(*transition);
        proof {
            assert(m.moves.contains(mv));
            assert(model_states(m).contains(mv.0));
            assert(model_states(m).contains(mv.2));
        }
        let current = mapping.get(transition.0.0).unwrap();
        let next = mapping.get(transition.2.0).unwrap();
        let ghost before = transitions@;
        transitions.push((State(current), copy_symbol(&transition.1), State(next)));
        proof {
            let added = rename_move(mapping@, mv);
            assert(move_of(transitions@[transitions@.len() - 1]) == added);
            assert forall|x: (int, T, int)| move_set(transitions@).contains(x) <==> move_set(before).contains(x) || x == added by {
                if move_set(transitions@).contains(x) {
                    let i = choose|i: int| 0 <= i < transitions@.len() && move_of(#[trigger] transitions@[i]) == x;
                    if i < before.len() {
                        assert(transitions@[i] == before[i]);
                    }
                }
                if move_set(before).contains(x) {
                    let i = choose|i: int| 0 <= i < before.len() && move_of(#[trigger] before[i]) == x;
                    assert(transitions@[i] == before[i]);
                }
            }
            let prev = Set::new(
                |x: (int, T, int)|
                    exists|i: int| 0 <= i < j && rename_move(mapping@, move_of(#[trigger] a.transitions@[i])) == x,
            );
            let next_set = Set::new(
                |x: (int, T, int)|
                    exists|i: int| 0 <= i < j + 1 && rename_move(mapping@, move_of(#[trigger] a.transitions@[i])) == x,
            );
            assert forall|x: (int, T, int)| next_set.contains(x) <==> prev.contains(x) || x == added by {
                if next_set.contains(x) {
                    let i = choose|i: int|
                        0 <= i < j + 1 && rename_move(mapping@, move_of(#[trigger] a.transitions@[i])) == x;
                    if i < j {
                        assert(prev.contains(x));
                    }
                }
                if prev.contains(x) {
                    let i = choose|i: int| 0 <= i < j && rename_move(mapping@, move_of(#[trigger] a.transitions@[i])) == x;
                    assert(0 <= i < j + 1);
                }
                if x == added {
                    assert(rename_move(mapping@, move_of(a.transitions@[j as int])) == x);
                }
            }
            assert(move_set(before) == move_set(old(transitions)@) + prev);
            assert forall|x: (int, T, int)| move_set(transitions@).contains(x) <==> (move_set(old(transitions)@) + next_set).contains(x) by {
                if move_set(transitions@).contains(x) {
                    if x != added {
                        assert(move_set(before).contains(x));
                        if prev.contains(x) {
                            assert(next_set.contains(x));
                        }
                    } else {
                        assert(next_set.contains(x));
                    }
                }
                if (move_set(old(transitions)@) + next_set).contains(x) {
                    if next_set.contains(x) {
                        assert(prev.contains(x) || x == added);
                        if x != added {
                            assert(move_set(before).contains(x));
                        }
                    } else {
                        assert(move_set(before).contains(x));
                    }
                }
            }
            assert(move_set(transitions@) =~= move_set(old(transitions)@) + next_set);
        }
        j += 1;
    }
    proof {
        let all = Set::new(
            |x: (int, T, int)|
                exists|i: int|
                    0 <= i < a.transitions.len() && rename_move(mapping@, move_of(#[trigger] a.transitions@[i])) == x,
        );
        assert forall|x: (int, T, int)| all.contains(x) implies renamed_moves(m, mapping@).contains(x) by {
            let i = choose|i: int|
                0 <= i < a.transitions.len() && rename_move(mapping@, move_of(#[trigger] a.transitions@[i])) == x;
            assert(m.moves.contains(move_of(a.transitions@[i])));
        }
        assert forall|x: (int, T, int)| renamed_moves(m, mapping@).contains(x) implies all.contains(x) by {
            let mv2 = choose|mv2: (int, T, int)| #[trigger] m.moves.contains(mv2) && rename_move(mapping@, mv2) == x;
            let i = choose|i: int| 0 <= i < a.transitions.len() && move_of(#[trigger] a.transitions@[i]) == mv2;
            assert(rename_move(mapping@, move_of(a.transitions@[i])) == x);
        }
        assert(all =~= renamed_moves(m, mapping@));
    }
}

impl<T: PartialEq + Clone> Automaton<T> {
    /// Joins `automatons` into one automaton whose initial state stands for the
    /// initial states of them all, their other states renumbered apart.
    pub fn merge(automatons: &[Self]) -> (merged: Self)
        requires
            lawful_symbol::<T>(),
            merge_size(automatons@) + 1 < u128::MAX,
        ensures
            exists|renamings: Seq<Map<int, int>>| is_merge(models(automatons@), merged.model(), renamings),
    {
        let initial_state = State(0);
        let mut final_states: Vec<State> = Vec::new();
        let mut transitions: Vec<(State, T, State)> = Vec::new();
        let mut state_count: u128 = 1;
        let ghost inputs = models(automatons@);
        let ghost mut renamings: Seq<Map<int, int>> = Seq::empty();
        let mut i: usize = 0;
        while i < automatons.len()
            invariant
                lawful_symbol::<T>(),
                i <= automatons.len(),
                inputs == models(automatons@),
                merge_size(automatons@) + 1 < u128::MAX,
                1 <= state_count <= 1 + merge_size(automatons@.take(i as int)),
                renamings.len() == i,
                forall|k: int|
                    0 <= k < i ==> {
                        &&& (#[trigger] renamings[k]).dom() == model_states(inputs[k])
                        &&& renamings[k][inputs[k].initial] == 0
                        &&& renamings[k].is_injective()
                        &&& forall|x: int| #[trigger] renamings[k].contains_key(x) ==> renamings[k][x] < state_count
                    },
                forall|k: int, l: int, x: int, y: int|
                    0 <= k < i && 0 <= l < i && k != l && renamings[k].contains_key(x)
                        && renamings[l].contains_key(y) && #[trigger] renamings[k][x]
                        == #[trigger] renamings[l][y] ==> renamings[k][x] == 0,
                move_set(transitions@) == merged_moves(inputs, renamings, i as int),
                state_set(final_states@) == merged_finals(inputs, renamings, i as int),
            decreases automatons.len() - i,
        {
            let automaton = &automatons[i];
            let ghost start = state_count;
            proof {
                lemma_merge_size_prefix(automatons@, i + 1);
                assert(automatons@.take(i + 1).drop_last() =~= automatons@.take(i as int));
                assert(inputs[i as int] == automaton.model());
            }
            let mapping = number_states(automaton, &mut state_count);
            proof {
                mapping.lemma_injective(state_count as int);
            }
            let ghost old_moves = move_set(transitions@);
            let ghost old_finals = state_set(final_states@);
            emit_finals(automaton, &mapping, &mut final_states);
            emit_transitions(automaton, &mapping, &mut transitions);
            let ghost new_renamings = renamings.push(mapping@);
            proof {
                assert forall|k: int| 0 <= k < i + 1 implies {
                    &&& (#[trigger] new_renamings[k]).dom() == model_states(inputs[k])
                    &&& new_renamings[k][inputs[k].initial] == 0
                    &&& new_renamings[k].is_injective()
                    &&& forall|x: int| #[trigger] new_renamings[k].contains_key(x) ==> new_renamings[k][x] < state_count
                } by {
                    if k < i {
                        assert(new_renamings[k] == renamings[k]);
                    }
                }
                assert forall|k: int, l: int, x: int, y: int|
                    0 <= k < i + 1 && 0 <= l < i + 1 && k != l && new_renamings[k].contains_key(x)
                        && new_renamings[l].contains_key(y) && #[trigger] new_renamings[k][x]
                        == #[trigger] new_renamings[l][y] implies new_renamings[k][x] == 0 by {
                    if k == i {
                        assert(new_renamings[l] == renamings[l]);
                        if x != automaton.initial_state.0 as int {
                            assert(start <= mapping@[x]);
                        }
                    } else if l == i {
                        assert(new_renamings[k] == renamings[k]);
                        if y != automaton.initial_state.0 as int {
                            assert(start <= mapping@[y]);
                        }
                    } else {
                        assert(new_renamings[k] == renamings[k]);
                        assert(new_renamings[l] == renamings[l]);
                    }
                }
                assert forall|mv: (int, T, int)|
                    move_set(transitions@).contains(mv) <==> merged_moves(inputs, new_renamings, i + 1).contains(mv) by {
                    if move_set(transitions@).contains(mv) {
                        if old_moves.contains(mv) {
                            let (k, mv2) = choose|k: int, mv2: (int, T, int)|
                                0 <= k < i && #[trigger] inputs[k].moves.contains(mv2) && rename_move(renamings[k], mv2) == mv;
                            assert(new_renamings[k] == renamings[k]);
                        } else {
                            let mv2 = choose|mv2: (int, T, int)|
                                #[trigger] automaton.model().moves.contains(mv2) && rename_move(mapping@, mv2) == mv;
                            assert(new_renamings[i as int] == mapping@);
                            assert(inputs[i as int].moves.contains(mv2));
                        }
                    }
                    if merged_moves(inputs, new_renamings, i + 1).contains(mv) {
                        let (k, mv2) = choose|k: int, mv2: (int, T, int)|
                            0 <= k < i + 1 && #[trigger] inputs[k].moves.contains(mv2) && rename_move(new_renamings[k], mv2) == mv;
                        if k < i {
                            assert(new_renamings[k] == renamings[k]);
                            assert(old_moves.contains(mv));
                        } else {
                            assert(renamed_moves(automaton.model(), mapping@).contains(mv));
                        }
                    }
                }
                assert(move_set(transitions@) =~= merged_moves(inputs, new_renamings, i + 1));
                assert forall|q: int|
                    state_set(final_states@).contains(q) <==> merged_finals(inputs, new_renamings, i + 1).contains(q) by {
                    if state_set(final_states@).contains(q) {
                        if old_finals.contains(q) {
                            let (k, p) = choose|k: int, p: int|
                                0 <= k < i && #[trigger] inputs[k].finals.contains(p) && renamings[k][p] == q;
                            assert(new_renamings[k] == renamings[k]);
                        } else {
                            let p = choose|p: int| #[trigger] automaton.model().finals.contains(p) && mapping@[p] == q;
                            assert(new_renamings[i as int] == mapping@);
                            assert(inputs[i as int].finals.contains(p));
                        }
                    }
                    if merged_finals(inputs, new_renamings, i + 1).contains(q) {
                        let (k, p) = choose|k: int, p: int|
                            0 <= k < i + 1 && #[trigger] inputs[k].finals.contains(p) && new_renamings[k][p] == q;
                        if k < i {
                            assert(new_renamings[k] == renamings[k]);
                            assert(old_finals.contains(q));
                        } else {
                            assert(renamed_finals(automaton.model(), mapping@).contains(q));
                        }
                    }
                }
                assert(state_set(final_states@) =~= merged_finals(inputs, new_renamings, i + 1));
                renamings = new_renamings;
            }
            i += 1;
        }
        let merged = Automaton { initial_state, final_states, transitions };
        proof {
            assert(merged.model().moves =~= merged_moves(inputs, renamings, inputs.len() as int));
            assert(merged.model().finals =~= merged_finals(inputs, renamings, inputs.len() as int));
            assert forall|k: int| 0 <= k < inputs.len() implies (#[trigger] inputs[k]).empty.is_empty() by {
                assert(inputs[k] == automatons@[k].model());
            }
            assert(is_merge(inputs, merged.model(), renamings));
        }
        merged
    }
}

} // verus!
