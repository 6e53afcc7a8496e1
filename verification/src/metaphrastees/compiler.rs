//! Conversions between the kinds of automata.
use super::em_nfa;
use super::model::{
    accepts, covers, eclose, empty_closed, is_subset_construction, lemma_subset_construction, lemma_subsets_bound,
    power_of_two, step, lemma_eclose, lemma_eclose_no_empty, lemma_renamed_accepts,
    lemma_without_empty, renamed, without_empty, Model,
};
use super::dfa;
use super::finite_automaton::FiniteAutomaton;
use super::nfa;
use super::renaming::Renaming;
use super::symbol::{copy_symbol, lawful_symbol};
use vstd::prelude::*;

verus! {

/// Builds an automaton without empty moves from one with them.
struct EmNfaToNfa<T> {
    state_count: u128,
    em_nfa_to_nfa: Renaming,
    final_states: Vec<nfa::State>,
    transitions: Vec<(nfa::State, T, nfa::State)>,
}

impl<T> EmNfaToNfa<T> {
    /// The numbering is one-to-one, and every move and final state built so far
    /// is one of `e`, renumbered.
    spec fn sound(&self, e: Model<T>) -> bool {
        let f = self.em_nfa_to_nfa@;
        &&& self.em_nfa_to_nfa.wf()
        &&& self.em_nfa_to_nfa.below(self.state_count as int)
        &&& self.state_count as int == self.em_nfa_to_nfa.pairs@.len()
        &&& forall|mv: (int, T, int)|
            #[trigger] nfa::move_set(self.transitions@).contains(mv) ==> exists|mv2: (int, T, int)|
                #[trigger] e.moves.contains(mv2) && f.contains_key(mv2.0) && f.contains_key(mv2.2) && (
                f[mv2.0],
                mv2.1,
                f[mv2.2],
            ) == mv
        &&& forall|q: int|
            #[trigger] nfa::state_set(self.final_states@).contains(q) ==> exists|p: int|
                #[trigger] e.finals.contains(p) && f.contains_key(p) && f[p] == q
    }

    /// `e`'s move, renumbered, is among the built moves.
    spec fn has_renamed_move(&self, mv: (int, T, int)) -> bool {
        let f = self.em_nfa_to_nfa@;
        &&& f.contains_key(mv.0)
        &&& f.contains_key(mv.2)
        &&& nfa::move_set(self.transitions@).contains((f[mv.0], mv.1, f[mv.2]))
    }

    /// `e`'s final state, renumbered, is among the built final states.
    spec fn has_renamed_final(&self, p: int) -> bool {
        let f = self.em_nfa_to_nfa@;
        &&& f.contains_key(p)
        &&& nfa::state_set(self.final_states@).contains(f[p])
    }
}

/// Whether `later` keeps every number of `earlier`.
spec fn grows(earlier: Map<int, int>, later: Map<int, int>) -> bool {
    forall|k: int| #[trigger] earlier.contains_key(k) ==> later.contains_key(k) && later[k] == earlier[k]
}

impl<T: PartialEq + Clone> EmNfaToNfa<T> {
    fn new(em_nfa_initial_state: em_nfa::State) -> (this: Self)
        ensures
            forall|e: Model<T>| #[trigger] this.sound(e),
            this.em_nfa_to_nfa@ == map![em_nfa_initial_state.0 as int => 0int],
    {
        let this = EmNfaToNfa {
            state_count: 1,
            em_nfa_to_nfa: Renaming::single(em_nfa_initial_state.0, 0),
            final_states: Vec::new(),
            transitions: Vec::new(),
        };
        this
    }

    /// The new state standing for `em_nfa`.
    fn em_nfa_to_nfa(&mut self, em_nfa: em_nfa::State, Ghost(e): Ghost<Model<T>>) -> (state: nfa::State)
        requires
            old(self).sound(e),
        ensures
            final(self).sound(e),
            final(self).em_nfa_to_nfa@.contains_key(em_nfa.0 as int),
            final(self).em_nfa_to_nfa@[em_nfa.0 as int] == state.0,
            grows(old(self).em_nfa_to_nfa@, final(self).em_nfa_to_nfa@),
            final(self).transitions == old(self).transitions,
            final(self).final_states == old(self).final_states,
    {
        let ghost before = self.em_nfa_to_nfa@;
        let bound = self.em_nfa_to_nfa.pairs.len();
        let new = self.em_nfa_to_nfa.rename(em_nfa.0, &mut self.state_count);
        proof {
            let f = self.em_nfa_to_nfa@;
            assert forall|mv: (int, T, int)|
                #[trigger] nfa::move_set(self.transitions@).contains(mv) implies exists|mv2: (int, T, int)|
                    #[trigger] e.moves.contains(mv2) && f.contains_key(mv2.0) && f.contains_key(mv2.2) && (
                    f[mv2.0],
                    mv2.1,
                    f[mv2.2],
                ) == mv by {
                let mv2 = choose|mv2: (int, T, int)|
                    #[trigger] e.moves.contains(mv2) && before.contains_key(mv2.0) && before.contains_key(mv2.2)
                        && (before[mv2.0], mv2.1, before[mv2.2]) == mv;
            }
            assert forall|q: int| #[trigger] nfa::state_set(self.final_states@).contains(q) implies exists|p: int|
                #[trigger] e.finals.contains(p) && f.contains_key(p) && f[p] == q by {
                let p = choose|p: int| #[trigger] e.finals.contains(p) && before.contains_key(p) && before[p] == q;
            }
        }
        nfa::State(new)
    }
}

/// A state without an entry in the transitions has no moves, and its closure is itself.
proof fn lemma_no_entry<T>(input: em_nfa::Automaton<T>, p: int)
    requires
        forall|i: int| 0 <= i < input.transitions@.len() ==> (#[trigger] input.transitions@[i]).0.0 != p,
    ensures
        eclose(input.model(), set![p]) == set![p],
        forall|t: T, q: int| !input.model().moves.contains((p, t, q)),
{
    let m = input.model();
    lemma_eclose(m, set![p]);
    assert forall|x: int, q: int| set![p].contains(x) && #[trigger] m.empty.contains((x, q)) implies set![p].contains(q) by {
        let (i, j) = choose|i: int, j: int|
            0 <= i < input.transitions@.len() && 0 <= j < input.transitions@[i].1.empty@.len()
                && input.transitions@[i].0.0 == x && (#[trigger] input.transitions@[i].1.empty@[j]).0 == q;
        assert(input.transitions@[i].0.0 != p);
    }
    assert(empty_closed(m, set![p]));
    assert(eclose(m, set![p]).subset_of(set![p]));
    assert(eclose(m, set![p]) =~= set![p]);
    assert forall|t: T, q: int| !m.moves.contains((p, t, q)) by {
        if m.moves.contains((p, t, q)) {
            let (i, j) = choose|i: int, j: int|
                0 <= i < input.transitions@.len() && 0 <= j < input.transitions@[i].1.symbols@.len()
                    && input.transitions@[i].0.0 == p && (#[trigger] input.transitions@[i].1.symbols@[j]).0 == t
                    && input.transitions@[i].1.symbols@[j].1.0 == q;
            assert(input.transitions@[i].0.0 != p);
        }
    }
}

impl<T: PartialEq + Clone> EmNfaToNfa<T> {
    /// Gives the state numbered `new_current`, which stands for `current`, the
    /// moves of `r`, a state of the closure of `current`.
    fn process_em_nfa_symbol_transition_entry(
        &mut self,
        input: &em_nfa::Automaton<T>,
        new_current: nfa::State,
        current: em_nfa::State,
        r: em_nfa::State,
        Ghost(e): Ghost<Model<T>>,
    )
        requires
            lawful_symbol::<T>(),
            e == without_empty(input.model()),
            old(self).sound(e),
            old(self).em_nfa_to_nfa@.contains_key(current.0 as int),
            old(self).em_nfa_to_nfa@[current.0 as int] == new_current.0,
            eclose(input.model(), set![current.0 as int]).contains(r.0 as int),
        ensures
            final(self).sound(e),
            grows(old(self).em_nfa_to_nfa@, final(self).em_nfa_to_nfa@),
            final(self).final_states == old(self).final_states,
            nfa::move_set(old(self).transitions@).subset_of(nfa::move_set(final(self).transitions@)),
            forall|t: T, q: int|
                em_nfa::has_move(input.transitions@, r.0 as int, t, q) ==> #[trigger] final(self).has_renamed_move(
                    (current.0 as int, t, q),
                ),
    {
        let ghost m = input.model();
        let ghost start = *self;
        let mut k: usize = 0;
        while k < input.transitions.len()
            invariant
                lawful_symbol::<T>(),
                k <= input.transitions.len(),
                m == input.model(),
                e == without_empty(m),
                self.sound(e),
                self.em_nfa_to_nfa@.contains_key(current.0 as int),
                self.em_nfa_to_nfa@[current.0 as int] == new_current.0,
                eclose(m, set![current.0 as int]).contains(r.0 as int),
                grows(start.em_nfa_to_nfa@, self.em_nfa_to_nfa@),
                self.final_states == start.final_states,
                nfa::move_set(start.transitions@).subset_of(nfa::move_set(self.transitions@)),
                forall|k2: int, j2: int|
                    0 <= k2 < k && 0 <= j2 < input.transitions@[k2].1.symbols@.len() && input.transitions@[k2].0.0
                        == r.0 ==> self.has_renamed_move(
                        (
                            current.0 as int,
                            (#[trigger] input.transitions@[k2].1.symbols@[j2]).0,
                            input.transitions@[k2].1.symbols@[j2].1.0 as int,
                        ),
                    ),
            decreases input.transitions.len() - k,
        {
            if input.transitions[k].0.0 == r.0 {
                let symbols = &input.transitions[k].1.symbols;
                let mut j: usize = 0;
                while j < symbols.len()
                    invariant
                        lawful_symbol::<T>(),
                        k < input.transitions.len(),
                        symbols == &input.transitions@[k as int].1.symbols,
                        input.transitions@[k as int].0.0 == r.0,
                        j <= symbols.len(),
                        m == input.model(),
                        e == without_empty(m),
                        self.sound(e),
                        self.em_nfa_to_nfa@.contains_key(current.0 as int),
                        self.em_nfa_to_nfa@[current.0 as int] == new_current.0,
                        eclose(m, set![current.0 as int]).contains(r.0 as int),
                        grows(start.em_nfa_to_nfa@, self.em_nfa_to_nfa@),
                        self.final_states == start.final_states,
                        nfa::move_set(start.transitions@).subset_of(nfa::move_set(self.transitions@)),
                        forall|k2: int, j2: int|
                            0 <= k2 < k && 0 <= j2 < input.transitions@[k2].1.symbols@.len()
                                && input.transitions@[k2].0.0 == r.0 ==> self.has_renamed_move(
                                (
                                    current.0 as int,
                                    (#[trigger] input.transitions@[k2].1.symbols@[j2]).0,
                                    input.transitions@[k2].1.symbols@[j2].1.0 as int,
                                ),
                            ),
                        forall|j2: int|
                            0 <= j2 < j ==> self.has_renamed_move(
                                (current.0 as int, (#[trigger] symbols@[j2]).0, symbols@[j2].1.0 as int),
                            ),
                    decreases symbols.len() - j,
                {
                    let ghost f0 = self.em_nfa_to_nfa@;
                    let ghost t0 = self.transitions@;
                    let new_next = self.em_nfa_to_nfa(symbols[j].1, Ghost(e));
                    let ghost f1 = self.em_nfa_to_nfa@;
                    let ghost t = symbols@[j as int].0;
                    let ghost q = symbols@[j as int].1.0 as int;
                    self.transitions.push((new_current, copy_symbol(&symbols[j].0), new_next));
                    proof {
                        let c = current.0 as int;
                        assert(em_nfa::has_move(input.transitions@, r.0 as int, t, q));
                        assert(m.moves.contains((r.0 as int, t, q)));
                        let mv = (c, t, q);
                        assert(eclose(m, set![mv.0]).contains(r.0 as int) && m.moves.contains((r.0 as int, mv.1, mv.2)));
                        assert(e.moves.contains(mv));
                        let added = (f1[c], t, f1[q]);
                        assert(nfa::move_of(self.transitions@[self.transitions@.len() - 1]) == added);
                        assert forall|mv: (int, T, int)| nfa::move_set(t0).contains(mv) implies nfa::move_set(self.transitions@).contains(mv) by {
                            let i = choose|i: int| 0 <= i < t0.len() && nfa::move_of(#[trigger] t0[i]) == mv;
                            assert(self.transitions@[i] == t0[i]);
                        }
                        assert(nfa::move_set(self.transitions@).contains(added));
                        let f = self.em_nfa_to_nfa@;
                        assert forall|mv: (int, T, int)|
                            #[trigger] nfa::move_set(self.transitions@).contains(mv) implies exists|mv2: (int, T, int)|
                                #[trigger] e.moves.contains(mv2) && f.contains_key(mv2.0) && f.contains_key(mv2.2) && (
                                f[mv2.0],
                                mv2.1,
                                f[mv2.2],
                            ) == mv by {
                            let i = choose|i: int|
                                0 <= i < self.transitions@.len() && nfa::move_of(#[trigger] self.transitions@[i]) == mv;
                            if i < t0.len() {
                                assert(self.transitions@[i] == t0[i]);
                                assert(nfa::move_set(t0).contains(mv));
                                let mv2 = choose|mv2: (int, T, int)|
                                    #[trigger] e.moves.contains(mv2) && f1.contains_key(mv2.0) && f1.contains_key(mv2.2)
                                        && (f1[mv2.0], mv2.1, f1[mv2.2]) == mv;
                            } else {
                                assert(mv == added);
                                assert(e.moves.contains((c, t, q)));
                            }
                        }
                    }
                    j += 1;
                }
            }
            k += 1;
        }
        proof {
            assert forall|t: T, q: int|
                em_nfa::has_move(input.transitions@, r.0 as int, t, q) implies #[trigger] self.has_renamed_move(
                (current.0 as int, t, q),
            ) by {
                let (i, j) = choose|i: int, j: int|
                    0 <= i < input.transitions@.len() && 0 <= j < input.transitions@[i].1.symbols@.len()
                        && input.transitions@[i].0.0 == r.0 as int && (#[trigger] input.transitions@[i].1.symbols@[j]).0 == t
                        && input.transitions@[i].1.symbols@[j].1.0 == q;
                assert(self.has_renamed_move(
                    (
                        current.0 as int,
                        input.transitions@[i].1.symbols@[j].0,
                        input.transitions@[i].1.symbols@[j].1.0 as int,
                    ),
                ));
            }
        }
    }
}

impl<T: PartialEq + Clone> EmNfaToNfa<T> {
    /// Gives the state standing for `current` the moves of every state of its
    /// closure, and makes it final when its closure holds a final state.
    fn process_em_nfa_em_transition_entry(
        &mut self,
        input: &em_nfa::Automaton<T>,
        current: em_nfa::State,
        Ghost(e): Ghost<Model<T>>,
    )
        requires
            lawful_symbol::<T>(),
            e == without_empty(input.model()),
            old(self).sound(e),
        ensures
            final(self).sound(e),
            grows(old(self).em_nfa_to_nfa@, final(self).em_nfa_to_nfa@),
            nfa::move_set(old(self).transitions@).subset_of(nfa::move_set(final(self).transitions@)),
            nfa::state_set(old(self).final_states@).subset_of(nfa::state_set(final(self).final_states@)),
            final(self).em_nfa_to_nfa@.contains_key(current.0 as int),
            forall|mv: (int, T, int)| #[trigger] e.moves.contains(mv) && mv.0 == current.0 ==> final(self).has_renamed_move(mv),
            e.finals.contains(current.0 as int) ==> final(self).has_renamed_final(current.0 as int),
    {
        let ghost m = input.model();
        let ghost start = *self;
        let new_current = self.em_nfa_to_nfa(current, Ghost(e));
        let mut closure = vec![current];
        proof {
            assert(em_nfa::distinct(closure@));
            assert(em_nfa::state_set(closure@) =~= set![current.0 as int]) by {
                assert(closure@[0] == current);
            }
        }
        em_nfa::close_empty(input, &mut closure);
        let ghost c = current.0 as int;
        let mut i: usize = 0;
        while i < closure.len()
            invariant
                lawful_symbol::<T>(),
                i <= closure.len(),
                m == input.model(),
                e == without_empty(m),
                c == current.0 as int,
                em_nfa::state_set(closure@) == eclose(m, set![c]),
                self.sound(e),
                self.em_nfa_to_nfa@.contains_key(c),
                self.em_nfa_to_nfa@[c] == new_current.0,
                grows(start.em_nfa_to_nfa@, self.em_nfa_to_nfa@),
                self.final_states == start.final_states,
                nfa::move_set(start.transitions@).subset_of(nfa::move_set(self.transitions@)),
                forall|i2: int, t: T, q: int|
                    0 <= i2 < i && #[trigger] em_nfa::has_move(input.transitions@, closure@[i2].0 as int, t, q)
                        ==> self.has_renamed_move((c, t, q)),
            decreases closure.len() - i,
        {
            proof {
                assert(em_nfa::state_set(closure@).contains(closure@[i as int].0 as int));
            }
            let ghost before = *self;
            self.process_em_nfa_symbol_transition_entry(input, new_current, current, closure[i], Ghost(e));
            proof {
                assert forall|i2: int, t: T, q: int|
                    0 <= i2 < i + 1 && #[trigger] em_nfa::has_move(input.transitions@, closure@[i2].0 as int, t, q)
                        implies self.has_renamed_move((c, t, q)) by {
                    if i2 < i {
                        assert(before.has_renamed_move((c, t, q)));
                        let f0 = before.em_nfa_to_nfa@;
                        assert(nfa::move_set(before.transitions@).contains((f0[c], t, f0[q])));
                    }
                }
            }
            i += 1;
        }
        let ghost after_moves = *self;
        let mut j: usize = 0;
        while j < closure.len()
            invariant
                j <= closure.len(),
                self.em_nfa_to_nfa == after_moves.em_nfa_to_nfa,
                self.transitions == after_moves.transitions,
                grows(start.em_nfa_to_nfa@, self.em_nfa_to_nfa@),
                nfa::move_set(start.transitions@).subset_of(nfa::move_set(self.transitions@)),
                forall|i2: int, t: T, q: int|
                    0 <= i2 < closure@.len() && #[trigger] em_nfa::has_move(input.transitions@, closure@[i2].0 as int, t, q)
                        ==> after_moves.has_renamed_move((c, t, q)),
                m == input.model(),
                e == without_empty(m),
                c == current.0 as int,
                em_nfa::state_set(closure@) == eclose(m, set![c]),
                self.sound(e),
                self.em_nfa_to_nfa@.contains_key(c),
                self.em_nfa_to_nfa@[c] == new_current.0,
                nfa::state_set(start.final_states@).subset_of(nfa::state_set(self.final_states@)),
                forall|j2: int|
                    0 <= j2 < j && em_nfa::state_set(input.final_states@).contains((#[trigger] closure@[j2]).0 as int)
                        ==> nfa::state_set(self.final_states@).contains(new_current.0 as int),
            decreases closure.len() - j,
        {
            if em_nfa::contains_state(&input.final_states, closure[j]) {
                proof {
                    let r = closure@[j as int].0 as int;
                    assert(em_nfa::state_set(closure@).contains(r));
                    assert(eclose(m, set![c]).contains(r) && m.finals.contains(r));
                    assert(e.finals.contains(c));
                }
                let ghost f = self.em_nfa_to_nfa@;
                nfa::insert_state(&mut self.final_states, new_current);
                proof {
                    assert forall|q: int| #[trigger] nfa::state_set(self.final_states@).contains(q) implies exists|p: int|
                        #[trigger] e.finals.contains(p) && f.contains_key(p) && f[p] == q by {
                        if q != new_current.0 as int {
                            assert(nfa::state_set(old(self).final_states@).contains(q) || true);
                        }
                    }
                }
            }
            j += 1;
        }
        proof {
            let f = self.em_nfa_to_nfa@;
            assert forall|mv: (int, T, int)| #[trigger] e.moves.contains(mv) && mv.0 == c implies self.has_renamed_move(mv) by {
                let x = choose|x: int| #[trigger] eclose(m, set![mv.0]).contains(x) && m.moves.contains((x, mv.1, mv.2));
                let i2 = choose|i2: int| 0 <= i2 < closure@.len() && (#[trigger] closure@[i2]).0 == x;
                assert(em_nfa::has_move(input.transitions@, closure@[i2].0 as int, mv.1, mv.2));
                assert(after_moves.has_renamed_move((c, mv.1, mv.2)));
            }
            if e.finals.contains(c) {
                let x = choose|x: int| #[trigger] eclose(m, set![c]).contains(x) && m.finals.contains(x);
                let j2 = choose|j2: int| 0 <= j2 < closure@.len() && (#[trigger] closure@[j2]).0 == x;
                assert(em_nfa::state_set(input.final_states@).contains(closure@[j2].0 as int));
            }
        }
    }
}

impl<T: PartialEq + Clone> EmNfaToNfa<T> {
    /// Handles every state with an entry in `input`'s transitions.
    fn process_em_nfa_transitions(&mut self, input: &em_nfa::Automaton<T>, Ghost(e): Ghost<Model<T>>)
        requires
            lawful_symbol::<T>(),
            e == without_empty(input.model()),
            old(self).sound(e),
        ensures
            final(self).sound(e),
            grows(old(self).em_nfa_to_nfa@, final(self).em_nfa_to_nfa@),
            nfa::state_set(old(self).final_states@).subset_of(nfa::state_set(final(self).final_states@)),
            forall|i: int, mv: (int, T, int)|
                0 <= i < input.transitions@.len() && #[trigger] e.moves.contains(mv) && mv.0
                    == (#[trigger] input.transitions@[i]).0.0 ==> final(self).has_renamed_move(mv),
            forall|i: int|
                0 <= i < input.transitions@.len() ==> final(self).em_nfa_to_nfa@.contains_key((#[trigger] input.transitions@[i]).0.0 as int),
            forall|i: int|
                0 <= i < input.transitions@.len() && e.finals.contains((#[trigger] input.transitions@[i]).0.0 as int)
                    ==> final(self).has_renamed_final(input.transitions@[i].0.0 as int),
    {
        let ghost start = *self;
        let mut i: usize = 0;
        while i < input.transitions.len()
            invariant
                lawful_symbol::<T>(),
                i <= input.transitions.len(),
                e == without_empty(input.model()),
                self.sound(e),
                grows(start.em_nfa_to_nfa@, self.em_nfa_to_nfa@),
                nfa::state_set(start.final_states@).subset_of(nfa::state_set(self.final_states@)),
                forall|i2: int, mv: (int, T, int)|
                    0 <= i2 < i && #[trigger] e.moves.contains(mv) && mv.0 == (#[trigger] input.transitions@[i2]).0.0
                        ==> self.has_renamed_move(mv),
                forall|i2: int|
                    0 <= i2 < i ==> self.em_nfa_to_nfa@.contains_key((#[trigger] input.transitions@[i2]).0.0 as int),
                forall|i2: int|
                    0 <= i2 < i && e.finals.contains((#[trigger] input.transitions@[i2]).0.0 as int)
                        ==> self.has_renamed_final(input.transitions@[i2].0.0 as int),
            decreases input.transitions.len() - i,
        {
            let ghost before = *self;
            self.process_em_nfa_em_transition_entry(input, input.transitions[i].0, Ghost(e));
            proof {
                let f0 = before.em_nfa_to_nfa@;
                let f1 = self.em_nfa_to_nfa@;
                assert forall|i2: int, mv: (int, T, int)|
                    0 <= i2 < i + 1 && #[trigger] e.moves.contains(mv) && mv.0 == (#[trigger] input.transitions@[i2]).0.0
                        implies self.has_renamed_move(mv) by {
                    if i2 < i {
                        assert(before.has_renamed_move(mv));
                        assert(nfa::move_set(before.transitions@).contains((f0[mv.0], mv.1, f0[mv.2])));
                    }
                }
                assert forall|i2: int|
                    0 <= i2 < i + 1 && e.finals.contains((#[trigger] input.transitions@[i2]).0.0 as int)
                        implies self.has_renamed_final(input.transitions@[i2].0.0 as int) by {
                    if i2 < i {
                        assert(before.has_renamed_final(input.transitions@[i2].0.0 as int));
                    }
                }
            }
            i += 1;
        }
    }

    /// Makes the state standing for each final state of `input` final.
    fn process_em_nfa_final_states(&mut self, final_states: &Vec<em_nfa::State>, Ghost(e): Ghost<Model<T>>)
        requires
            old(self).sound(e),
            forall|i: int| 0 <= i < final_states@.len() ==> e.finals.contains((#[trigger] final_states@[i]).0 as int),
        ensures
            final(self).sound(e),
            grows(old(self).em_nfa_to_nfa@, final(self).em_nfa_to_nfa@),
            final(self).transitions == old(self).transitions,
            nfa::state_set(old(self).final_states@).subset_of(nfa::state_set(final(self).final_states@)),
            forall|i: int| 0 <= i < final_states@.len() ==> final(self).has_renamed_final((#[trigger] final_states@[i]).0 as int),
    {
        let ghost start = *self;
        let mut i: usize = 0;
        while i < final_states.len()
            invariant
                i <= final_states.len(),
                forall|i2: int| 0 <= i2 < final_states@.len() ==> e.finals.contains((#[trigger] final_states@[i2]).0 as int),
                self.sound(e),
                grows(start.em_nfa_to_nfa@, self.em_nfa_to_nfa@),
                self.transitions == start.transitions,
                nfa::state_set(start.final_states@).subset_of(nfa::state_set(self.final_states@)),
                forall|i2: int| 0 <= i2 < i ==> self.has_renamed_final((#[trigger] final_states@[i2]).0 as int),
            decreases final_states.len() - i,
        {
            let ghost before = *self;
            let new_final_state = self.em_nfa_to_nfa(final_states[i], Ghost(e));
            let ghost f = self.em_nfa_to_nfa@;
            nfa::insert_state(&mut self.final_states, new_final_state);
            proof {
                assert forall|q: int| #[trigger] nfa::state_set(self.final_states@).contains(q) implies exists|p: int|
                    #[trigger] e.finals.contains(p) && f.contains_key(p) && f[p] == q by {
                    if q == new_final_state.0 as int {
                        assert(e.finals.contains(final_states@[i as int].0 as int));
                    }
                }
                assert forall|i2: int| 0 <= i2 < i + 1 implies self.has_renamed_final((#[trigger] final_states@[i2]).0 as int) by {
                    if i2 < i {
                        assert(before.has_renamed_final(final_states@[i2].0 as int));
                    }
                }
            }
            i += 1;
        }
    }

    /// The automaton built, with `em_nfa_initial_state` standing for its initial state.
    fn nfa_automaton(self, em_nfa_initial_state: em_nfa::State, Ghost(e): Ghost<Model<T>>) -> (automaton: nfa::Automaton<T>)
        requires
            self.sound(e),
            self.em_nfa_to_nfa@.contains_key(em_nfa_initial_state.0 as int),
        ensures
            automaton.initial_state.0 == self.em_nfa_to_nfa@[em_nfa_initial_state.0 as int],
            automaton.transitions == self.transitions,
            automaton.final_states == self.final_states,
    {
        let mut this = self;
        let initial_state = this.em_nfa_to_nfa(em_nfa_initial_state, Ghost(e));
        nfa::Automaton { initial_state, final_states: this.final_states, transitions: this.transitions }
    }
}

/// An automaton without empty moves that accepts what `input` accepts: each
/// state moves wherever the states of its closure move, and is final when its
/// closure holds a final state. The initial state becomes state 0 and the other
/// states are renumbered.
pub fn em_nfa_to_nfa<T: PartialEq + Clone>(input: &em_nfa::Automaton<T>) -> (output: nfa::Automaton<T>)
    requires
        lawful_symbol::<T>(),
    ensures
        output.initial_state == nfa::State(0),
        exists|f: Map<int, int>|
            f.is_injective() && covers(f, without_empty(input.model())) && output.model() == renamed(
                without_empty(input.model()),
                f,
            ),
        forall|w: Seq<T>| #[trigger] accepts(output.model(), w) == accepts(input.model(), w),
{
    let ghost m = input.model();
    let ghost e = without_empty(m);
    let mut compiler = EmNfaToNfa::new(input.initial_state);
    proof {
        assert(compiler.sound(e));
    }
    let ghost init = input.initial_state.0 as int;
    let ghost f0 = compiler.em_nfa_to_nfa@;
    assert(f0.contains_key(init) && f0[init] == 0);
    compiler.process_em_nfa_transitions(input, Ghost(e));
    let ghost f1 = compiler.em_nfa_to_nfa@;
    assert(f1.contains_key(init) && f1[init] == 0);
    proof {
        assert forall|i: int| 0 <= i < input.final_states@.len() implies e.finals.contains((#[trigger] input.final_states@[i]).0 as int) by {
            let p = input.final_states@[i].0 as int;
            lemma_eclose(m, set![p]);
            assert(eclose(m, set![p]).contains(p) && m.finals.contains(p));
        }
    }
    compiler.process_em_nfa_final_states(&input.final_states, Ghost(e));
    let ghost f = compiler.em_nfa_to_nfa@;
    let ghost done = compiler;
    proof {
        assert(f.contains_key(init) && f[init] == 0);
    }
    let output = compiler.nfa_automaton(input.initial_state, Ghost(e));
    proof {
        done.em_nfa_to_nfa.lemma_injective(done.state_count as int);
        let r = renamed(e, f);
        let has_entry = |p: int| exists|i: int| 0 <= i < input.transitions@.len() && (#[trigger] input.transitions@[i]).0.0 == p;
        assert forall|mv: (int, T, int)| #[trigger] e.moves.contains(mv) implies done.has_renamed_move(mv) by {
            if !has_entry(mv.0) {
                lemma_no_entry(*input, mv.0);
                let x = choose|x: int| #[trigger] eclose(m, set![mv.0]).contains(x) && m.moves.contains((x, mv.1, mv.2));
                assert(x == mv.0);
            } else {
                let i = choose|i: int| 0 <= i < input.transitions@.len() && (#[trigger] input.transitions@[i]).0.0 == mv.0;
            }
        }
        assert forall|p: int| #[trigger] e.finals.contains(p) implies done.has_renamed_final(p) by {
            if !has_entry(p) {
                lemma_no_entry(*input, p);
                let x = choose|x: int| #[trigger] eclose(m, set![p]).contains(x) && m.finals.contains(x);
                assert(x == p);
                let k = choose|k: int| 0 <= k < input.final_states@.len() && (#[trigger] input.final_states@[k]).0 == p;
                assert(done.has_renamed_final(input.final_states@[k].0 as int));
            } else {
                let i = choose|i: int| 0 <= i < input.transitions@.len() && (#[trigger] input.transitions@[i]).0.0 == p;
            }
        }
        assert forall|mv: (int, T, int)| output.model().moves.contains(mv) <==> r.moves.contains(mv) by {
            if output.model().moves.contains(mv) {
                let mv2 = choose|mv2: (int, T, int)|
                    #[trigger] e.moves.contains(mv2) && f.contains_key(mv2.0) && f.contains_key(mv2.2) && (f[mv2.0], mv2.1, f[mv2.2]) == mv;
            }
            if r.moves.contains(mv) {
                let mv2 = choose|mv2: (int, T, int)| #[trigger] e.moves.contains(mv2) && (f[mv2.0], mv2.1, f[mv2.2]) == mv;
                assert(done.has_renamed_move(mv2));
            }
        }
        assert forall|q: int| output.model().finals.contains(q) <==> r.finals.contains(q) by {
            if output.model().finals.contains(q) {
                let p = choose|p: int| #[trigger] e.finals.contains(p) && f.contains_key(p) && f[p] == q;
            }
            if r.finals.contains(q) {
                let p = choose|p: int| #[trigger] e.finals.contains(p) && f[p] == q;
                assert(done.has_renamed_final(p));
            }
        }
        assert(output.model().moves =~= r.moves);
        assert(output.model().finals =~= r.finals);
        assert(output.model().empty =~= r.empty);
        assert(output.model() == r);
        assert forall|mv: (int, T, int)| #[trigger] e.moves.contains(mv) implies f.contains_key(mv.0) && f.contains_key(mv.2) by {
            assert(done.has_renamed_move(mv));
        }
        assert forall|p: int| #[trigger] e.finals.contains(p) implies f.contains_key(p) by {
            assert(done.has_renamed_final(p));
        }
        assert(covers(f, e));
        assert forall|w: Seq<T>| #[trigger] accepts(output.model(), w) == accepts(m, w) by {
            lemma_renamed_accepts(e, f, w);
            lemma_without_empty(m, w);
        }
    }
    output
}

/// The same automaton, written as one with empty moves (it has none).
pub fn nfa_to_em_nfa<T: PartialEq + Clone>(input: &nfa::Automaton<T>) -> (output: em_nfa::Automaton<T>)
    requires
        lawful_symbol::<T>(),
    ensures
        output.model() == input.model(),
        forall|w: Seq<T>| #[trigger] accepts(output.model(), w) == accepts(input.model(), w),
{
    let mut final_states: Vec<em_nfa::State> = Vec::new();
    let mut i: usize = 0;
    while i < input.final_states.len()
        invariant
            i <= input.final_states.len(),
            final_states@.len() == i,
            forall|k: int| 0 <= k < i ==> (#[trigger] final_states@[k]).0 == input.final_states@[k].0,
        decreases input.final_states.len() - i,
    {
        final_states.push(em_nfa::State(input.final_states[i].0));
        i += 1;
    }
    let mut transitions: Vec<(em_nfa::State, em_nfa::TransitionOutput<T>)> = Vec::new();
    let mut j: usize = 0;
    while j < input.transitions.len()
        invariant
            lawful_symbol::<T>(),
            j <= input.transitions.len(),
            transitions@.len() == j,
            forall|k: int|
                0 <= k < j ==> {
                    &&& (#[trigger] transitions@[k]).0.0 == input.transitions@[k].0.0
                    &&& transitions@[k].1.empty@.len() == 0
                    &&& transitions@[k].1.symbols@.len() == 1
                    &&& transitions@[k].1.symbols@[0].0 == input.transitions@[k].1
                    &&& transitions@[k].1.symbols@[0].1.0 == input.transitions@[k].2.0
                },
        decreases input.transitions.len() - j,
    {
        let transition = &input.transitions[j];
        let output = em_nfa::TransitionOutput {
            empty: Vec::new(),
            symbols: vec![(copy_symbol(&transition.1), em_nfa::State(transition.2.0))],
        };
        transitions.push((em_nfa::State(transition.0.0), output));
        j += 1;
    }
    let output = em_nfa::Automaton {
        initial_state: em_nfa::State(input.initial_state.0),
        final_states,
        transitions,
    };
    proof {
        let a = output.model();
        let b = input.model();
        assert forall|q: int| a.finals.contains(q) <==> b.finals.contains(q) by {
            if a.finals.contains(q) {
                let k = choose|k: int| 0 <= k < output.final_states@.len() && (#[trigger] output.final_states@[k]).0 == q;
                assert(input.final_states@[k].0 == q);
            }
            if b.finals.contains(q) {
                let k = choose|k: int| 0 <= k < input.final_states@.len() && (#[trigger] input.final_states@[k]).0 == q;
                assert(output.final_states@[k].0 == q);
            }
        }
        assert forall|mv: (int, T, int)| a.moves.contains(mv) <==> b.moves.contains(mv) by {
            if a.moves.contains(mv) {
                let (k, l) = choose|k: int, l: int|
                    0 <= k < output.transitions@.len() && 0 <= l < output.transitions@[k].1.symbols@.len()
                        && output.transitions@[k].0.0 == mv.0 && (#[trigger] output.transitions@[k].1.symbols@[l]).0 == mv.1
                        && output.transitions@[k].1.symbols@[l].1.0 == mv.2;
                assert(nfa::move_of(input.transitions@[k]) == mv);
            }
            if b.moves.contains(mv) {
                let k = choose|k: int| 0 <= k < input.transitions@.len() && nfa::move_of(#[trigger] input.transitions@[k]) == mv;
                assert(output.transitions@[k].1.symbols@[0].0 == mv.1);
                assert(em_nfa::has_move(output.transitions@, mv.0, mv.1, mv.2));
            }
        }
        assert forall|x: (int, int)| !a.empty.contains(x) by {
            if a.empty.contains(x) {
                let (k, l) = choose|k: int, l: int|
                    0 <= k < output.transitions@.len() && 0 <= l < output.transitions@[k].1.empty@.len()
                        && output.transitions@[k].0.0 == x.0 && (#[trigger] output.transitions@[k].1.empty@[l]).0 == x.1;
            }
        }
        assert(a.finals =~= b.finals);
        assert(a.moves =~= b.moves);
        assert(a.empty =~= b.empty);
    }
    output
}

/// Whether `states` and `finals` share a state.
fn intersects(states: &Vec<nfa::State>, finals: &Vec<nfa::State>) -> (found: bool)
    ensures
        found == exists|q: int| nfa::state_set(states@).contains(q) && nfa::state_set(finals@).contains(q),
{
    let mut i: usize = 0;
    while i < states.len()
        invariant
            i <= states.len(),
            forall|k: int| 0 <= k < i ==> !nfa::state_set(finals@).contains((#[trigger] states@[k]).0 as int),
        decreases states.len() - i,
    {
        if nfa::contains_state(finals, states[i]) {
            proof {
                assert(nfa::state_set(states@).contains(states@[i as int].0 as int));
            }
            return true;
        }
        i += 1;
    }
    proof {
        assert forall|q: int| !(nfa::state_set(states@).contains(q) && nfa::state_set(finals@).contains(q)) by {
            if nfa::state_set(states@).contains(q) {
                let k = choose|k: int| 0 <= k < states@.len() && (#[trigger] states@[k]).0 == q;
            }
        }
    }
    false
}

/// Whether every state of `a` is in `b`.
fn included(a: &Vec<nfa::State>, b: &Vec<nfa::State>) -> (inside: bool)
    ensures
        inside == nfa::state_set(a@).subset_of(nfa::state_set(b@)),
{
    let mut i: usize = 0;
    while i < a.len()
        invariant
            i <= a.len(),
            forall|k: int| 0 <= k < i ==> nfa::state_set(b@).contains((#[trigger] a@[k]).0 as int),
        decreases a.len() - i,
    {
        if !nfa::contains_state(b, a[i]) {
            proof {
                assert(nfa::state_set(a@).contains(a@[i as int].0 as int));
            }
            return false;
        }
        i += 1;
    }
    proof {
        assert forall|q: int| nfa::state_set(a@).contains(q) implies nfa::state_set(b@).contains(q) by {
            let k = choose|k: int| 0 <= k < a@.len() && (#[trigger] a@[k]).0 == q;
        }
    }
    true
}

/// The sets of states listed in `subsets`.
spec fn subset_views(subsets: Seq<Vec<nfa::State>>) -> Seq<Set<int>> {
    Seq::new(subsets.len(), |k: int| nfa::state_set(subsets[k]@))
}

/// The position of a list in `subsets` holding the same states as `states`, if any.
fn find_subset(subsets: &Vec<Vec<nfa::State>>, states: &Vec<nfa::State>) -> (found: Option<usize>)
    ensures
        found matches Some(k) ==> k < subsets@.len() && subset_views(subsets@)[k as int] == nfa::state_set(states@),
        found is None ==> forall|k: int| 0 <= k < subsets@.len() ==> subset_views(subsets@)[k] != nfa::state_set(states@),
{
    let mut k: usize = 0;
    while k < subsets.len()
        invariant
            k <= subsets.len(),
            forall|l: int| 0 <= l < k ==> subset_views(subsets@)[l] != nfa::state_set(states@),
        decreases subsets.len() - k,
    {
        if included(&subsets[k], states) && included(states, &subsets[k]) {
            proof {
                assert(subset_views(subsets@)[k as int] =~= nfa::state_set(states@));
            }
            return Some(k);
        }
        k += 1;
    }
    None
}

/// The numbers of the initial state and of the targets of `a`'s transitions.
spec fn mentioned<T>(a: nfa::Automaton<T>) -> Seq<int> {
    seq![a.initial_state.0 as int] + a.transitions@.map_values(|tr: (nfa::State, T, nfa::State)| tr.2.0 as int)
}

proof fn lemma_bound_subsets(views: Seq<Set<int>>, universe: Set<int>)
    requires
        universe.finite(),
        forall|a: int, b: int| 0 <= a < b < views.len() ==> views[a] != views[b],
        forall|a: int| 0 <= a < views.len() ==> (#[trigger] views[a]).subset_of(universe),
    ensures
        views.len() <= power_of_two(universe.len()),
{
    assert(views.no_duplicates());
    views.unique_seq_to_set();
    assert forall|x: Set<int>| #[trigger] views.to_set().contains(x) implies x.subset_of(universe) by {
        let a = choose|a: int| 0 <= a < views.len() && views[a] == x;
    }
    lemma_subsets_bound(views.to_set(), universe);
}

/// The states of a builder under construction and the sets of states of the
/// automaton they stand for: the state numbered `k` stands for `lists[k]`.
struct Subsets {
    states: Vec<dfa::State>,
    lists: Vec<Vec<nfa::State>>,
}

impl Subsets {
    spec fn views(&self) -> Seq<Set<int>> {
        subset_views(self.lists@)
    }

    /// The sets are different subsets of `universe`, one for each valid state.
    spec fn wf(&self, counter: int, universe: Set<int>) -> bool {
        &&& self.lists@.len() >= 1
        &&& counter == self.lists@.len()
        &&& self.states@.len() == self.lists@.len()
        &&& forall|k: int| 0 <= k < self.states@.len() ==> (#[trigger] self.states@[k]).number() == k
        &&& forall|x: int, y: int| 0 <= x < y < self.lists@.len() ==> self.views()[x] != self.views()[y]
        &&& forall|x: int| 0 <= x < self.lists@.len() ==> (#[trigger] self.views()[x]).subset_of(universe)
    }

    /// The state standing for `next`, made when there is none yet.
    fn target<T>(&mut self, builder: &mut dfa::Builder<T>, next: Vec<nfa::State>, Ghost(universe): Ghost<Set<int>>) -> (target: dfa::State)
        requires
            old(self).wf(old(builder).counter(), universe),
            old(builder).wf(),
            nfa::state_set(next@).subset_of(universe),
        ensures
            final(self).wf(final(builder).counter(), universe),
            final(builder).wf(),
            final(builder).model() == old(builder).model(),
            final(self).views().len() >= old(self).views().len(),
            forall|k: int| 0 <= k < old(self).views().len() ==> final(self).views()[k] == old(self).views()[k],
            0 <= target.number() < final(self).views().len(),
            final(self).views()[target.number()] == nfa::state_set(next@),
    {
        match find_subset(&self.lists, &next) {
            Some(k) => self.states[k],
            None => {
                let ghost old_lists = self.lists@;
                let count = self.lists.len();
                let fresh = builder.gen_state();
                self.states.push(fresh);
                self.lists.push(next);
                proof {
                    let v = subset_views(self.lists@);
                    let ov = subset_views(old_lists);
                    assert(old(self).views() == ov);
                    assert(v[count as int] == nfa::state_set(next@));
                    assert forall|k: int| 0 <= k < old_lists.len() implies v[k] == ov[k] by {}
                    assert forall|x: int, y: int| 0 <= x < y < self.lists@.len() implies v[x] != v[y] by {
                        if y == count {
                            assert(v[x] == ov[x]);
                            assert(ov[x] != nfa::state_set(next@));
                        } else {
                            assert(v[x] == ov[x]);
                            assert(v[y] == ov[y]);
                            assert(old(self).views()[x] != old(self).views()[y]);
                        }
                    }
                    assert forall|x: int| 0 <= x < self.lists@.len() implies (#[trigger] v[x]).subset_of(universe) by {
                        if x < count {
                            assert(v[x] == ov[x]);
                            assert(old(self).views()[x].subset_of(universe));
                        }
                    }
                    assert(self.views() == v);
                    assert forall|k: int| 0 <= k < self.states@.len() implies (#[trigger] self.states@[k]).number() == k by {
                        if k < count {
                            assert(self.states@[k] == old(self).states@[k]);
                        }
                    }
                }
                fresh
            },
        }
    }
}

/// Whether the moves and final states of `d` so far follow the subset
/// construction over `views`, with the states below `done` complete.
spec fn follows<T>(m: Model<T>, d: Model<T>, views: Seq<Set<int>>, done: int, current: int) -> bool {
    &&& forall|x: int, t: T, b: int|
        #[trigger] d.moves.contains((x, t, b)) ==> 0 <= x <= current && 0 <= b < views.len() && views[b] == step(m, views[x], t)
    &&& forall|x: int, t: T|
        0 <= x < done && !(#[trigger] step(m, views[x], t)).is_empty() ==> exists|b: int| #[trigger] d.moves.contains((x, t, b))
    &&& forall|x: int|
        #[trigger] d.finals.contains(x) <==> 0 <= x <= current && x < views.len() && exists|q: int|
            #[trigger] views[x].contains(q) && m.finals.contains(q)
}

proof fn lemma_follows_grow<T>(m: Model<T>, d: Model<T>, old_views: Seq<Set<int>>, views: Seq<Set<int>>, done: int, current: int)
    requires
        follows(m, d, old_views, done, current),
        views.len() >= old_views.len(),
        0 <= current < old_views.len(),
        done <= current + 1,
        forall|k: int| 0 <= k < old_views.len() ==> views[k] == old_views[k],
    ensures
        follows(m, d, views, done, current),
{
    assert forall|x: int, t: T, b: int| #[trigger] d.moves.contains((x, t, b)) implies 0 <= x <= current && 0 <= b < views.len()
        && views[b] == step(m, views[x], t) by {
        assert(views[b] == old_views[b]);
        assert(views[x] == old_views[x]);
    }
    assert forall|x: int, t: T| 0 <= x < done && !(#[trigger] step(m, views[x], t)).is_empty() implies exists|b: int|
        #[trigger] d.moves.contains((x, t, b)) by {
        assert(views[x] == old_views[x]);
    }
    assert forall|x: int| #[trigger] d.finals.contains(x) <==> 0 <= x <= current && x < views.len() && exists|q: int|
        #[trigger] views[x].contains(q) && m.finals.contains(q) by {
        if 0 <= x <= current {
            assert(views[x] == old_views[x]);
        }
    }
}

/// Gives state `a` its transition on the symbol of the `i`-th transition of
/// `input`, when that transition leaves a state of `a`'s set and `a` has no
/// transition on that symbol yet.
fn follow_transition<T: PartialEq + Clone>(
    input: &nfa::Automaton<T>,
    builder: &mut dfa::Builder<T>,
    subsets: &mut Subsets,
    a: usize,
    i: usize,
    Ghost(universe): Ghost<Set<int>>,
)
    requires
        lawful_symbol::<T>(),
        universe == mentioned(*input).to_set(),
        old(subsets).wf(old(builder).counter(), universe),
        old(builder).wf(),
        a < old(subsets).views().len(),
        i < input.transitions@.len(),
        follows(input.model(), old(builder).model(), old(subsets).views(), a as int, a as int),
    ensures
        final(subsets).wf(final(builder).counter(), universe),
        final(builder).wf(),
        follows(input.model(), final(builder).model(), final(subsets).views(), a as int, a as int),
        final(subsets).views().len() >= old(subsets).views().len(),
        forall|k: int| 0 <= k < old(subsets).views().len() ==> final(subsets).views()[k] == old(subsets).views()[k],
        old(builder).model().moves.subset_of(final(builder).model().moves),
        final(subsets).views()[a as int].contains(input.transitions@[i as int].0.0 as int) ==> exists|b: int|
            #[trigger] final(builder).model().moves.contains((a as int, input.transitions@[i as int].1, b)),
{
    let ghost m = input.model();
    let transition = &input.transitions[i];
    proof {
        assert(subsets.views()[a as int] == nfa::state_set(subsets.lists@[a as int]@));
    }
    if !nfa::contains_state(&subsets.lists[a], transition.0) {
        return;
    }
    let current = subsets.states[a];
    let existing = builder.get_transition(current, &transition.1);
    if existing.is_ok() {
        return;
    }
    let next = nfa::step_states(input, &subsets.lists[a], &transition.1);
    proof {
        assert(nfa::state_set(next@) == step(m, subsets.views()[a as int], transition.1));
        assert forall|q: int| nfa::state_set(next@).contains(q) implies universe.contains(q) by {
            let p = choose|p: int| subsets.views()[a as int].contains(p) && #[trigger] m.moves.contains((p, transition.1, q));
            let k = choose|k: int| 0 <= k < input.transitions@.len() && nfa::move_of(#[trigger] input.transitions@[k]) == (p, transition.1, q);
            assert(mentioned(*input)[k + 1] == q);
        }
    }
    let ghost old_views = subsets.views();
    let ghost next_view = nfa::state_set(next@);
    let target = subsets.target(builder, next, Ghost(universe));
    proof {
        lemma_follows_grow(m, builder.model(), old_views, subsets.views(), a as int, a as int);
        builder.lemma_model();
    }
    let ghost before = builder.model();
    builder.transition(current, copy_symbol(&transition.1), target);
    proof {
        builder.lemma_model();
        let d = builder.model();
        let views = subsets.views();
        let added = (a as int, transition.1, target.number());
        assert(d.moves.contains(added));
        assert(views[target.number()] == step(m, views[a as int], transition.1));
        assert forall|x: int, t: T, b: int| #[trigger] d.moves.contains((x, t, b)) implies 0 <= x <= a && 0 <= b < views.len()
            && views[b] == step(m, views[x], t) by {
            if (x, t, b) != added {
                assert(before.moves.contains((x, t, b)));
            }
        }
        assert forall|x: int, t: T| 0 <= x < a && !(#[trigger] step(m, views[x], t)).is_empty() implies exists|b: int|
            #[trigger] d.moves.contains((x, t, b)) by {
            let b = choose|b: int| #[trigger] before.moves.contains((x, t, b));
            assert(d.moves.contains((x, t, b)));
        }
    }
}

/// A deterministic builder for `input` by the subset construction: each state
/// of the builder stands for a set of states that `input` may be in at once.
fn determinize<T: PartialEq + Clone>(input: &nfa::Automaton<T>) -> (builder: dfa::Builder<T>)
    requires
        lawful_symbol::<T>(),
    ensures
        builder.wf(),
        forall|w: Seq<T>| #[trigger] accepts(builder.model(), w) == accepts(input.model(), w),
{
    let ghost m = input.model();
    let ghost universe = mentioned(*input).to_set();
    proof {
        mentioned(*input).lemma_cardinality_of_set();
    }
    let mut builder: dfa::Builder<T> = dfa::Builder::new();
    let mut subsets = Subsets { states: vec![dfa::State::initial()], lists: vec![vec![input.initial_state]] };
    proof {
        let v = subsets.views();
        assert(subsets.lists@[0]@[0] == input.initial_state);
        assert(v[0] =~= set![input.initial_state.0 as int]);
        assert(mentioned(*input)[0] == input.initial_state.0 as int);
        assert(universe.contains(input.initial_state.0 as int));
        builder.lemma_model();
        assert(subsets.wf(builder.counter(), universe));
        assert(follows(m, builder.model(), v, 0, -1));
    }
    let mut done: usize = 0;
    while done < subsets.lists.len()
        invariant
            lawful_symbol::<T>(),
            m == input.model(),
            universe == mentioned(*input).to_set(),
            universe.finite(),
            builder.wf(),
            subsets.wf(builder.counter(), universe),
            done <= subsets.views().len(),
            subsets.views()[0] == set![m.initial],
            follows(m, builder.model(), subsets.views(), done as int, done - 1),
        decreases power_of_two(universe.len()) - subsets.views().len(), subsets.views().len() - done,
    {
        proof {
            lemma_bound_subsets(subsets.views(), universe);
        }
        let ghost start_len = subsets.views().len();
        let ghost views = subsets.views();
        let current = subsets.states[done];
        let ghost before = builder.model();
        let shares_final = intersects(&subsets.lists[done], &input.final_states);
        if shares_final {
            builder.add_final_state(current);
        }
        proof {
            builder.lemma_model();
            let d = builder.model();
            let a = done as int;
            assert(views[a] == nfa::state_set(subsets.lists@[a]@));
            assert forall|x: int|
                #[trigger] d.finals.contains(x) <==> 0 <= x <= a && x < views.len() && exists|q: int|
                    #[trigger] views[x].contains(q) && m.finals.contains(q) by {
                if x == a {
                    if shares_final {
                        let q = choose|q: int| nfa::state_set(subsets.lists@[a]@).contains(q) && nfa::state_set(input.final_states@).contains(q);
                        assert(views[x].contains(q) && m.finals.contains(q));
                    } else {
                        assert(!before.finals.contains(x));
                        if exists|q: int| #[trigger] views[x].contains(q) && m.finals.contains(q) {
                            let q = choose|q: int| #[trigger] views[x].contains(q) && m.finals.contains(q);
                            assert(nfa::state_set(subsets.lists@[a]@).contains(q) && nfa::state_set(input.final_states@).contains(q));
                        }
                    }
                }
            }
            assert(follows(m, d, views, a, a));
        }
        let mut i: usize = 0;
        while i < input.transitions.len()
            invariant
                lawful_symbol::<T>(),
                m == input.model(),
                universe == mentioned(*input).to_set(),
                universe.finite(),
                builder.wf(),
                subsets.wf(builder.counter(), universe),
                done < start_len,
                subsets.views().len() >= start_len,
                forall|k: int| 0 <= k < start_len ==> subsets.views()[k] == views[k],
                i <= input.transitions.len(),
                follows(m, builder.model(), subsets.views(), done as int, done as int),
                forall|k: int|
                    0 <= k < i && views[done as int].contains((#[trigger] input.transitions@[k]).0.0 as int) ==> exists|b: int|
                        #[trigger] builder.model().moves.contains((done as int, input.transitions@[k].1, b)),
            decreases input.transitions.len() - i,
        {
            let ghost old_moves = builder.model().moves;
            let ghost old_views = subsets.views();
            follow_transition(input, &mut builder, &mut subsets, done, i, Ghost(universe));
            proof {
                assert(subsets.views()[done as int] == old_views[done as int]);
                assert forall|k: int|
                    0 <= k < i + 1 && views[done as int].contains((#[trigger] input.transitions@[k]).0.0 as int) implies exists|b: int|
                        #[trigger] builder.model().moves.contains((done as int, input.transitions@[k].1, b)) by {
                    if k < i {
                        let b = choose|b: int| #[trigger] old_moves.contains((done as int, input.transitions@[k].1, b));
                        assert(builder.model().moves.contains((done as int, input.transitions@[k].1, b)));
                    }
                }
                assert forall|k: int| 0 <= k < start_len implies subsets.views()[k] == views[k] by {
                    assert(subsets.views()[k] == old_views[k]);
                }
            }
            i += 1;
        }
        proof {
            let d = builder.model();
            let v = subsets.views();
            let a = done as int;
            assert forall|x: int, t: T| 0 <= x < a + 1 && !(#[trigger] step(m, v[x], t)).is_empty() implies exists|b: int|
                #[trigger] d.moves.contains((x, t, b)) by {
                if x == a {
                    assert(v[a] == views[a]);
                    let q = choose|q: int| step(m, v[x], t).contains(q);
                    let p = choose|p: int| v[x].contains(p) && #[trigger] m.moves.contains((p, t, q));
                    let k = choose|k: int| 0 <= k < input.transitions@.len() && nfa::move_of(#[trigger] input.transitions@[k]) == (p, t, q);
                    assert(views[a].contains(input.transitions@[k].0.0 as int));
                }
            }
            assert(follows(m, d, v, a + 1, a));
            lemma_bound_subsets(v, universe);
            assert(v[0] == views[0]);
        }
        done += 1;
    }
    proof {
        let n = subsets.views().len() as int;
        let views = subsets.views();
        let sets = |x: int| if 0 <= x < n { views[x] } else { Set::empty() };
        builder.lemma_model();
        let d = builder.model();
        assert forall|x: int, t: T| 0 <= x < n && !(#[trigger] step(m, sets(x), t)).is_empty() implies exists|b: int|
            #[trigger] d.moves.contains((x, t, b)) by {
            assert(sets(x) == views[x]);
        }
        assert forall|x: int, t: T, b: int| #[trigger] d.moves.contains((x, t, b)) implies 0 <= x < n && 0 <= b < n && sets(b) == step(m, sets(x), t) by {}
        assert forall|x: int| #[trigger] d.finals.contains(x) <==> 0 <= x < n && exists|q: int| #[trigger] sets(x).contains(q) && m.finals.contains(q) by {
            if 0 <= x < n {
                assert(sets(x) == views[x]);
            }
        }
        assert(sets(0) == set![m.initial]);
        assert(is_subset_construction(m, d, sets, n));
        assert forall|w: Seq<T>| #[trigger] accepts(builder.model(), w) == accepts(m, w) by {
            lemma_subset_construction(m, d, sets, n, w);
        }
    }
    builder
}

/// A deterministic automaton accepting what `input` accepts, by the subset
/// construction, its states numbered from 0.
pub fn nfa_to_dfa<T: PartialEq + Clone>(input: &nfa::Automaton<T>) -> (output: dfa::SmallAutomaton<T>)
    requires
        lawful_symbol::<T>(),
    ensures
        output.wf(),
        forall|w: Seq<T>| #[trigger] accepts(output.model(), w) == accepts(input.model(), w),
{
    let builder = determinize(input);
    let output = builder.build_small();
    proof {
        assert forall|w: Seq<T>| #[trigger] accepts(output.model(), w) == accepts(input.model(), w) by {
            assert(accepts(output.model(), w) == accepts(builder.model(), w));
        }
    }
    output
}

/// A deterministic automaton accepting what `input` accepts: its empty moves
/// removed first, then the subset construction.
pub fn em_nfa_to_dfa<T: PartialEq + Clone>(input: &em_nfa::Automaton<T>) -> (output: dfa::SmallAutomaton<T>)
    requires
        lawful_symbol::<T>(),
    ensures
        output.wf(),
        forall|w: Seq<T>| #[trigger] accepts(output.model(), w) == accepts(input.model(), w),
{
    let nfa_automaton = em_nfa_to_nfa(input);
    let output = nfa_to_dfa(&nfa_automaton);
    proof {
        assert forall|w: Seq<T>| #[trigger] accepts(output.model(), w) == accepts(input.model(), w) by {
            assert(accepts(output.model(), w) == accepts(nfa_automaton.model(), w));
        }
    }
    output
}

} // verus!
