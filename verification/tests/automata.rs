use glossa::metaphrastees::compiler::{em_nfa_to_dfa, em_nfa_to_nfa, nfa_to_dfa, nfa_to_em_nfa};
use glossa::metaphrastees::dfa::{BuildError, Builder, State as DfaState};
use glossa::metaphrastees::em_nfa::{self, TransitionOutput};
use glossa::metaphrastees::finite_automaton::FiniteAutomaton;
use glossa::metaphrastees::nfa::{self, State};
use glossa::metaphrastees::symbol::{Countable, FromIndex, ToIndex};

fn big_endian_binary_odd_automaton() -> nfa::Automaton<bool> {
    nfa::Automaton {
        initial_state: State(0),
        final_states: vec![State(1)],
        transitions: vec![
            (State(0), false, State(0)),
            (State(0), true, State(0)),
            (State(0), true, State(1)),
        ],
    }
}

fn palindrome_4bit_automaton() -> nfa::Automaton<bool> {
    nfa::Automaton {
        initial_state: State(0),
        final_states: vec![State(4), State(10)],
        transitions: vec![
            (State(0), false, State(1)),
            (State(0), false, State(5)),
            (State(0), true, State(7)),
            (State(0), true, State(11)),
            (State(1), false, State(2)),
            (State(2), false, State(3)),
            (State(3), false, State(4)),
            (State(5), true, State(6)),
            (State(6), true, State(3)),
            (State(7), false, State(8)),
            (State(8), false, State(9)),
            (State(9), true, State(10)),
            (State(11), true, State(12)),
            (State(12), true, State(9)),
        ],
    }
}

fn merged_binary_odd_and_palindrome_automaton() -> nfa::Automaton<bool> {
    nfa::Automaton::merge(&[big_endian_binary_odd_automaton(), palindrome_4bit_automaton()])
}

fn em_state(n: u128) -> em_nfa::State {
    em_nfa::State(n)
}

fn output(empty: &[u128], symbols: &[(bool, u128)]) -> TransitionOutput<bool> {
    TransitionOutput {
        empty: empty.iter().map(|&n| em_state(n)).collect(),
        symbols: symbols.iter().map(|&(symbol, n)| (symbol, em_state(n))).collect(),
    }
}

fn all_ones_automaton() -> em_nfa::Automaton<bool> {
    em_nfa::Automaton {
        initial_state: em_state(0),
        final_states: vec![em_state(1)],
        transitions: vec![(em_state(0), output(&[1], &[(true, 0)]))],
    }
}

fn one_alternation_or_be_odd_automaton() -> em_nfa::Automaton<bool> {
    em_nfa::Automaton {
        initial_state: em_state(0),
        final_states: vec![em_state(1), em_state(2), em_state(6)],
        transitions: vec![
            (em_state(0), output(&[1, 2], &[(true, 3), (false, 4)])),
            (em_state(1), output(&[1], &[(true, 1)])),
            (em_state(2), output(&[2], &[(false, 2), (false, 5)])),
            (em_state(3), output(&[1], &[(true, 3), (false, 2)])),
            (em_state(4), output(&[2], &[(true, 1), (false, 4)])),
            (em_state(5), output(&[], &[(true, 5), (true, 6), (false, 5)])),
            (em_state(6), output(&[], &[])),
        ],
    }
}

#[test]
fn binary_odd() {
    let automaton = big_endian_binary_odd_automaton();
    assert!(!automaton.test(&[]));
    assert!(!automaton.test(&[false]));
    assert!(automaton.test(&[true]));
    assert!(!automaton.test(&[false, false]));
    assert!(automaton.test(&[false, true]));
    assert!(!automaton.test(&[true, false]));
    assert!(automaton.test(&[true, true]));
    assert!(!automaton.test(&[false, true, false]));
    assert!(automaton.test(&[false, false, true]));
    assert!(!automaton.test(&[true, true, true, false]));
    assert!(automaton.test(&[false, true, false, true]));
}

#[test]
fn palindrome_4bit() {
    let automaton = palindrome_4bit_automaton();
    assert!(!automaton.test(&[]));
    assert!(!automaton.test(&[false]));
    assert!(!automaton.test(&[false, true]));
    assert!(!automaton.test(&[false, false, true]));
    assert!(!automaton.test(&[true, true, true, false]));
    assert!(!automaton.test(&[false, false, true, true]));
    assert!(!automaton.test(&[false, false, true, false]));
    assert!(!automaton.test(&[true, false, true, false]));
    assert!(automaton.test(&[false, true, true, false]));
    assert!(automaton.test(&[false, false, false, false]));
    assert!(automaton.test(&[true, true, true, true]));
    assert!(automaton.test(&[true, false, false, true]));
}

#[test]
fn merge() {
    let automaton = merged_binary_odd_and_palindrome_automaton();
    assert!(!automaton.test(&[]));
    assert!(!automaton.test(&[false]));
    assert!(automaton.test(&[true]));
    assert!(!automaton.test(&[false, false]));
    assert!(automaton.test(&[false, true]));
    assert!(!automaton.test(&[true, false]));
    assert!(automaton.test(&[true, true]));
    assert!(!automaton.test(&[false, true, false]));
    assert!(automaton.test(&[false, false, true]));
    assert!(!automaton.test(&[true, true, true, false]));
    assert!(automaton.test(&[false, true, false, true]));
    assert!(!automaton.test(&[false]));
    assert!(!automaton.test(&[true, true, true, false]));
    assert!(!automaton.test(&[false, false, true, false]));
    assert!(!automaton.test(&[true, false, true, false]));
    assert!(automaton.test(&[false, true, true, false]));
    assert!(automaton.test(&[false, false, false, false]));
    assert!(automaton.test(&[true, true, true, true]));
    assert!(automaton.test(&[true, false, false, true]));
}

#[test]
fn merge_numbers_initial_state_zero() {
    let automaton = merged_binary_odd_and_palindrome_automaton();
    assert_eq!(automaton.initial_state, State(0));
    // The merged initial state loops on the first automaton and then reads a palindrome.
    assert!(automaton.test(&[true, false, false, false, false]));
}

#[test]
fn all_ones() {
    let automaton = all_ones_automaton();
    assert!(automaton.test(&[]));
    assert!(!automaton.test(&[false]));
    assert!(automaton.test(&[true]));
    assert!(!automaton.test(&[false, false]));
    assert!(!automaton.test(&[false, true]));
    assert!(!automaton.test(&[true, false]));
    assert!(automaton.test(&[true, true]));
    assert!(!automaton.test(&[false, true, false]));
    assert!(automaton.test(&[true, true, true]));
    assert!(!automaton.test(&[false, false, true]));
    assert!(!automaton.test(&[true, true, true, false]));
    assert!(!automaton.test(&[false, true, false, true]));
}

#[test]
fn one_alternation_or_be_odd() {
    let automaton = one_alternation_or_be_odd_automaton();
    assert!(automaton.test(&[]));
    assert!(automaton.test(&[false]));
    assert!(automaton.test(&[true]));
    assert!(automaton.test(&[true, true]));
    assert!(automaton.test(&[true, true, true]));
    assert!(automaton.test(&[true, true, false]));
    assert!(automaton.test(&[true, true, false, false, false]));
    assert!(!automaton.test(&[true, false, true]));
    assert!(!automaton.test(&[false, false, true, false]));
    assert!(!automaton.test(&[false, false, true, true, false, false]));
    assert!(automaton.test(&[false, true, false, true, false, true]));
}

#[test]
fn nfa_to_dfa_binary_odd() {
    let nfa_automaton = big_endian_binary_odd_automaton();
    let dfa_automaton = nfa_to_dfa(&nfa_automaton);
    assert!(!dfa_automaton.test(&[]));
    assert!(!dfa_automaton.test(&[false]));
    assert!(dfa_automaton.test(&[true]));
    assert!(!dfa_automaton.test(&[false, false]));
    assert!(dfa_automaton.test(&[false, true]));
    assert!(!dfa_automaton.test(&[true, false]));
    assert!(dfa_automaton.test(&[true, true]));
    assert!(!dfa_automaton.test(&[false, true, false]));
    assert!(dfa_automaton.test(&[false, false, true]));
    assert!(!dfa_automaton.test(&[true, true, true, false]));
    assert!(dfa_automaton.test(&[false, true, false, true]));
}

#[test]
fn nfa_to_dfa_palindrome_4bit() {
    let nfa_automaton = palindrome_4bit_automaton();
    let dfa_automaton = nfa_to_dfa(&nfa_automaton);
    assert!(!dfa_automaton.test(&[]));
    assert!(!dfa_automaton.test(&[false]));
    assert!(!dfa_automaton.test(&[false, true]));
    assert!(!dfa_automaton.test(&[false, false, true]));
    assert!(!dfa_automaton.test(&[true, true, true, false]));
    assert!(!dfa_automaton.test(&[false, false, true, true]));
    assert!(!dfa_automaton.test(&[false, false, true, false]));
    assert!(!dfa_automaton.test(&[true, false, true, false]));
    assert!(dfa_automaton.test(&[false, true, true, false]));
    assert!(dfa_automaton.test(&[false, false, false, false]));
    assert!(dfa_automaton.test(&[true, true, true, true]));
    assert!(dfa_automaton.test(&[true, false, false, true]));
}

#[test]
fn em_nfa_to_nfa_all_ones() {
    let em_nfa_automaton = all_ones_automaton();
    let nfa_automaton = em_nfa_to_nfa(&em_nfa_automaton);
    assert!(nfa_automaton.test(&[]));
    assert!(!nfa_automaton.test(&[false]));
    assert!(nfa_automaton.test(&[true]));
    assert!(!nfa_automaton.test(&[false, false]));
    assert!(!nfa_automaton.test(&[false, true]));
    assert!(!nfa_automaton.test(&[true, false]));
    assert!(nfa_automaton.test(&[true, true]));
    assert!(!nfa_automaton.test(&[false, true, false]));
    assert!(nfa_automaton.test(&[true, true, true]));
    assert!(!nfa_automaton.test(&[false, false, true]));
    assert!(!nfa_automaton.test(&[true, true, true, false]));
    assert!(!nfa_automaton.test(&[false, true, false, true]));
}

#[test]
fn em_nfa_to_nfa_one_alter_or_be_odd() {
    let em_nfa_automaton = one_alternation_or_be_odd_automaton();
    let nfa_automaton = em_nfa_to_nfa(&em_nfa_automaton);
    assert!(nfa_automaton.test(&[]));
    assert!(nfa_automaton.test(&[false]));
    assert!(nfa_automaton.test(&[true]));
    assert!(nfa_automaton.test(&[true, true]));
    assert!(nfa_automaton.test(&[true, true, true]));
    assert!(nfa_automaton.test(&[true, true, false]));
    assert!(nfa_automaton.test(&[true, true, false, false, false]));
    assert!(!nfa_automaton.test(&[true, false, true]));
    assert!(!nfa_automaton.test(&[false, false, true, false]));
    assert!(!nfa_automaton.test(&[false, false, true, true, false, false]));
    assert!(nfa_automaton.test(&[false, true, false, true, false, true]));
}

#[test]
fn em_nfa_to_nfa_starts_in_state_zero() {
    let mut automaton = all_ones_automaton();
    automaton.initial_state = em_state(7);
    automaton.transitions[0].0 = em_state(7);
    automaton.transitions[0].1.symbols[0].1 = em_state(7);
    let nfa_automaton = em_nfa_to_nfa(&automaton);
    assert_eq!(nfa_automaton.initial_state, State(0));
    assert!(nfa_automaton.test(&[true, true]));
    assert!(!nfa_automaton.test(&[true, false]));
}

#[test]
fn em_nfa_to_dfa_all_ones() {
    let em_dfa_automaton = all_ones_automaton();
    let dfa_automaton = em_nfa_to_dfa(&em_dfa_automaton);
    assert!(dfa_automaton.test(&[]));
    assert!(!dfa_automaton.test(&[false]));
    assert!(dfa_automaton.test(&[true]));
    assert!(!dfa_automaton.test(&[false, false]));
    assert!(!dfa_automaton.test(&[false, true]));
    assert!(!dfa_automaton.test(&[true, false]));
    assert!(dfa_automaton.test(&[true, true]));
    assert!(!dfa_automaton.test(&[false, true, false]));
    assert!(dfa_automaton.test(&[true, true, true]));
    assert!(!dfa_automaton.test(&[false, false, true]));
    assert!(!dfa_automaton.test(&[true, true, true, false]));
    assert!(!dfa_automaton.test(&[false, true, false, true]));
}

#[test]
fn em_nfa_to_dfa_one_alter_or_be_odd() {
    let em_dfa_automaton = one_alternation_or_be_odd_automaton();
    let dfa_automaton = em_nfa_to_dfa(&em_dfa_automaton);
    assert!(dfa_automaton.test(&[]));
    assert!(dfa_automaton.test(&[false]));
    assert!(dfa_automaton.test(&[true]));
    assert!(dfa_automaton.test(&[true, true]));
    assert!(dfa_automaton.test(&[true, true, true]));
    assert!(dfa_automaton.test(&[true, true, false]));
    assert!(dfa_automaton.test(&[true, true, false, false, false]));
    assert!(!dfa_automaton.test(&[true, false, true]));
    assert!(!dfa_automaton.test(&[false, false, true, false]));
    assert!(!dfa_automaton.test(&[false, false, true, true, false, false]));
    assert!(dfa_automaton.test(&[false, true, false, true, false, true]));
}

#[test]
fn nfa_to_em_nfa_keeps_language() {
    let automaton = nfa_to_em_nfa(&palindrome_4bit_automaton());
    assert!(automaton.test(&[false, true, true, false]));
    assert!(!automaton.test(&[false, true, true, true]));
    assert!(automaton.transitions.iter().all(|(_, output)| output.empty.is_empty()));
}

/// The alphabet of a single symbol: the unit value, which the library numbers as the only one.
type Succ = ();

fn unary_odd_builder() -> Builder<Succ> {
    let mut builder = Builder::new();
    let states = [DfaState::initial(), builder.gen_state()];

    builder
        .transition(states[0], (), states[1])
        .transition(states[1], (), states[0])
        .add_final_state(states[1]);

    builder
}

fn binary_odd_builder() -> Builder<bool> {
    let mut builder = Builder::new();
    let states = [DfaState::initial(), builder.gen_state(), builder.gen_state()];
    builder
        .transition(states[0], false, states[1])
        .transition(states[0], true, states[2])
        .transition(states[1], false, states[1])
        .transition(states[1], true, states[2])
        .transition(states[2], false, states[1])
        .transition(states[2], true, states[2])
        .add_final_state(states[2]);
    builder
}

#[test]
fn unary_odd_fast() {
    let automaton = unary_odd_builder().build_fast();
    assert!(!automaton.test(&[]));
    assert!(automaton.test(&[()]));
    assert!(!automaton.test(&[(), ()]));
    assert!(automaton.test(&[(), (), ()]));
}

#[test]
fn unary_odd_small() {
    let automaton = unary_odd_builder().build_small();
    assert!(!automaton.test(&[]));
    assert!(automaton.test(&[()]));
    assert!(!automaton.test(&[(), ()]));
    assert!(automaton.test(&[(), (), ()]));
}

#[test]
fn binary_odd_fast() {
    let automaton = binary_odd_builder().build_fast();
    assert!(!automaton.test(&[]));
    assert!(!automaton.test(&[false]));
    assert!(automaton.test(&[true]));
    assert!(!automaton.test(&[false, false]));
    assert!(automaton.test(&[false, true]));
    assert!(!automaton.test(&[true, false]));
    assert!(automaton.test(&[true, true]));
    assert!(!automaton.test(&[false, true, false]));
    assert!(automaton.test(&[false, false, true]));
    assert!(!automaton.test(&[true, true, true, false]));
    assert!(automaton.test(&[false, true, false, true]));
}

#[test]
fn binary_odd_small() {
    let automaton = binary_odd_builder().build_small();
    assert!(!automaton.test(&[]));
    assert!(!automaton.test(&[false]));
    assert!(automaton.test(&[true]));
    assert!(!automaton.test(&[false, false]));
    assert!(automaton.test(&[false, true]));
    assert!(!automaton.test(&[true, false]));
    assert!(automaton.test(&[true, true]));
    assert!(!automaton.test(&[false, true, false]));
    assert!(automaton.test(&[false, false, true]));
    assert!(!automaton.test(&[true, true, true, false]));
    assert!(automaton.test(&[false, true, false, true]));
}

#[test]
fn builder_refuses_conflicts_and_invalid_states() {
    let mut builder: Builder<bool> = Builder::new();
    let state = builder.gen_state();
    assert!(builder.try_transition(DfaState::initial(), true, state).is_ok());
    assert!(builder.try_transition(DfaState::initial(), true, DfaState::initial()).is_err());
    assert!(builder.try_add_final_state(state).is_ok());
    assert!(builder.is_final_state(state));
    assert!(!builder.is_final_state(DfaState::initial()));
    assert_eq!(builder.get_transition(DfaState::initial(), &true).ok(), Some(state));
    assert!(builder.get_transition(DfaState::initial(), &false).is_err());
    assert!(builder.iter_next_states(state).is_err());
    let mut next = builder.iter_next_states(DfaState::initial()).ok().unwrap();
    assert_eq!(next.next(), Some((&true, state)));
    assert_eq!(next.next(), None);
}

#[test]
fn drop_useless_transitions_keeps_reachable_states() {
    let mut builder: Builder<bool> = Builder::new();
    let reachable = builder.gen_state();
    let unreachable = builder.gen_state();
    builder
        .transition(DfaState::initial(), true, reachable)
        .transition(unreachable, true, unreachable)
        .add_final_state(unreachable);
    let states = builder.drop_useless_transitions();
    assert_eq!(states.total_count(), 2);
    assert!(!builder.is_final_state(unreachable));
    assert!(builder.get_transition(unreachable, &true).is_err());
    assert!(builder.get_transition(DfaState::initial(), &true).is_ok());
}

#[test]
fn symbol_indices() {
    assert_eq!(true.to_index(), 1);
    assert_eq!((true, 3u8).to_index(), 0x103);
    assert_eq!(<(bool, u8)>::from_index(0x103), (true, 3));
    assert_eq!((-1i8).to_index(), 255);
    assert_eq!(<(bool, bool) as Countable>::COUNT, 4);
}

#[test]
fn states_and_build_errors_are_written_out() {
    let mut builder: Builder<bool> = Builder::new();
    let state = builder.gen_state();
    assert_eq!(DfaState::initial().to_string(), "q0");
    assert_eq!(state.to_string(), "q1");
    builder.transition(DfaState::initial(), true, state);
    let conflict = builder.try_transition(DfaState::initial(), true, DfaState::initial()).unwrap_err();
    assert_eq!(
        conflict.to_string(),
        "transition conflict, requested insertion of next state q0 on entry with current state q0 and next state q1"
    );
    let mut other: Builder<bool> = Builder::new();
    let invalid = other.try_add_final_state(state).unwrap_err();
    assert_eq!(invalid.to_string(), "invalid state q1");
}

#[test]
fn conflicting_transition_reports_the_stored_state() {
    let mut builder: Builder<bool> = Builder::new();
    let state = builder.gen_state();
    builder.transition(DfaState::initial(), false, state);
    match builder.try_transition(DfaState::initial(), false, state) {
        Err(BuildError::TransitionConflict { current_state, stored_next_state, requested_next_state }) => {
            assert_eq!(current_state, DfaState::initial());
            assert_eq!(stored_next_state, state);
            assert_eq!(requested_next_state, state);
        },
        other => panic!("expected a conflict, got {:?}", other.map(|_| ())),
    }
    let outside = DfaState::initial();
    let mut fresh: Builder<bool> = Builder::new();
    match fresh.try_transition(outside, true, state) {
        Err(BuildError::InvalidState { state: refused }) => assert_eq!(refused, state),
        other => panic!("expected an invalid state, got {:?}", other.map(|_| ())),
    }
}
