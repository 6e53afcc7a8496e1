pub mod symbol;
pub mod model;
pub mod nfa;
pub(crate) mod renaming;
pub mod em_nfa;
pub mod compiler;
pub mod dfa;
pub mod finite_automaton;
