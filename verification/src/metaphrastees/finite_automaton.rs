use super::model::{accepts, Model};
use vstd::prelude::*;

verus! {

/// An automaton that can tell whether it accepts an input.
pub trait FiniteAutomaton<T> {
    /// The automaton in mathematical form.
    spec fn automaton_model(&self) -> Model<T>;

    /// Whether the automaton can be run: its symbols behave as its lookups need.
    spec fn runnable(&self) -> bool;

    fn test(&self, input: &[T]) -> (accepted: bool)
        requires
            self.runnable(),
        ensures
            accepted == accepts(self.automaton_model(), input@),
    ;
}

} // verus!
