//! What every automaton offers: a verdict on a string.

use vstd::prelude::*;

verus! {

/// An automaton that decides whether it recognizes a string.
pub trait Acceptor {
    /// The automaton is in a state fit for evaluation.
    spec fn wf(&self) -> bool;

    /// The automaton recognizes `input`.
    spec fn accepts(&self, input: Seq<char>) -> bool;

    /// Decides whether the automaton recognizes `s`.
    fn test_string(&self, s: String) -> (accepted: bool)
        requires
            self.wf(),
        ensures
            accepted == self.accepts(s@),
    ;
}

} // verus!
