//! The declarative description of an automaton and the errors that building
//! one from it can report.

use vstd::prelude::*;
use vstd::string::StrSliceExecFns;
use crate::table::EPSILON;

verus! {

/// A description of a finite-state automaton, as a loader hands it over.
#[derive(Debug)]
pub struct FAConfig {
    /// The state names, in declaration order; a state's index is its position.
    pub states: Vec<String>,
    pub initial_state: String,
    pub final_states: Vec<String>,
    /// The symbols of the alphabet; only membership matters.
    pub alphabet: Vec<String>,
    pub transitions: Vec<Transition>,
}

/// One edge of the description; `on` is `None` for a null transition.
#[derive(Debug)]
pub struct Transition {
    pub from: String,
    pub to: String,
    pub on: Option<String>,
}

/// Why a description was refused. Ordinals count transitions from one.
#[derive(Debug, PartialEq, Eq)]
pub enum ConfigError {
    /// The initial state is not among the declared states.
    UnknownInitialState,
    /// A final state is not among the declared states.
    UnknownFinalState(String),
    /// A transition starts or ends at an undeclared state.
    UnknownTransitionState(String, usize),
    /// A transition is labeled with a symbol outside the alphabet.
    SymbolNotInAlphabet(String, usize),
    /// A deterministic automaton was given a null transition.
    NullTransitionNotAllowed(usize),
    /// The alphabet of a non-deterministic automaton holds the null marker.
    ReservedSymbolInAlphabet,
}

/// The index that `name` resolves to: the last position at which it is
/// declared, if it is declared at all.
pub open spec fn index_of(names: Seq<String>, name: Seq<char>) -> Option<usize>
    decreases names.len(),
{
    if names.len() == 0 {
        None
    } else if names.last()@ == name {
        Some((names.len() - 1) as usize)
    } else {
        index_of(names.drop_last(), name)
    }
}

/// `symbol` is a non-empty string that the alphabet lists.
pub open spec fn in_alphabet(alphabet: Seq<String>, symbol: Seq<char>) -> bool {
    &&& symbol.len() > 0
    &&& exists|i: int| 0 <= i < alphabet.len() && (#[trigger] alphabet[i])@ == symbol
}

/// The alphabet lists the null marker as a symbol. Only the marker alone
/// counts, not a longer string that begins with it.
pub open spec fn has_marker(alphabet: Seq<String>) -> bool {
    exists|i: int| 0 <= i < alphabet.len() && (#[trigger] alphabet[i])@ == seq![EPSILON]
}

/// A resolved name is declared at the index it resolves to and nowhere
/// later; an unresolved one is declared nowhere.
pub proof fn lemma_index_of(names: Seq<String>, name: Seq<char>)
    requires
        names.len() <= usize::MAX,
    ensures
        match index_of(names, name) {
            Some(i) => i < names.len() && names[i as int]@ == name && forall|j: int|
                i < j < names.len() ==> (#[trigger] names[j])@ != name,
            None => forall|j: int| 0 <= j < names.len() ==> (#[trigger] names[j])@ != name,
        },
    decreases names.len(),
{
    if names.len() > 0 && names.last()@ != name {
        lemma_index_of(names.drop_last(), name);
        assert forall|j: int| 0 <= j < names.len() - 1 implies names[j]
            == names.drop_last()[j] by {}
    }
}

/// Resolves a state name to its index.
pub fn find_state(names: &Vec<String>, name: &String) -> (found: Option<usize>)
    ensures
        found == index_of(names@, name@),
{
    let mut i: usize = names.len();
    assert(names@.take(i as int) =~= names@);
    while i > 0
        invariant
            i <= names.len(),
            index_of(names@, name@) == index_of(names@.take(i as int), name@),
        decreases i,
    {
        i -= 1;
        assert(names@.take(i + 1).drop_last() =~= names@.take(i as int));
        if names[i] == *name {
            return Some(i);
        }
    }
    assert(names@.take(0).len() == 0);
    None
}

/// Whether the alphabet lists `symbol`.
pub fn alphabet_contains(alphabet: &Vec<String>, symbol: &String) -> (found: bool)
    ensures
        found == in_alphabet(alphabet@, symbol@),
{
    if symbol.as_str().is_empty() {
        return false;
    }
    let mut i: usize = 0;
    while i < alphabet.len()
        invariant
            i <= alphabet.len(),
            symbol@.len() > 0,
            forall|j: int| 0 <= j < i ==> (#[trigger] alphabet@[j])@ != symbol@,
        decreases alphabet.len() - i,
    {
        if alphabet[i] == *symbol {
            return true;
        }
        i += 1;
    }
    false
}

/// Whether the alphabet lists the null marker.
pub fn alphabet_has_marker(alphabet: &Vec<String>) -> (found: bool)
    ensures
        found == has_marker(alphabet@),
{
    let mut i: usize = 0;
    while i < alphabet.len()
        invariant
            i <= alphabet.len(),
            forall|j: int| 0 <= j < i ==> (#[trigger] alphabet@[j])@ != seq![EPSILON],
        decreases alphabet.len() - i,
    {
        let s = alphabet[i].as_str();
        if s.unicode_len() == 1 && s.get_char(0) == EPSILON {
            assert(s@ =~= seq![EPSILON]);
            return true;
        }
        i += 1;
    }
    false
}

/// An automaton that can be built from a description.
pub trait ReadFAConfig: Sized {
    /// The error that building from `config` reports, `None` where it
    /// succeeds.
    spec fn refusal(config: &FAConfig) -> Option<ConfigError>;

    /// The automaton is the one that `config` describes.
    spec fn built_from(&self, config: &FAConfig) -> bool;

    /// Validates `config` and builds the automaton that it describes.
    fn from_config(config: FAConfig) -> (res: Result<Self, ConfigError>)
        ensures
            match res {
                Ok(automaton) => Self::refusal(&config) is None && automaton.built_from(&config),
                Err(e) => Self::refusal(&config) == Some(e),
            },
    ;
}

} // verus!
