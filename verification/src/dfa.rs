//! Deterministic automata: one current state, moved by each input symbol.
//!
//! A table may offer several destinations for one state and symbol. The
//! automaton then moves to the one with the highest index; where it offers
//! none, the automaton stays where it is.

use vstd::prelude::*;
use std::collections::{HashMap, HashSet};
use crate::builder::{build, build_error, built_finals, built_initial, built_table};
use crate::config::{ConfigError, FAConfig, ReadFAConfig};
use crate::table::{cell_contains, chars_of, is_square, labeled, table_view, Table};
use crate::traits::Acceptor;

verus! {

broadcast use vstd::std_specs::hash::group_hash_axioms;

/// A state of an automaton: its name and its index in the table.
#[derive(Debug)]
pub struct State {
    pub name: String,
    pub index: usize,
}

/// A deterministic finite automaton.
#[derive(Debug)]
pub struct DFA {
    states: HashMap<usize, State>,
    initial_state: usize,
    final_states: HashSet<usize>,
    transitions: Vec<Vec<Vec<char>>>,
}

/// `to` is the last state of the row of `from` that `c` leads to.
pub open spec fn is_last_labeled(t: Table, from: usize, to: usize, c: char) -> bool {
    &&& labeled(t, from, to, c)
    &&& forall|j: usize| to < j ==> !labeled(t, from, j, c)
}

/// The state that the automaton moves to from `from` on `c`: the last state
/// that `c` leads to, or `from` itself where `c` leads nowhere.
pub open spec fn next_state(t: Table, from: usize, c: char) -> usize {
    if exists|to: usize| is_last_labeled(t, from, to, c) {
        choose|to: usize| is_last_labeled(t, from, to, c)
    } else {
        from
    }
}

/// The state that the automaton is in after it read `w` from `from`.
pub open spec fn state_after(t: Table, from: usize, w: Seq<char>) -> usize
    decreases w.len(),
{
    if w.len() == 0 {
        from
    } else {
        state_after(t, next_state(t, from, w[0]), w.drop_first())
    }
}

/// The state that the automaton is in after it read `w` is final.
pub open spec fn dfa_accepts(t: Table, initial: usize, finals: Set<usize>, w: Seq<char>) -> bool {
    finals.contains(state_after(t, initial, w))
}

impl DFA {
    /// The model of the transition table.
    pub closed spec fn table(&self) -> Table {
        table_view(&self.transitions)
    }

    /// The index of the initial state.
    pub closed spec fn initial(&self) -> usize {
        self.initial_state
    }

    /// The indices of the final states.
    pub closed spec fn finals(&self) -> Set<usize> {
        self.final_states@
    }

    /// The states, by index.
    pub closed spec fn names(&self) -> Map<usize, State> {
        self.states@
    }

    #[verifier::type_invariant]
    spec fn inv(&self) -> bool {
        &&& is_square(table_view(&self.transitions))
        &&& self.initial_state < self.transitions.len()
    }
}

/// The states of an automaton, by index.
fn index_states(names: &Vec<String>) -> (states: HashMap<usize, State>)
    ensures
        states@ == Map::new(
            |i: usize| i < names.len(),
            |i: usize| (State { name: names[i as int], index: i }),
        ),
{
    let mut states: HashMap<usize, State> = HashMap::new();
    let mut i: usize = 0;
    while i < names.len()
        invariant
            i <= names.len(),
            states@ == Map::new(
                |k: usize| k < i,
                |k: usize| (State { name: names[k as int], index: k }),
            ),
        decreases names.len() - i,
    {
        states.insert(i, State { name: names[i].clone(), index: i });
        assert(states@ =~= Map::new(
            |k: usize| k < i + 1,
            |k: usize| (State { name: names[k as int], index: k }),
        ));
        i += 1;
    }
    states
}

impl ReadFAConfig for DFA {
    open spec fn refusal(config: &FAConfig) -> Option<ConfigError> {
        build_error(config, false)
    }

    open spec fn built_from(&self, config: &FAConfig) -> bool {
        &&& self.names() == Map::new(
            |i: usize| i < config.states.len(),
            |i: usize| (State { name: config.states[i as int], index: i }),
        )
        &&& self.initial() == built_initial(config)
        &&& self.finals() == built_finals(config)
        &&& self.table() == built_table(config)
    }

    /// Builds the automaton that `config` describes. A null transition is
    /// refused.
    fn from_config(config: FAConfig) -> (res: Result<Self, ConfigError>) {
        match build(&config, false) {
            Ok((initial_state, final_states, transitions)) => {
                let states = index_states(&config.states);
                Ok(DFA { states, initial_state, final_states, transitions })
            },
            Err(e) => Err(e),
        }
    }
}

impl Acceptor for DFA {
    /// An automaton of this kind is always fit for evaluation.
    open spec fn wf(&self) -> bool {
        true
    }

    open spec fn accepts(&self, input: Seq<char>) -> bool {
        dfa_accepts(self.table(), self.initial(), self.finals(), input)
    }

    /// Walks the table from the initial state, one move for each character
    /// of `s`, and tells whether the walk ends in a final state.
    fn test_string(&self, s: String) -> (accepted: bool) {
        proof {
            use_type_invariant(self);
        }
        let n = self.transitions.len();
        let ghost t = self.table();
        let input = chars_of(s.as_str());
        let mut current = self.initial_state;
        let mut i: usize = 0;
        assert(input@.skip(0) =~= input@);
        while i < input.len()
            invariant
                i <= input.len(),
                n == self.transitions.len(),
                t == table_view(&self.transitions),
                is_square(t),
                current < n,
                state_after(t, self.initial_state, input@) == state_after(
                    t,
                    current,
                    input@.skip(i as int),
                ),
            decreases input.len() - i,
        {
            let c = input[i];
            let mut next = current;
            let mut j: usize = 0;
            assert(t[current as int].len() == n);
            while j < n
                invariant
                    j <= n,
                    n == self.transitions.len(),
                    t == table_view(&self.transitions),
                    current < n,
                    t[current as int].len() == n,
                    next < n,
                    if exists|k: usize| k < j && labeled(t, current, k, c) {
                        &&& next < j
                        &&& labeled(t, current, next, c)
                        &&& forall|k: usize| next < k < j ==> !labeled(t, current, k, c)
                    } else {
                        next == current
                    },
                decreases n - j,
            {
                let leads = cell_contains(&self.transitions[current][j], c);
                assert(leads == labeled(t, current, j, c));
                if leads {
                    next = j;
                }
                j += 1;
            }
            proof {
                if exists|k: usize| labeled(t, current, k, c) {
                    let k = choose|k: usize| labeled(t, current, k, c);
                    assert(k < n && labeled(t, current, k, c));
                    assert(is_last_labeled(t, current, next, c));
                }
                assert(next == next_state(t, current, c));
                let rest = input@.skip(i as int);
                assert(rest[0] == c);
                assert(rest.drop_first() =~= input@.skip(i + 1));
            }
            current = next;
            i += 1;
        }
        assert(input@.skip(input.len() as int).len() == 0);
        self.final_states.contains(&current)
    }
}

/// The verdict depends on the table, the initial state, the final states
/// and the input alone: automata that agree on the first three agree on
/// every input, however often they are asked.
pub proof fn lemma_verdict_is_determined(a: &DFA, b: &DFA, w: Seq<char>)
    requires
        a.table() == b.table(),
        a.initial() == b.initial(),
        a.finals() == b.finals(),
    ensures
        a.accepts(w) == b.accepts(w),
{
}

/// The empty string is accepted just when the initial state is final.
pub proof fn lemma_dfa_accepts_empty(a: &DFA)
    ensures
        a.accepts(Seq::<char>::empty()) == a.finals().contains(a.initial()),
{
}

/// Where a symbol leads from a state of a table to some state, it leads to
/// a last one.
pub proof fn lemma_next_state(t: Table, from: usize, to: usize, c: char)
    requires
        labeled(t, from, to, c),
    ensures
        is_last_labeled(t, from, next_state(t, from, c), c),
        to <= next_state(t, from, c),
    decreases usize::MAX - to,
{
    if exists|j: usize| to < j && labeled(t, from, j, c) {
        let j = choose|j: usize| to < j && labeled(t, from, j, c);
        lemma_next_state(t, from, j, c);
    } else {
        assert(is_last_labeled(t, from, to, c));
        let last = next_state(t, from, c);
        assert(is_last_labeled(t, from, last, c));
    }
}

} // verus!
