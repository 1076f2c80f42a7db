//! Validation of a description and construction of what an automaton is made
//! of: its initial state, its final states and its transition table.
//!
//! Building stops at the first violation, looked for in this order: the null
//! marker in the alphabet (where null transitions are allowed), the initial
//! state, the final states in declaration order, the transitions in
//! declaration order.

use vstd::prelude::*;
use vstd::seq_lib::lemma_seq_contains_after_push;
use vstd::string::StrSliceExecFns;
use std::collections::HashSet;
use crate::config::{
    alphabet_contains, alphabet_has_marker, find_state, has_marker, in_alphabet, index_of,
    lemma_index_of, ConfigError, FAConfig, Transition,
};
use crate::table::{is_square, labeled, table_view, Table, EPSILON};

verus! {

broadcast use vstd::std_specs::hash::group_hash_axioms;

/// The final state at position `k` is not declared.
pub open spec fn unknown_final(c: &FAConfig, k: int) -> bool {
    0 <= k < c.final_states.len() && index_of(c.states@, c.final_states[k]@) is None
}

/// The position of the first undeclared final state, if there is one.
pub open spec fn first_unknown_final(c: &FAConfig) -> int {
    choose|k: int| unknown_final(c, k) && forall|j: int| 0 <= j < k ==> !unknown_final(c, j)
}

/// The error of a transition whose label is in order: an undeclared source,
/// else an undeclared destination.
pub open spec fn endpoint_error(c: &FAConfig, t: Transition, ordinal: usize) -> Option<
    ConfigError,
> {
    if index_of(c.states@, t.from@) is None {
        Some(ConfigError::UnknownTransitionState(t.from, ordinal))
    } else if index_of(c.states@, t.to@) is None {
        Some(ConfigError::UnknownTransitionState(t.to, ordinal))
    } else {
        None
    }
}

/// What is wrong with the transition at position `k`, if anything.
pub open spec fn transition_error(c: &FAConfig, allow_null: bool, k: int) -> Option<ConfigError> {
    let t = c.transitions[k];
    let ordinal = (k + 1) as usize;
    match t.on {
        Some(on) => if !in_alphabet(c.alphabet@, on@) {
            Some(ConfigError::SymbolNotInAlphabet(on, ordinal))
        } else {
            endpoint_error(c, t, ordinal)
        },
        None => if !allow_null {
            Some(ConfigError::NullTransitionNotAllowed(ordinal))
        } else {
            endpoint_error(c, t, ordinal)
        },
    }
}

/// The transition at position `k` exists and is refused.
pub open spec fn bad_transition(c: &FAConfig, allow_null: bool, k: int) -> bool {
    0 <= k < c.transitions.len() && transition_error(c, allow_null, k) is Some
}

/// The position of the first refused transition, if there is one.
pub open spec fn first_bad_transition(c: &FAConfig, allow_null: bool) -> int {
    choose|k: int|
        bad_transition(c, allow_null, k) && forall|j: int|
            0 <= j < k ==> !bad_transition(c, allow_null, j)
}

/// The error that building from `c` reports, `None` where it succeeds.
pub open spec fn build_error(c: &FAConfig, allow_null: bool) -> Option<ConfigError> {
    if allow_null && has_marker(c.alphabet@) {
        Some(ConfigError::ReservedSymbolInAlphabet)
    } else if index_of(c.states@, c.initial_state@) is None {
        Some(ConfigError::UnknownInitialState)
    } else if exists|k: int| unknown_final(c, k) {
        Some(ConfigError::UnknownFinalState(c.final_states[first_unknown_final(c)]))
    } else if exists|k: int| bad_transition(c, allow_null, k) {
        transition_error(c, allow_null, first_bad_transition(c, allow_null))
    } else {
        None
    }
}

/// The symbol that a transition puts into the table: the first character of
/// its label, or the null marker where it has none.
pub open spec fn transition_symbol(t: Transition) -> char {
    match t.on {
        Some(on) => on@[0],
        None => EPSILON,
    }
}

/// The table of `n` states without any edge.
pub open spec fn empty_table(n: nat) -> Table {
    Seq::new(n, |i: int| Seq::new(n, |j: int| Seq::<char>::empty()))
}

/// `t` with `c` appended to cell `(from, to)`.
pub open spec fn add_edge(t: Table, from: int, to: int, c: char) -> Table {
    t.update(from, t[from].update(to, t[from][to].push(c)))
}

/// The table after the first `k` transitions of `c` went in.
pub open spec fn table_after(c: &FAConfig, k: nat) -> Table
    decreases k,
{
    if k == 0 {
        empty_table(c.states.len() as nat)
    } else {
        let t = c.transitions[k - 1];
        add_edge(
            table_after(c, (k - 1) as nat),
            index_of(c.states@, t.from@)->0 as int,
            index_of(c.states@, t.to@)->0 as int,
            transition_symbol(t),
        )
    }
}

/// The table that `c` describes.
pub open spec fn built_table(c: &FAConfig) -> Table {
    table_after(c, c.transitions.len() as nat)
}

/// The index of the initial state that `c` names.
pub open spec fn built_initial(c: &FAConfig) -> usize {
    index_of(c.states@, c.initial_state@)->0
}

/// The indices of the final states that `c` names.
pub open spec fn built_finals(c: &FAConfig) -> Set<usize> {
    Set::new(
        |f: usize|
            exists|k: int|
                0 <= k < c.final_states.len() && index_of(c.states@, #[trigger] c.final_states[k]@)
                    == Some(f),
    )
}

/// The parts built from `c` fit together: the table is square, with one
/// row for each declared state, and the initial and final states are states
/// of it.
pub open spec fn parts_in_order(c: &FAConfig) -> bool {
    &&& is_square(built_table(c))
    &&& built_table(c).len() == c.states.len()
    &&& built_initial(c) < c.states.len()
    &&& forall|f: usize| built_finals(c).contains(f) ==> f < c.states.len()
}

/// Resolves the final states, or reports the first that is not declared.
pub fn resolve_finals(config: &FAConfig) -> (res: Result<HashSet<usize>, ConfigError>)
    ensures
        match res {
            Ok(finals) => {
                &&& forall|k: int| !unknown_final(config, k)
                &&& finals@ == built_finals(config)
            },
            Err(e) => {
                &&& exists|k: int| unknown_final(config, k)
                &&& e == ConfigError::UnknownFinalState(
                    config.final_states[first_unknown_final(config)],
                )
            },
        },
{
    let mut finals: HashSet<usize> = HashSet::new();
    let mut i: usize = 0;
    while i < config.final_states.len()
        invariant
            i <= config.final_states.len(),
            forall|k: int| 0 <= k < i ==> !unknown_final(config, k),
            forall|f: usize|
                finals@.contains(f) <==> exists|k: int|
                    0 <= k < i && index_of(config.states@, #[trigger] config.final_states[k]@)
                        == Some(f),
        decreases config.final_states.len() - i,
    {
        match find_state(&config.states, &config.final_states[i]) {
            Some(f) => {
                finals.insert(f);
            },
            None => {
                assert(unknown_final(config, i as int));
                return Err(ConfigError::UnknownFinalState(config.final_states[i].clone()));
            },
        }
        i += 1;
    }
    assert(finals@ =~= built_finals(config));
    Ok(finals)
}

/// Allocates the table of `n` states without any edge.
pub fn new_table(n: usize) -> (table: Vec<Vec<Vec<char>>>)
    ensures
        table_view(&table) == empty_table(n as nat),
{
    let mut table: Vec<Vec<Vec<char>>> = Vec::new();
    let mut i: usize = 0;
    while i < n
        invariant
            i <= n,
            table@.len() == i,
            forall|r: int| 0 <= r < i ==> (#[trigger] table@[r])@.len() == n,
            forall|r: int, s: int|
                0 <= r < i && 0 <= s < n ==> (#[trigger] table@[r]@[s])@.len() == 0,
        decreases n - i,
    {
        let mut row: Vec<Vec<char>> = Vec::new();
        let mut j: usize = 0;
        while j < n
            invariant
                j <= n,
                row@.len() == j,
                forall|s: int| 0 <= s < j ==> (#[trigger] row@[s])@.len() == 0,
            decreases n - j,
        {
            row.push(Vec::new());
            j += 1;
        }
        table.push(row);
        i += 1;
    }
    assert(table_view(&table) =~~= empty_table(n as nat));
    table
}

/// Validates the transition at position `k` and resolves it to the cell and
/// the symbol that it adds.
pub fn check_transition(config: &FAConfig, allow_null: bool, k: usize) -> (res: Result<
    (usize, usize, char),
    ConfigError,
>)
    requires
        k < config.transitions.len(),
    ensures
        match res {
            Ok((from, to, symbol)) => {
                let t = config.transitions[k as int];
                &&& transition_error(config, allow_null, k as int) is None
                &&& index_of(config.states@, t.from@) == Some(from)
                &&& index_of(config.states@, t.to@) == Some(to)
                &&& symbol == transition_symbol(t)
            },
            Err(e) => transition_error(config, allow_null, k as int) == Some(e),
        },
{
    let t = &config.transitions[k];
    let ordinal: usize = k + 1;
    let symbol = match &t.on {
        Some(on) => {
            if !alphabet_contains(&config.alphabet, on) {
                return Err(ConfigError::SymbolNotInAlphabet(on.clone(), ordinal));
            }
            on.as_str().get_char(0)
        },
        None => {
            if !allow_null {
                return Err(ConfigError::NullTransitionNotAllowed(ordinal));
            }
            EPSILON
        },
    };
    let from = match find_state(&config.states, &t.from) {
        Some(from) => from,
        None => {
            return Err(ConfigError::UnknownTransitionState(t.from.clone(), ordinal));
        },
    };
    let to = match find_state(&config.states, &t.to) {
        Some(to) => to,
        None => {
            return Err(ConfigError::UnknownTransitionState(t.to.clone(), ordinal));
        },
    };
    Ok((from, to, symbol))
}

/// Adding an edge between two states of a square table keeps it square.
pub proof fn lemma_add_edge_square(t: Table, from: int, to: int, c: char)
    requires
        is_square(t),
        0 <= from < t.len(),
        0 <= to < t.len(),
    ensures
        is_square(add_edge(t, from, to, c)),
        add_edge(t, from, to, c).len() == t.len(),
{
    let u = add_edge(t, from, to, c);
    assert forall|i: int| 0 <= i < u.len() implies (#[trigger] u[i]).len() == u.len() by {
        assert(t[i].len() == t.len());
    }
}

/// Builds the table of a description, or reports its first refused
/// transition.
pub fn fill_table(config: &FAConfig, allow_null: bool) -> (res: Result<
    Vec<Vec<Vec<char>>>,
    ConfigError,
>)
    ensures
        match res {
            Ok(table) => {
                &&& forall|k: int| !bad_transition(config, allow_null, k)
                &&& table_view(&table) == built_table(config)
            },
            Err(e) => {
                &&& exists|k: int| bad_transition(config, allow_null, k)
                &&& Some(e) == transition_error(
                    config,
                    allow_null,
                    first_bad_transition(config, allow_null),
                )
            },
        },
{
    let n = config.states.len();
    let mut table = new_table(n);
    let mut k: usize = 0;
    while k < config.transitions.len()
        invariant
            k <= config.transitions.len(),
            n == config.states.len(),
            forall|j: int| 0 <= j < k ==> !bad_transition(config, allow_null, j),
            table_view(&table) == table_after(config, k as nat),
            is_square(table_after(config, k as nat)),
            table_after(config, k as nat).len() == n,
        decreases config.transitions.len() - k,
    {
        match check_transition(config, allow_null, k) {
            Ok((from, to, symbol)) => {
                proof {
                    let t = config.transitions[k as int];
                    lemma_index_of(config.states@, t.from@);
                    lemma_index_of(config.states@, t.to@);
                    lemma_add_edge_square(
                        table_after(config, k as nat),
                        from as int,
                        to as int,
                        symbol,
                    );
                }
                let ghost before = table_view(&table);
                assert(before[from as int].len() == n);
                table[from][to].push(symbol);
                assert(table_view(&table) =~~= add_edge(before, from as int, to as int, symbol));
            },
            Err(e) => {
                assert(bad_transition(config, allow_null, k as int));
                return Err(e);
            },
        }
        k += 1;
    }
    Ok(table)
}

/// Validates a description and builds the initial state, the final states
/// and the table of the automaton that it describes.
pub fn build(config: &FAConfig, allow_null: bool) -> (res: Result<
    (usize, HashSet<usize>, Vec<Vec<Vec<char>>>),
    ConfigError,
>)
    ensures
        match res {
            Ok((initial, finals, table)) => {
                &&& build_error(config, allow_null) is None
                &&& initial == built_initial(config)
                &&& finals@ == built_finals(config)
                &&& table_view(&table) == built_table(config)
                &&& parts_in_order(config)
            },
            Err(e) => build_error(config, allow_null) == Some(e),
        },
{
    if allow_null && alphabet_has_marker(&config.alphabet) {
        return Err(ConfigError::ReservedSymbolInAlphabet);
    }
    let initial = match find_state(&config.states, &config.initial_state) {
        Some(initial) => initial,
        None => {
            return Err(ConfigError::UnknownInitialState);
        },
    };
    let finals = match resolve_finals(config) {
        Ok(finals) => finals,
        Err(e) => {
            return Err(e);
        },
    };
    let table = match fill_table(config, allow_null) {
        Ok(table) => table,
        Err(e) => {
            return Err(e);
        },
    };
    proof {
        lemma_parts_in_order(config, allow_null);
    }
    Ok((initial, finals, table))
}

/// The transition at position `k` adds `symbol` to cell `(from, to)`.
pub open spec fn declares(c: &FAConfig, k: int, from: usize, to: usize, symbol: char) -> bool {
    &&& 0 <= k < c.transitions.len()
    &&& index_of(c.states@, c.transitions[k].from@) == Some(from)
    &&& index_of(c.states@, c.transitions[k].to@) == Some(to)
    &&& transition_symbol(c.transitions[k]) == symbol
}

/// After the first `m` transitions went in, none of them refused, the table
/// is square and holds the edges that they declare, and no others.
pub proof fn lemma_table_after_edges(
    c: &FAConfig,
    allow_null: bool,
    m: nat,
    from: usize,
    to: usize,
    symbol: char,
)
    requires
        m <= c.transitions.len(),
        forall|k: int| 0 <= k < m ==> !bad_transition(c, allow_null, k),
    ensures
        is_square(table_after(c, m)),
        table_after(c, m).len() == c.states.len(),
        labeled(table_after(c, m), from, to, symbol) <==> exists|k: int|
            k < m && #[trigger] declares(c, k, from, to, symbol),
    decreases m,
{
    if m > 0 {
        let k = m - 1;
        lemma_table_after_edges(c, allow_null, k as nat, from, to, symbol);
        let t = c.transitions[k];
        assert(!bad_transition(c, allow_null, k));
        lemma_index_of(c.states@, t.from@);
        lemma_index_of(c.states@, t.to@);
        let y = index_of(c.states@, t.from@)->0;
        let x = index_of(c.states@, t.to@)->0;
        let before = table_after(c, k as nat);
        let after = table_after(c, m);
        lemma_add_edge_square(before, y as int, x as int, transition_symbol(t));
        assert(before[y as int].len() == before.len());
        if from < after.len() && to < after.len() {
            assert(before[from as int].len() == before.len());
            if from == y && to == x {
                lemma_seq_contains_after_push(
                    before[y as int][x as int],
                    transition_symbol(t),
                    symbol,
                );
            } else {
                assert(after[from as int][to as int] == before[from as int][to as int]);
            }
        }
        if labeled(after, from, to, symbol) && !labeled(before, from, to, symbol) {
            assert(declares(c, k, from, to, symbol));
        }
        if exists|j: int| j < m && #[trigger] declares(c, j, from, to, symbol) {
            let j = choose|j: int| j < m && #[trigger] declares(c, j, from, to, symbol);
            if j == k {
                assert(labeled(after, from, to, symbol));
            }
        }
    } else {
        assert(!labeled(table_after(c, m), from, to, symbol)) by {
            if from < c.states.len() && to < c.states.len() {
                assert(table_after(c, m)[from as int][to as int] =~= Seq::<char>::empty());
            }
        }
    }
}

/// The table built from a description that is not refused holds the edges
/// that its transitions declare, and no others.
pub proof fn lemma_built_table_edges(
    c: &FAConfig,
    allow_null: bool,
    from: usize,
    to: usize,
    symbol: char,
)
    requires
        build_error(c, allow_null) is None,
    ensures
        labeled(built_table(c), from, to, symbol) <==> exists|k: int| #[trigger]
            declares(c, k, from, to, symbol),
{
    assert forall|k: int| 0 <= k < c.transitions.len() implies !bad_transition(
        c,
        allow_null,
        k,
    ) by {
        if bad_transition(c, allow_null, k) {
            lemma_first_bad_transition(c, allow_null, k);
        }
    }
    lemma_table_after_edges(c, allow_null, c.transitions.len() as nat, from, to, symbol);
}

/// The parts built from a description that is not refused fit together.
pub proof fn lemma_parts_in_order(c: &FAConfig, allow_null: bool)
    requires
        build_error(c, allow_null) is None,
    ensures
        parts_in_order(c),
{
    assert forall|k: int| 0 <= k < c.transitions.len() implies !bad_transition(
        c,
        allow_null,
        k,
    ) by {
        if bad_transition(c, allow_null, k) {
            lemma_first_bad_transition(c, allow_null, k);
        }
    }
    lemma_table_after_edges(c, allow_null, c.transitions.len() as nat, 0, 0, EPSILON);
    lemma_index_of(c.states@, c.initial_state@);
    assert forall|f: usize| built_finals(c).contains(f) implies f < c.states.len() by {
        let k = choose|k: int|
            0 <= k < c.final_states.len() && index_of(c.states@, #[trigger] c.final_states[k]@)
                == Some(f);
        lemma_index_of(c.states@, c.final_states[k]@);
    }
}

/// Where a transition is refused, one is the first to be refused.
pub proof fn lemma_first_bad_transition(c: &FAConfig, allow_null: bool, k: int)
    requires
        bad_transition(c, allow_null, k),
    ensures
        bad_transition(c, allow_null, first_bad_transition(c, allow_null)),
        first_bad_transition(c, allow_null) <= k,
        forall|j: int|
            0 <= j < first_bad_transition(c, allow_null) ==> !bad_transition(c, allow_null, j),
    decreases k,
{
    if exists|j: int| 0 <= j < k && bad_transition(c, allow_null, j) {
        let j = choose|j: int| 0 <= j < k && bad_transition(c, allow_null, j);
        lemma_first_bad_transition(c, allow_null, j);
    } else {
        assert(bad_transition(c, allow_null, k) && forall|j: int|
            0 <= j < k ==> !bad_transition(c, allow_null, j));
        let m = first_bad_transition(c, allow_null);
        if m > k {
            assert(!bad_transition(c, allow_null, k));
        }
    }
}

/// A description whose initial state is not declared is refused for that
/// reason, unless the null marker in the alphabet is to be reported first.
pub proof fn lemma_unknown_initial_refused(c: &FAConfig, allow_null: bool)
    requires
        index_of(c.states@, c.initial_state@) is None,
        !(allow_null && has_marker(c.alphabet@)),
    ensures
        build_error(c, allow_null) == Some(ConfigError::UnknownInitialState),
{
}

/// A description with a null transition is refused where null transitions
/// are not allowed.
pub proof fn lemma_null_transition_refused(c: &FAConfig, k: int)
    requires
        0 <= k < c.transitions.len(),
        c.transitions[k].on is None,
    ensures
        build_error(c, false) is Some,
{
    assert(bad_transition(c, false, k));
    lemma_first_bad_transition(c, false, k);
}

/// Where null transitions are not allowed and nothing before the first of
/// them is refused, the description is refused for that transition, named
/// by its ordinal.
pub proof fn lemma_first_null_transition_reported(c: &FAConfig, k: int)
    requires
        0 <= k < c.transitions.len(),
        c.transitions[k].on is None,
        index_of(c.states@, c.initial_state@) is Some,
        forall|j: int| !unknown_final(c, j),
        forall|j: int| 0 <= j < k ==> !bad_transition(c, false, j),
    ensures
        build_error(c, false) == Some(ConfigError::NullTransitionNotAllowed((k + 1) as usize)),
{
    assert(bad_transition(c, false, k));
    lemma_first_bad_transition(c, false, k);
}

/// A description with a transition labeled by a symbol that the alphabet
/// does not list is refused.
pub proof fn lemma_symbol_outside_alphabet_refused(c: &FAConfig, allow_null: bool, k: int)
    requires
        0 <= k < c.transitions.len(),
        c.transitions[k].on matches Some(on) && !in_alphabet(c.alphabet@, on@),
    ensures
        build_error(c, allow_null) is Some,
{
    assert(bad_transition(c, allow_null, k));
    lemma_first_bad_transition(c, allow_null, k);
}

/// An alphabet that lists the null marker is refused where null
/// transitions are allowed.
pub proof fn lemma_marker_refused(c: &FAConfig)
    requires
        has_marker(c.alphabet@),
    ensures
        build_error(c, true) == Some(ConfigError::ReservedSymbolInAlphabet),
{
}

} // verus!
