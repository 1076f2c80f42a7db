//! Non-deterministic automata with null transitions, and two ways to
//! evaluate them: exhaustive backtracking and simulation of the set of
//! current states.

use vstd::prelude::*;
use std::collections::{HashMap, HashSet};
use crate::builder::{build, build_error, built_finals, built_initial, built_table};
use crate::config::{ConfigError, FAConfig, ReadFAConfig};
use crate::semantics::{
    accepts, accepts_strictly, accepts_strictly_within, branch_accepts, closure,
    lemma_bounded_set, lemma_branches, lemma_closure_extends, lemma_closure_idempotent,
    lemma_closure_in_range, lemma_closure_least, lemma_fuel_suffices_to_accept,
    lemma_null_reach_extend, lemma_states_after_of_closure, null_reach, reads, states_after,
    step,
    strict_run_within,
};
use crate::table::{cell_contains, chars_of, is_square, labeled, table_view, Table, EPSILON};
use crate::traits::Acceptor;

verus! {

broadcast use vstd::std_specs::hash::group_hash_axioms;

/// A non-deterministic finite automaton. A cell of `transitions` that holds
/// the null marker stands for a null transition.
#[derive(Debug)]
pub struct NFA {
    /// The name of each state, by index.
    pub states: HashMap<usize, String>,
    pub initial_state: usize,
    pub final_states: HashSet<usize>,
    /// Cell `(i, j)` holds the symbols that take state `i` to state `j`.
    pub transitions: Vec<Vec<Vec<char>>>,
}

impl NFA {
    /// The model of the transition table.
    pub open spec fn table(&self) -> Table {
        table_view(&self.transitions)
    }

    /// The table is square and the initial and final states are states of
    /// it.
    pub open spec fn well_formed(&self) -> bool {
        &&& is_square(self.table())
        &&& self.initial_state < self.transitions.len()
        &&& forall|f: usize| self.final_states@.contains(f) ==> f < self.transitions.len()
    }

    /// Puts an automaton together from its parts, as they are.
    pub fn new(
        states: HashMap<usize, String>,
        initial_state: usize,
        final_states: HashSet<usize>,
        transitions: Vec<Vec<Vec<char>>>,
    ) -> (nfa: Self)
        ensures
            nfa.states == states,
            nfa.initial_state == initial_state,
            nfa.final_states == final_states,
            nfa.transitions == transitions,
    {
        Self { states, initial_state, final_states, transitions }
    }

    /// Tells whether the automaton is well formed, for callers that put one
    /// together by hand.
    pub fn is_well_formed(&self) -> (ok: bool)
        ensures
            ok == self.well_formed(),
    {
        let n = self.transitions.len();
        let ghost t = self.table();
        if self.initial_state >= n {
            return false;
        }
        let mut i: usize = 0;
        while i < n
            invariant
                i <= n,
                n == self.transitions.len(),
                t == self.table(),
                forall|r: int| 0 <= r < i ==> (#[trigger] t[r]).len() == n,
            decreases n - i,
        {
            if self.transitions[i].len() != n {
                assert(t[i as int].len() != t.len());
                return false;
            }
            i += 1;
        }
        for f in it: self.final_states.iter()
            invariant
                n == self.transitions.len(),
                is_square(self.table()),
                self.initial_state < n,
                it.seq().unref().to_set() == self.final_states@,
                forall|k: int| 0 <= k < it.index() ==> *(#[trigger] it.seq()[k]) < n,
                it.index() == it.seq().len() ==> forall|g: usize|
                    self.final_states@.contains(g) ==> g < n,
        {
            if *f >= n {
                proof {
                    assert(it.seq().unref()[it.index()] == *f);
                    assert(it.seq().unref().to_set().contains(*f));
                }
                return false;
            }
            proof {
                assert forall|g: usize| self.final_states@.contains(g) && it.index() + 1
                    == it.seq().len() implies g < n by {
                    let k = choose|k: int|
                        0 <= k < it.seq().unref().len() && it.seq().unref()[k] == g;
                    assert(*it.seq()[k] < n);
                }
            }
        }
        true
    }
}

/// The closure of a set of states under null transitions.
pub fn null_closure(nfa: &NFA, current_states: HashSet<usize>) -> (closed: HashSet<usize>)
    requires
        nfa.well_formed(),
        forall|s: usize| current_states@.contains(s) ==> s < nfa.transitions.len(),
    ensures
        closed@ == closure(nfa.table(), current_states@),
{
    let n = nfa.transitions.len();
    let ghost t = nfa.table();
    let ghost start = current_states@;
    let mut closed: HashSet<usize> = HashSet::new();
    let mut pending: Vec<usize> = Vec::new();
    let mut i: usize = 0;
    while i < n
        invariant
            i <= n,
            start == current_states@,
            forall|s: usize| start.contains(s) ==> s < n,
            forall|a: usize|
                #![trigger closed@.contains(a)]
                #![trigger start.contains(a)]
                closed@.contains(a) <==> start.contains(a) && a < i,
            forall|a: usize| closed@.contains(a) ==> pending@.contains(a),
            forall|k: int| 0 <= k < pending.len() ==> closed@.contains(#[trigger] pending@[k]),
        decreases n - i,
    {
        let listed = current_states.contains(&i);
        assert(listed == start.contains(i));
        if listed {
            closed.insert(i);
            let ghost before = pending@;
            pending.push(i);
            assert(pending@[before.len() as int] == i);
            assert forall|a: usize| closed@.contains(a) implies pending@.contains(a) by {
                if a != i {
                    let k = choose|k: int| 0 <= k < before.len() && before[k] == a;
                    assert(pending@[k] == a);
                }
            }
        }
        i += 1;
    }
    proof {
        assert(closed@ =~= start);
        lemma_closure_extends(t, start);
    }
    while pending.len() > 0
        invariant
            nfa.well_formed(),
            n == nfa.transitions.len(),
            t == nfa.table(),
            start.subset_of(closed@),
            closed@.subset_of(closure(t, start)),
            forall|a: usize| closed@.contains(a) ==> a < n,
            forall|k: int| 0 <= k < pending.len() ==> closed@.contains(#[trigger] pending@[k]),
            forall|a: usize, b: usize|
                closed@.contains(a) && !pending@.contains(a) && #[trigger] labeled(t, a, b, EPSILON)
                    ==> closed@.contains(b),
        decreases n - closed@.len(), pending.len(),
    {
        let ghost pending_full = pending@;
        let s = pending.pop().unwrap();
        let ghost closed_before = closed@;
        let ghost pending_before = pending@;
        proof {
            lemma_bounded_set(closed@, n as nat);
            assert(pending_full[pending_full.len() - 1] == s);
            assert forall|a: usize| pending_full.contains(a) implies a == s
                || pending_before.contains(a) by {
                let k = choose|k: int| 0 <= k < pending_full.len() && pending_full[k] == a;
                if k < pending_before.len() {
                    assert(pending_before[k] == a);
                }
            }
        }
        let mut j: usize = 0;
        while j < n
            invariant
                j <= n,
                s < n,
                nfa.well_formed(),
                n == nfa.transitions.len(),
                t == nfa.table(),
                closed@.contains(s),
                start.subset_of(closed@),
                closed@.subset_of(closure(t, start)),
                forall|a: usize| closed@.contains(a) ==> a < n,
                forall|k: int| 0 <= k < pending.len() ==> closed@.contains(#[trigger] pending@[k]),
                forall|a: usize, b: usize|
                    closed@.contains(a) && !pending@.contains(a) && a != s && #[trigger] labeled(
                        t,
                        a,
                        b,
                        EPSILON,
                    ) ==> closed@.contains(b),
                forall|b: usize|
                    b < j && #[trigger] labeled(t, s, b, EPSILON) ==> closed@.contains(b),
                closed_before.finite(),
                closed_before.len() <= n,
                closed@.finite(),
                closed@.len() <= n,
                (closed@ == closed_before && pending@ == pending_before) || closed@.len()
                    > closed_before.len(),
            decreases n - j,
        {
            assert(t[s as int].len() == n);
            if cell_contains(&nfa.transitions[s][j], EPSILON) && !closed.contains(&j) {
                let ghost pending_old = pending@;
                closed.insert(j);
                pending.push(j);
                proof {
                    assert(labeled(t, s, j, EPSILON));
                    assert(pending@[pending_old.len() as int] == j);
                    assert(pending@.contains(j));
                    assert forall|a: usize| pending_old.contains(a) implies pending@.contains(
                        a,
                    ) by {
                        let k = choose|k: int| 0 <= k < pending_old.len() && pending_old[k] == a;
                        assert(pending@[k] == a);
                    }
                    let from = choose|from: usize|
                        start.contains(from) && #[trigger] null_reach(t, from, s);
                    lemma_null_reach_extend(t, from, s, j);
                    assert(closure(t, start).contains(j));
                    lemma_bounded_set(closed@, n as nat);
                }
            }
            j += 1;
        }
        proof {
            assert forall|a: usize, b: usize|
                closed@.contains(a) && !pending@.contains(a) && #[trigger] labeled(
                    t,
                    a,
                    b,
                    EPSILON,
                ) implies closed@.contains(b) by {
                if a == s {
                    assert(b < n);
                }
            }
        }
    }
    proof {
        lemma_closure_least(t, start, closed@);
        assert(closed@ =~= closure(t, start));
    }
    closed
}

/// The states that the automaton may be in after it read `current_char`
/// from a state of `current_states`: the closure is taken both before and
/// after the symbol. No state is left where no edge is labeled with the
/// character, or where the character is the null marker, which is no
/// symbol.
pub fn current_states_after_consuming_char(
    nfa: &NFA,
    current_states: HashSet<usize>,
    current_char: char,
) -> (next: HashSet<usize>)
    requires
        nfa.well_formed(),
        forall|s: usize| current_states@.contains(s) ==> s < nfa.transitions.len(),
    ensures
        next@ == closure(
            nfa.table(),
            step(nfa.table(), closure(nfa.table(), current_states@), current_char),
        ),
{
    let n = nfa.transitions.len();
    let ghost t = nfa.table();
    let closed = null_closure(nfa, current_states);
    let mut reached: HashSet<usize> = HashSet::new();
    let mut s: usize = 0;
    while s < n
        invariant
            s <= n,
            nfa.well_formed(),
            n == nfa.transitions.len(),
            t == nfa.table(),
            forall|b: usize|
                reached@.contains(b) <==> exists|a: usize|
                    a < s && closed@.contains(a) && #[trigger] reads(t, a, b, current_char),
        decreases n - s,
    {
        if closed.contains(&s) {
            let mut j: usize = 0;
            while j < n
                invariant
                    j <= n,
                    s < n,
                    nfa.well_formed(),
                    n == nfa.transitions.len(),
                    t == nfa.table(),
                    closed@.contains(s),
                    forall|b: usize|
                        reached@.contains(b) <==> (exists|a: usize|
                            a < s && closed@.contains(a) && #[trigger] reads(
                                t,
                                a,
                                b,
                                current_char,
                            )) || (b < j && reads(t, s, b, current_char)),
                decreases n - j,
            {
                assert(t[s as int].len() == n);
                if current_char != EPSILON && cell_contains(&nfa.transitions[s][j], current_char) {
                    reached.insert(j);
                }
                j += 1;
            }
        }
        s += 1;
    }
    assert(reached@ =~= step(t, closed@, current_char));
    null_closure(nfa, reached)
}

/// Decides by simulation of the set of current states whether the
/// automaton recognizes `s`: the set starts as the closure of the initial
/// state, each character moves it on, and `s` is accepted where a final
/// state is in it at the end.
pub fn acceptor(nfa: &NFA, s: String) -> (accepted: bool)
    requires
        nfa.well_formed(),
    ensures
        accepted == accepts(nfa.table(), nfa.initial_state, nfa.final_states@, s@),
{
    let n = nfa.transitions.len();
    let ghost t = nfa.table();
    let input = chars_of(s.as_str());
    let mut start: HashSet<usize> = HashSet::new();
    start.insert(nfa.initial_state);
    assert(start@ =~= set![nfa.initial_state]);
    let mut current = null_closure(nfa, start);
    proof {
        lemma_closure_in_range(t, start@);
        lemma_closure_idempotent(t, start@);
        lemma_states_after_of_closure(t, start@, input@);
        assert(input@.skip(0) =~= input@);
    }
    let mut i: usize = 0;
    while i < input.len()
        invariant
            i <= input.len(),
            nfa.well_formed(),
            n == nfa.transitions.len(),
            t == nfa.table(),
            forall|a: usize| current@.contains(a) ==> a < n,
            closure(t, current@) == current@,
            states_after(t, set![nfa.initial_state], input@) == states_after(
                t,
                current@,
                input@.skip(i as int),
            ),
        decreases input.len() - i,
    {
        let ghost before = current@;
        let ghost rest = input@.skip(i as int);
        current = current_states_after_consuming_char(nfa, current, input[i]);
        proof {
            let stepped = step(t, before, input@[i as int]);
            assert(rest[0] == input@[i as int]);
            assert(rest.drop_first() =~= input@.skip(i + 1));
            assert forall|a: usize| stepped.contains(a) implies a < n by {
                let from = choose|from: usize|
                    before.contains(from) && #[trigger] reads(t, from, a, input@[i as int]);
                assert(t[from as int].len() == n);
            }
            lemma_closure_in_range(t, stepped);
            lemma_closure_idempotent(t, stepped);
            lemma_states_after_of_closure(t, stepped, input@.skip(i + 1));
        }
        i += 1;
    }
    assert(input@.skip(input.len() as int).len() == 0);
    assert(states_after(t, set![nfa.initial_state], s@) == current@);
    let mut f: usize = 0;
    while f < n
        invariant
            f <= n,
            nfa.well_formed(),
            n == nfa.transitions.len(),
            t == nfa.table(),
            states_after(t, set![nfa.initial_state], s@) == current@,
            forall|g: usize| g < f ==> !(current@.contains(g) && nfa.final_states@.contains(g)),
        decreases n - f,
    {
        if current.contains(&f) && nfa.final_states.contains(&f) {
            return true;
        }
        f += 1;
    }
    false
}

/// A branch of the search that is still to be tried: a state, a position
/// in the input, and the number of null transitions that may follow in a
/// row before the next symbol.
type Branch = (usize, usize, usize);

/// The branch leads to acceptance.
spec fn branch_found(t: Table, finals: Set<usize>, input: Seq<char>, b: Branch) -> bool {
    accepts_strictly_within(t, b.0, finals, input.skip(b.1 as int), b.2 as nat)
}

/// One of the branches leads to acceptance.
spec fn some_found(
    t: Table,
    finals: Set<usize>,
    input: Seq<char>,
    pending: Seq<Branch>,
) -> bool {
    exists|k: int| 0 <= k < pending.len() && #[trigger] branch_found(t, finals, input, pending[k])
}

/// A bound on the number of branches that the search tries below one with
/// `left` characters to read and `fuel` null transitions to take, itself
/// counted, in an automaton of `n` states.
spec fn work(left: nat, fuel: nat, n: nat) -> nat
    decreases left, fuel,
{
    if left == 0 {
        1
    } else if fuel == 0 {
        1 + n * work((left - 1) as nat, n, n)
    } else {
        1 + n * work((left - 1) as nat, n, n) + n * work(left, (fuel - 1) as nat, n)
    }
}

/// The bound for all the branches that are still to be tried.
spec fn total_work(pending: Seq<Branch>, len: nat, n: nat) -> nat
    decreases pending.len(),
{
    if pending.len() == 0 {
        0
    } else {
        total_work(pending.drop_last(), len, n) + work(
            (len - pending.last().1) as nat,
            pending.last().2 as nat,
            n,
        )
    }
}

/// A branch added to those to be tried adds its own outcome and its own
/// bound.
proof fn lemma_branch_added(
    t: Table,
    finals: Set<usize>,
    input: Seq<char>,
    pending: Seq<Branch>,
    b: Branch,
    n: nat,
)
    ensures
        some_found(t, finals, input, pending.push(b)) <==> some_found(t, finals, input, pending)
            || branch_found(t, finals, input, b),
        total_work(pending.push(b), input.len(), n) == total_work(pending, input.len(), n) + work(
            (input.len() - b.1) as nat,
            b.2 as nat,
            n,
        ),
{
    let more = pending.push(b);
    assert(more.drop_last() =~= pending);
    assert(more.last() == b);
    if some_found(t, finals, input, more) {
        let k = choose|k: int|
            0 <= k < more.len() && #[trigger] branch_found(t, finals, input, more[k]);
        if k < pending.len() {
            assert(branch_found(t, finals, input, pending[k]));
        }
    }
    if some_found(t, finals, input, pending) {
        let k = choose|k: int|
            0 <= k < pending.len() && #[trigger] branch_found(t, finals, input, pending[k]);
        assert(branch_found(t, finals, input, more[k]));
    }
    if branch_found(t, finals, input, b) {
        assert(branch_found(t, finals, input, more[pending.len() as int]));
    }
}

/// Decides by exhaustive search whether a run over the characters of
/// `chars` from position `current_char` on, started in `current_state` and
/// ended with the last character, ends in a final state. Null transitions
/// are followed before each character, none after the last. A character
/// that labels no edge ends the branch, and so does the null marker, which
/// is no symbol.
///
/// The search tries every branch and may take time exponential in the
/// length of the input. It follows at most as many null transitions in a
/// row as the automaton has states, so that a cycle of them cannot trap
/// it; no run is lost by that. The branches still to be tried are kept in
/// a vector, so the search does not recurse, whatever the input.
pub fn _backtrack(
    nfa: &NFA,
    current_state: usize,
    current_char: usize,
    chars: &Vec<char>,
) -> (accepted: bool)
    requires
        nfa.well_formed(),
        current_state < nfa.transitions.len(),
        current_char <= chars.len(),
    ensures
        accepted == accepts_strictly(
            nfa.table(),
            current_state,
            nfa.final_states@,
            chars@.skip(current_char as int),
        ),
{
    let n = nfa.transitions.len();
    let ghost t = nfa.table();
    let ghost finals = nfa.final_states@;
    let ghost goal = accepts_strictly(t, current_state, finals, chars@.skip(current_char as int));
    let mut pending: Vec<Branch> = Vec::new();
    pending.push((current_state, current_char, n));
    let mut accepted = false;
    proof {
        lemma_fuel_suffices_to_accept(t, current_state, finals, chars@.skip(current_char as int));
        let first = (current_state, current_char, n);
        lemma_branch_added(t, finals, chars@, Seq::<Branch>::empty(), first, n as nat);
        assert(pending@ =~= Seq::<Branch>::empty().push(first));
        assert(!some_found(t, finals, chars@, Seq::<Branch>::empty()));
    }
    while pending.len() > 0
        invariant
            nfa.well_formed(),
            n == nfa.transitions.len(),
            t == nfa.table(),
            finals == nfa.final_states@,
            forall|k: int|
                0 <= k < pending.len() ==> (#[trigger] pending@[k]).0 < n && pending@[k].1
                    <= chars.len(),
            goal <==> accepted || some_found(t, finals, chars@, pending@),
        decreases total_work(pending@, chars@.len(), n as nat),
    {
        let ghost before = pending@;
        let (state, position, fuel) = pending.pop().unwrap();
        let ghost rest = pending@;
        let ghost w = chars@.skip(position as int);
        proof {
            assert(before =~= rest.push((state, position, fuel)));
            lemma_branch_added(t, finals, chars@, rest, (state, position, fuel), n as nat);
        }
        if position == chars.len() {
            let is_final = nfa.final_states.contains(&state);
            assert(is_final ==> strict_run_within(t, state, w, state, fuel as nat));
            if is_final {
                accepted = true;
            }
        } else {
            let c = chars[position];
            let ghost left = (chars.len() - position) as nat;
            let ghost by_symbol = work((left - 1) as nat, n as nat, n as nat);
            let ghost by_null = if fuel > 0 {
                work(left, (fuel - 1) as nat, n as nat)
            } else {
                0
            };
            assert(t[state as int].len() == n);
            assert(w[0] == c);
            let mut idx: usize = 0;
            while idx < n
                invariant
                    idx <= n,
                    nfa.well_formed(),
                    n == nfa.transitions.len(),
                    t == nfa.table(),
                    finals == nfa.final_states@,
                    state < n,
                    position < chars.len(),
                    t[state as int].len() == n,
                    w == chars@.skip(position as int),
                    w.len() > 0,
                    w[0] == c,
                    left == chars.len() - position,
                    by_symbol == work((left - 1) as nat, n as nat, n as nat),
                    by_null == if fuel > 0 {
                        work(left, (fuel - 1) as nat, n as nat)
                    } else {
                        0
                    },
                    forall|k: int|
                        0 <= k < pending.len() ==> (#[trigger] pending@[k]).0 < n && pending@[k].1
                            <= chars.len(),
                    some_found(t, finals, chars@, pending@) <==> some_found(
                        t,
                        finals,
                        chars@,
                        rest,
                    ) || exists|via: usize|
                        via < idx && #[trigger] branch_accepts(
                            t,
                            finals,
                            state,
                            via,
                            w,
                            fuel as nat,
                        ),
                    total_work(pending@, chars@.len(), n as nat) <= total_work(
                        rest,
                        chars@.len(),
                        n as nat,
                    ) + idx * by_symbol + idx * by_null,
                decreases n - idx,
            {
                let ghost found_before = some_found(t, finals, chars@, pending@);
                let ghost tried = pending@;
                assert((idx + 1) * by_symbol == idx * by_symbol + by_symbol) by (nonlinear_arith);
                assert((idx + 1) * by_null == idx * by_null + by_null) by (nonlinear_arith);
                if c != EPSILON && cell_contains(&nfa.transitions[state][idx], c) {
                    proof {
                        lemma_branch_added(
                            t,
                            finals,
                            chars@,
                            pending@,
                            (idx, (position + 1) as usize, n),
                            n as nat,
                        );
                        assert(w.drop_first() =~= chars@.skip(position + 1));
                        lemma_fuel_suffices_to_accept(t, idx, finals, w.drop_first());
                    }
                    pending.push((idx, position + 1, n));
                }
                if fuel > 0 && cell_contains(&nfa.transitions[state][idx], EPSILON) {
                    proof {
                        lemma_branch_added(
                            t,
                            finals,
                            chars@,
                            pending@,
                            (idx, position, (fuel - 1) as usize),
                            n as nat,
                        );
                    }
                    pending.push((idx, position, fuel - 1));
                }
                assert(some_found(t, finals, chars@, pending@) <==> found_before || branch_accepts(
                    t,
                    finals,
                    state,
                    idx,
                    w,
                    fuel as nat,
                ));
                idx += 1;
            }
            proof {
                lemma_branches(t, finals, state, w, fuel as nat);
                assert(branch_found(t, finals, chars@, (state, position, fuel)) <==> exists|
                    via: usize,
                |
                    via < n && #[trigger] branch_accepts(
                        t,
                        finals,
                        state,
                        via,
                        w,
                        fuel as nat,
                    )) by {
                    if exists|via: usize| #[trigger]
                        branch_accepts(t, finals, state, via, w, fuel as nat) {
                        let via = choose|via: usize| #[trigger]
                            branch_accepts(t, finals, state, via, w, fuel as nat);
                        assert(via < n);
                    }
                }
            }
        }
    }
    assert(!some_found(t, finals, chars@, pending@));
    accepted
}

/// The names of the states, by index.
fn name_states(names: &Vec<String>) -> (states: HashMap<usize, String>)
    ensures
        states@ == Map::new(|i: usize| i < names.len(), |i: usize| names[i as int]),
{
    let mut states: HashMap<usize, String> = HashMap::new();
    let mut i: usize = 0;
    while i < names.len()
        invariant
            i <= names.len(),
            states@ == Map::new(|k: usize| k < i, |k: usize| names[k as int]),
        decreases names.len() - i,
    {
        states.insert(i, names[i].clone());
        assert(states@ =~= Map::new(|k: usize| k < i + 1, |k: usize| names[k as int]));
        i += 1;
    }
    states
}

impl ReadFAConfig for NFA {
    open spec fn refusal(config: &FAConfig) -> Option<ConfigError> {
        build_error(config, true)
    }

    open spec fn built_from(&self, config: &FAConfig) -> bool {
        &&& self.states@ == Map::new(
            |i: usize| i < config.states.len(),
            |i: usize| config.states[i as int],
        )
        &&& self.initial_state == built_initial(config)
        &&& self.final_states@ == built_finals(config)
        &&& self.table() == built_table(config)
    }

    /// Builds the automaton that `config` describes. Null transitions are
    /// allowed; the alphabet may not hold the null marker.
    fn from_config(config: FAConfig) -> (res: Result<Self, ConfigError>)
        ensures
            res matches Ok(nfa) ==> nfa.well_formed(),
    {
        match build(&config, true) {
            Ok((initial_state, final_states, transitions)) => {
                let states = name_states(&config.states);
                Ok(NFA { states, initial_state, final_states, transitions })
            },
            Err(e) => Err(e),
        }
    }
}

impl Acceptor for NFA {
    open spec fn wf(&self) -> bool {
        self.well_formed()
    }

    open spec fn accepts(&self, input: Seq<char>) -> bool {
        accepts(self.table(), self.initial_state, self.final_states@, input)
    }

    /// Decides by simulation of the set of current states.
    fn test_string(&self, s: String) -> (accepted: bool) {
        acceptor(self, s)
    }
}

} // verus!
