//! How the set of current states relates to runs, and when the two
//! evaluation strategies for non-deterministic automata agree.

use vstd::prelude::*;
use crate::semantics::{
    accepts, accepts_strictly, closure, finals_absorb_null, is_null_path, lemma_null_reach_self,
    null_link, null_reach, reads, run, states_after, step, strict_run,
};
use crate::table::{Table, EPSILON};

verus! {

/// Whenever a run over `w` from `initial`, followed by null transitions,
/// ends in a final state, some run over `w` ends in one with its last
/// symbol.
pub open spec fn null_tail_redundant(
    t: Table,
    initial: usize,
    finals: Set<usize>,
    w: Seq<char>,
) -> bool {
    forall|mid: usize, f: usize|
        #[trigger] strict_run(t, initial, w, mid) && #[trigger] null_reach(t, mid, f)
            && finals.contains(f) ==> accepts_strictly(t, initial, finals, w)
}

/// The states that the automaton may be in after it read `w` from a state
/// of `s` are those that a run over `w` from a state of `s` ends in.
pub proof fn lemma_states_after_are_run_ends(t: Table, s: Set<usize>, w: Seq<char>, to: usize)
    ensures
        states_after(t, s, w).contains(to) <==> exists|from: usize|
            s.contains(from) && #[trigger] run(t, from, w, to),
    decreases w.len(),
{
    if w.len() == 0 {
        if closure(t, s).contains(to) {
            let from = choose|from: usize| s.contains(from) && #[trigger] null_reach(t, from, to);
            assert(run(t, from, w, to));
        }
        if exists|from: usize| s.contains(from) && #[trigger] run(t, from, w, to) {
            let from = choose|from: usize| s.contains(from) && #[trigger] run(t, from, w, to);
            assert(null_reach(t, from, to));
        }
    } else {
        let moved = step(t, closure(t, s), w[0]);
        lemma_states_after_are_run_ends(t, moved, w.drop_first(), to);
        if states_after(t, s, w).contains(to) {
            let b = choose|b: usize| moved.contains(b) && #[trigger] run(t, b, w.drop_first(), to);
            let a = choose|a: usize| closure(t, s).contains(a) && #[trigger] reads(t, a, b, w[0]);
            let from = choose|from: usize| s.contains(from) && #[trigger] null_reach(t, from, a);
            assert(run(t, from, w, to));
        }
        if exists|from: usize| s.contains(from) && #[trigger] run(t, from, w, to) {
            let from = choose|from: usize| s.contains(from) && #[trigger] run(t, from, w, to);
            let (a, b) = choose|a: usize, b: usize|
                null_reach(t, from, a) && #[trigger] reads(t, a, b, w[0]) && run(
                    t,
                    b,
                    w.drop_first(),
                    to,
                );
            assert(closure(t, s).contains(a));
            assert(moved.contains(b));
        }
    }
}

/// A run is a run that ends with its last symbol, followed by null
/// transitions.
pub proof fn lemma_run_ends_with_null_tail(t: Table, from: usize, w: Seq<char>, to: usize)
    ensures
        run(t, from, w, to) <==> exists|mid: usize|
            #[trigger] strict_run(t, from, w, mid) && null_reach(t, mid, to),
    decreases w.len(),
{
    if w.len() == 0 {
        assert(strict_run(t, from, w, from));
    } else {
        let rest = w.drop_first();
        if run(t, from, w, to) {
            let (a, b) = choose|a: usize, b: usize|
                null_reach(t, from, a) && #[trigger] reads(t, a, b, w[0]) && run(t, b, rest, to);
            lemma_run_ends_with_null_tail(t, b, rest, to);
            let mid = choose|mid: usize|
                #[trigger] strict_run(t, b, rest, mid) && null_reach(t, mid, to);
            assert(strict_run(t, from, w, mid));
        }
        if exists|mid: usize| #[trigger] strict_run(t, from, w, mid) && null_reach(t, mid, to) {
            let mid = choose|mid: usize|
                #[trigger] strict_run(t, from, w, mid) && null_reach(t, mid, to);
            let (a, b) = choose|a: usize, b: usize|
                null_reach(t, from, a) && #[trigger] reads(t, a, b, w[0]) && strict_run(
                    t,
                    b,
                    rest,
                    mid,
                );
            lemma_run_ends_with_null_tail(t, b, rest, to);
            assert(run(t, b, rest, to));
        }
    }
}

/// The simulation accepts `w` just when a run over `w` from the initial
/// state, followed by null transitions, ends in a final state.
pub proof fn lemma_accepts_by_runs(t: Table, initial: usize, finals: Set<usize>, w: Seq<char>)
    ensures
        accepts(t, initial, finals, w) <==> exists|mid: usize, f: usize|
            #[trigger] strict_run(t, initial, w, mid) && #[trigger] null_reach(t, mid, f)
                && finals.contains(f),
{
    if accepts(t, initial, finals, w) {
        let f = choose|f: usize|
            finals.contains(f) && #[trigger] states_after(t, set![initial], w).contains(f);
        lemma_states_after_are_run_ends(t, set![initial], w, f);
        lemma_run_ends_with_null_tail(t, initial, w, f);
    }
    if exists|mid: usize, f: usize|
        #[trigger] strict_run(t, initial, w, mid) && #[trigger] null_reach(t, mid, f)
            && finals.contains(f) {
        let (mid, f) = choose|mid: usize, f: usize|
            #[trigger] strict_run(t, initial, w, mid) && #[trigger] null_reach(t, mid, f)
                && finals.contains(f);
        lemma_run_ends_with_null_tail(t, initial, w, f);
        assert(set![initial].contains(initial));
        lemma_states_after_are_run_ends(t, set![initial], w, f);
        assert(states_after(t, set![initial], w).contains(f));
    }
}

/// What backtracking accepts, the simulation accepts too.
pub proof fn lemma_backtrack_implies_closure(
    t: Table,
    initial: usize,
    finals: Set<usize>,
    w: Seq<char>,
)
    requires
        accepts_strictly(t, initial, finals, w),
    ensures
        accepts(t, initial, finals, w),
{
    let f = choose|f: usize| finals.contains(f) && #[trigger] strict_run(t, initial, w, f);
    lemma_null_reach_self(t, f);
    lemma_accepts_by_runs(t, initial, finals, w);
}

/// Backtracking and the simulation give the same verdict on `w` wherever
/// no final state is reached by null transitions after the last symbol
/// alone.
pub proof fn lemma_strategies_agree(t: Table, initial: usize, finals: Set<usize>, w: Seq<char>)
    requires
        null_tail_redundant(t, initial, finals, w),
    ensures
        accepts_strictly(t, initial, finals, w) == accepts(t, initial, finals, w),
{
    lemma_accepts_by_runs(t, initial, finals, w);
    if accepts_strictly(t, initial, finals, w) {
        lemma_backtrack_implies_closure(t, initial, finals, w);
    }
}

/// Where a final state is reached by null transitions after the last
/// symbol alone, the simulation accepts and backtracking does not.
pub proof fn lemma_strategies_differ(t: Table, initial: usize, finals: Set<usize>, w: Seq<char>)
    requires
        !null_tail_redundant(t, initial, finals, w),
    ensures
        accepts(t, initial, finals, w),
        !accepts_strictly(t, initial, finals, w),
{
    lemma_accepts_by_runs(t, initial, finals, w);
}

/// Where null transitions lead into final states from final states only,
/// every state of a null path to a final state is final.
proof fn lemma_finals_absorb_path(t: Table, finals: Set<usize>, p: Seq<usize>, i: int)
    requires
        finals_absorb_null(t, finals),
        is_null_path(t, p),
        finals.contains(p.last()),
        0 <= i < p.len(),
    ensures
        finals.contains(p[i]),
    decreases p.len() - i,
{
    if i < p.len() - 1 {
        lemma_finals_absorb_path(t, finals, p, i + 1);
        assert(null_link(t, p, i));
    }
}

/// Where null transitions lead into final states from final states only,
/// backtracking and the simulation give the same verdict on every input.
pub proof fn lemma_strategies_agree_on_absorbing_finals(
    t: Table,
    initial: usize,
    finals: Set<usize>,
    w: Seq<char>,
)
    requires
        finals_absorb_null(t, finals),
    ensures
        accepts_strictly(t, initial, finals, w) == accepts(t, initial, finals, w),
{
    assert forall|mid: usize, f: usize|
        #[trigger] strict_run(t, initial, w, mid) && #[trigger] null_reach(t, mid, f)
            && finals.contains(f) implies accepts_strictly(t, initial, finals, w) by {
        let p = choose|p: Seq<usize>|
            #[trigger] is_null_path(t, p) && p.first() == mid && p.last() == f;
        lemma_finals_absorb_path(t, finals, p, 0);
    }
    lemma_strategies_agree(t, initial, finals, w);
}

/// The states from which null transitions lead to a final state; the final
/// states are among them.
pub open spec fn reaching_finals(t: Table, finals: Set<usize>) -> Set<usize> {
    Set::new(|s: usize| exists|f: usize| finals.contains(f) && #[trigger] null_reach(t, s, f))
}

/// On every input, backtracking towards the states from which null
/// transitions lead to a final state gives the verdict of the simulation.
pub proof fn lemma_backtrack_to_reaching_finals(
    t: Table,
    initial: usize,
    finals: Set<usize>,
    w: Seq<char>,
)
    ensures
        accepts_strictly(t, initial, reaching_finals(t, finals), w) == accepts(
            t,
            initial,
            finals,
            w,
        ),
{
    let reaching = reaching_finals(t, finals);
    lemma_accepts_by_runs(t, initial, finals, w);
    if accepts_strictly(t, initial, reaching, w) {
        let mid = choose|mid: usize|
            reaching.contains(mid) && #[trigger] strict_run(t, initial, w, mid);
        let f = choose|f: usize| finals.contains(f) && #[trigger] null_reach(t, mid, f);
        assert(strict_run(t, initial, w, mid) && null_reach(t, mid, f) && finals.contains(f));
    }
    if accepts(t, initial, finals, w) {
        let (mid, f) = choose|mid: usize, f: usize|
            #[trigger] strict_run(t, initial, w, mid) && #[trigger] null_reach(t, mid, f)
                && finals.contains(f);
        assert(reaching.contains(mid));
    }
}

/// No run passes a character that no edge is read on.
pub proof fn lemma_no_run_over_unread(t: Table, from: usize, w: Seq<char>, to: usize, k: int)
    requires
        0 <= k < w.len(),
        forall|a: usize, b: usize| !reads(t, a, b, w[k]),
    ensures
        !run(t, from, w, to),
        !strict_run(t, from, w, to),
    decreases k,
{
    let rest = w.drop_first();
    if run(t, from, w, to) {
        let (a, b) = choose|a: usize, b: usize|
            null_reach(t, from, a) && #[trigger] reads(t, a, b, w[0]) && run(t, b, rest, to);
        if k > 0 {
            assert(rest[k - 1] == w[k]);
            lemma_no_run_over_unread(t, b, rest, to, k - 1);
        }
    }
    if strict_run(t, from, w, to) {
        let (a, b) = choose|a: usize, b: usize|
            null_reach(t, from, a) && #[trigger] reads(t, a, b, w[0]) && strict_run(
                t,
                b,
                rest,
                to,
            );
        if k > 0 {
            assert(rest[k - 1] == w[k]);
            lemma_no_run_over_unread(t, b, rest, to, k - 1);
        }
    }
}

/// An input with a character that no edge is read on is rejected, by the
/// simulation and by backtracking.
pub proof fn lemma_unread_character_rejects(
    t: Table,
    initial: usize,
    finals: Set<usize>,
    w: Seq<char>,
    k: int,
)
    requires
        0 <= k < w.len(),
        forall|a: usize, b: usize| !reads(t, a, b, w[k]),
    ensures
        !accepts(t, initial, finals, w),
        !accepts_strictly(t, initial, finals, w),
{
    assert forall|f: usize| !strict_run(t, initial, w, f) by {
        lemma_no_run_over_unread(t, initial, w, f, k);
    }
    assert forall|f: usize| !states_after(t, set![initial], w).contains(f) by {
        lemma_states_after_are_run_ends(t, set![initial], w, f);
        assert forall|from: usize| !run(t, from, w, f) by {
            lemma_no_run_over_unread(t, from, w, f, k);
        }
    }
}

/// An input that holds the null marker is rejected: the marker is no
/// symbol, and a null transition consumes none.
pub proof fn lemma_marker_in_input_rejects(
    t: Table,
    initial: usize,
    finals: Set<usize>,
    w: Seq<char>,
)
    requires
        w.contains(EPSILON),
    ensures
        !accepts(t, initial, finals, w),
        !accepts_strictly(t, initial, finals, w),
{
    let k = choose|k: int| 0 <= k < w.len() && w[k] == EPSILON;
    lemma_unread_character_rejects(t, initial, finals, w, k);
}

/// The simulation accepts the empty string just when null transitions lead
/// from the initial state to a final state; none are needed where the
/// initial state is final itself.
pub proof fn lemma_accepts_empty(t: Table, initial: usize, finals: Set<usize>)
    ensures
        accepts(t, initial, finals, Seq::<char>::empty()) <==> exists|f: usize|
            finals.contains(f) && #[trigger] null_reach(t, initial, f),
        finals.contains(initial) ==> accepts(t, initial, finals, Seq::<char>::empty()),
{
    let w = Seq::<char>::empty();
    let reached = states_after(t, set![initial], w);
    if accepts(t, initial, finals, w) {
        let f = choose|f: usize| finals.contains(f) && #[trigger] reached.contains(f);
        let from = choose|from: usize|
            set![initial].contains(from) && #[trigger] null_reach(t, from, f);
        assert(null_reach(t, initial, f));
    }
    if exists|f: usize| finals.contains(f) && #[trigger] null_reach(t, initial, f) {
        let f = choose|f: usize| finals.contains(f) && #[trigger] null_reach(t, initial, f);
        assert(set![initial].contains(initial));
        assert(reached.contains(f));
    }
    if finals.contains(initial) {
        lemma_null_reach_self(t, initial);
    }
}

} // verus!
