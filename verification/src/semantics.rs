//! What a transition table with null transitions accepts: chains of null
//! transitions, the closure of a set of states under them, and runs over an
//! input.
//!
//! A null transition is an edge whose cell holds the null marker. It
//! consumes no input. The marker is no symbol of any alphabet: met in an
//! input, it matches no edge, like any other character that the automaton
//! does not know.

use vstd::prelude::*;
use crate::table::{is_square, labeled, Table, EPSILON};

verus! {

/// State `p[i]` has a null transition to state `p[i + 1]`.
pub open spec fn null_link(t: Table, p: Seq<usize>, i: int) -> bool {
    labeled(t, p[i], p[i + 1], EPSILON)
}

/// `p` is a chain of states, each with a null transition to the next.
pub open spec fn is_null_path(t: Table, p: Seq<usize>) -> bool {
    &&& p.len() > 0
    &&& forall|i: int| 0 <= i < p.len() - 1 ==> #[trigger] null_link(t, p, i)
}

/// `to` is `from` itself or can be reached from it by null transitions alone.
pub open spec fn null_reach(t: Table, from: usize, to: usize) -> bool {
    exists|p: Seq<usize>| #[trigger] is_null_path(t, p) && p.first() == from && p.last() == to
}

/// The states that null transitions reach from a state of `s`; `s` is part
/// of it.
pub open spec fn closure(t: Table, s: Set<usize>) -> Set<usize> {
    Set::new(|to: usize| exists|from: usize| s.contains(from) && #[trigger] null_reach(t, from, to))
}

/// Reading `c` takes state `from` to state `to`: an edge between them is
/// labeled `c`, and `c` is a symbol, not the null marker.
pub open spec fn reads(t: Table, from: usize, to: usize, c: char) -> bool {
    c != EPSILON && labeled(t, from, to, c)
}

/// The states that reading `c` leads to from a state of `s`.
pub open spec fn step(t: Table, s: Set<usize>, c: char) -> Set<usize> {
    Set::new(|to: usize| exists|from: usize| s.contains(from) && #[trigger] reads(t, from, to, c))
}

/// The states that the automaton may be in after it read `w` from a state
/// of `s`, null transitions taken wherever they lead.
pub open spec fn states_after(t: Table, s: Set<usize>, w: Seq<char>) -> Set<usize>
    decreases w.len(),
{
    if w.len() == 0 {
        closure(t, s)
    } else {
        states_after(t, step(t, closure(t, s), w[0]), w.drop_first())
    }
}

/// There is a run over `w` from `from` to `to`: null transitions may come
/// before each symbol and after the last.
pub open spec fn run(t: Table, from: usize, w: Seq<char>, to: usize) -> bool
    decreases w.len(),
{
    if w.len() == 0 {
        null_reach(t, from, to)
    } else {
        exists|a: usize, b: usize|
            null_reach(t, from, a) && #[trigger] reads(t, a, b, w[0]) && run(
                t,
                b,
                w.drop_first(),
                to,
            )
    }
}

/// There is a run over `w` from `from` to `to` that ends with the last
/// symbol: null transitions may come before each symbol only.
pub open spec fn strict_run(t: Table, from: usize, w: Seq<char>, to: usize) -> bool
    decreases w.len(),
{
    if w.len() == 0 {
        from == to
    } else {
        exists|a: usize, b: usize|
            null_reach(t, from, a) && #[trigger] reads(t, a, b, w[0]) && strict_run(
                t,
                b,
                w.drop_first(),
                to,
            )
    }
}

/// As `strict_run`, with at most `fuel` null transitions before the first
/// symbol.
pub open spec fn strict_run_within(
    t: Table,
    from: usize,
    w: Seq<char>,
    to: usize,
    fuel: nat,
) -> bool {
    if w.len() == 0 {
        from == to
    } else {
        exists|p: Seq<usize>, b: usize|
            #[trigger] is_null_path(t, p) && p.first() == from && p.len() <= fuel + 1
                && #[trigger] reads(t, p.last(), b, w[0]) && strict_run(
                t,
                b,
                w.drop_first(),
                to,
            )
    }
}

/// Some run over `w` from the initial state ends in a final state.
pub open spec fn accepts(t: Table, initial: usize, finals: Set<usize>, w: Seq<char>) -> bool {
    exists|f: usize| finals.contains(f) && #[trigger] states_after(t, set![initial], w).contains(f)
}

/// Some run over `w` from `from` that ends with the last symbol ends in a
/// final state.
pub open spec fn accepts_strictly(t: Table, from: usize, finals: Set<usize>, w: Seq<char>) -> bool {
    exists|f: usize| finals.contains(f) && #[trigger] strict_run(t, from, w, f)
}

/// As `accepts_strictly`, with at most `fuel` null transitions before the
/// first symbol.
pub open spec fn accepts_strictly_within(
    t: Table,
    from: usize,
    finals: Set<usize>,
    w: Seq<char>,
    fuel: nat,
) -> bool {
    exists|f: usize| finals.contains(f) && #[trigger] strict_run_within(t, from, w, f, fuel)
}

/// No null transition leads from a state that is not final to a final one.
pub open spec fn finals_absorb_null(t: Table, finals: Set<usize>) -> bool {
    forall|a: usize, b: usize|
        #[trigger] labeled(t, a, b, EPSILON) && finals.contains(b) ==> finals.contains(a)
}

/// Every state reaches itself.
pub proof fn lemma_null_reach_self(t: Table, s: usize)
    ensures
        null_reach(t, s, s),
{
    let p = seq![s];
    assert(is_null_path(t, p));
    assert(p.first() == s && p.last() == s);
}

/// A null transition out of a reached state reaches its destination.
pub proof fn lemma_null_reach_extend(t: Table, a: usize, b: usize, c: usize)
    requires
        null_reach(t, a, b),
        labeled(t, b, c, EPSILON),
    ensures
        null_reach(t, a, c),
{
    let p = choose|p: Seq<usize>| #[trigger] is_null_path(t, p) && p.first() == a && p.last() == b;
    let q = p.push(c);
    assert forall|i: int| 0 <= i < q.len() - 1 implies #[trigger] null_link(t, q, i) by {
        if i < p.len() - 1 {
            assert(null_link(t, p, i));
        }
    }
    assert(is_null_path(t, q));
    assert(q.first() == a && q.last() == c);
}

/// Reaching is transitive.
pub proof fn lemma_null_reach_trans(t: Table, a: usize, b: usize, c: usize)
    requires
        null_reach(t, a, b),
        null_reach(t, b, c),
    ensures
        null_reach(t, a, c),
{
    let p = choose|p: Seq<usize>| #[trigger] is_null_path(t, p) && p.first() == a && p.last() == b;
    let q = choose|q: Seq<usize>| #[trigger] is_null_path(t, q) && q.first() == b && q.last() == c;
    let r = p + q.drop_first();
    assert forall|i: int| 0 <= i < r.len() - 1 implies #[trigger] null_link(t, r, i) by {
        if i < p.len() - 1 {
            assert(null_link(t, p, i));
        } else {
            assert(null_link(t, q, i - (p.len() - 1)));
        }
    }
    assert(is_null_path(t, r));
    assert(r.first() == a);
    assert(r.last() == c);
}

/// A set that null transitions do not lead out of holds every state of a
/// null path that starts in it.
pub proof fn lemma_path_stays_in(t: Table, x: Set<usize>, p: Seq<usize>, i: int)
    requires
        is_null_path(t, p),
        x.contains(p.first()),
        forall|a: usize, b: usize|
            x.contains(a) && #[trigger] labeled(t, a, b, EPSILON) ==> x.contains(b),
        0 <= i < p.len(),
    ensures
        x.contains(p[i]),
    decreases i,
{
    if i > 0 {
        lemma_path_stays_in(t, x, p, i - 1);
        assert(null_link(t, p, i - 1));
    }
}

/// A set that holds `s` and that null transitions do not lead out of holds
/// the closure of `s`.
pub proof fn lemma_closure_least(t: Table, s: Set<usize>, x: Set<usize>)
    requires
        s.subset_of(x),
        forall|a: usize, b: usize|
            x.contains(a) && #[trigger] labeled(t, a, b, EPSILON) ==> x.contains(b),
    ensures
        closure(t, s).subset_of(x),
{
    assert forall|to: usize| closure(t, s).contains(to) implies x.contains(to) by {
        let from = choose|from: usize| s.contains(from) && #[trigger] null_reach(t, from, to);
        let p = choose|p: Seq<usize>|
            #[trigger] is_null_path(t, p) && p.first() == from && p.last() == to;
        lemma_path_stays_in(t, x, p, p.len() - 1);
    }
}

/// A set is part of its closure.
pub proof fn lemma_closure_extends(t: Table, s: Set<usize>)
    ensures
        s.subset_of(closure(t, s)),
{
    assert forall|a: usize| s.contains(a) implies closure(t, s).contains(a) by {
        lemma_null_reach_self(t, a);
    }
}

/// Taking the closure of a closure adds nothing.
pub proof fn lemma_closure_idempotent(t: Table, s: Set<usize>)
    ensures
        closure(t, closure(t, s)) == closure(t, s),
{
    let c = closure(t, s);
    lemma_closure_extends(t, c);
    assert forall|to: usize| closure(t, c).contains(to) implies c.contains(to) by {
        let mid = choose|mid: usize| c.contains(mid) && #[trigger] null_reach(t, mid, to);
        let from = choose|from: usize| s.contains(from) && #[trigger] null_reach(t, from, mid);
        lemma_null_reach_trans(t, from, mid, to);
    }
    assert(closure(t, c) =~= c);
}

/// The closure of a set of states of a square table holds states of that
/// table only.
pub proof fn lemma_closure_in_range(t: Table, s: Set<usize>)
    requires
        is_square(t),
        forall|a: usize| s.contains(a) ==> a < t.len(),
    ensures
        forall|a: usize| closure(t, s).contains(a) ==> a < t.len(),
{
    let x = Set::new(|a: usize| a < t.len());
    assert(s.subset_of(x));
    lemma_closure_least(t, s, x);
    assert forall|a: usize| closure(t, s).contains(a) implies a < t.len() by {
        assert(x.contains(a));
    }
}

/// A set of numbers below `n` is finite and has at most `n` elements.
pub proof fn lemma_bounded_set(s: Set<usize>, n: nat)
    requires
        forall|a: usize| s.contains(a) ==> a < n,
    ensures
        s.finite(),
        s.len() <= n,
    decreases n,
{
    if n == 0 {
        assert(s =~= Set::empty());
    } else if n - 1 > usize::MAX {
        lemma_bounded_set(s, (n - 1) as nat);
    } else {
        let last = (n - 1) as usize;
        lemma_bounded_set(s.remove(last), (n - 1) as nat);
        if s.contains(last) {
            assert(s =~= s.remove(last).insert(last));
        } else {
            assert(s =~= s.remove(last));
        }
    }
}

/// Reading from a set of states and reading from its closure lead to the
/// same states.
pub proof fn lemma_states_after_of_closure(t: Table, s: Set<usize>, w: Seq<char>)
    ensures
        states_after(t, closure(t, s), w) == states_after(t, s, w),
{
    lemma_closure_idempotent(t, s);
}

/// A null path can be cut down to one between the same two states that
/// passes no state twice.
pub proof fn lemma_simple_path(t: Table, p: Seq<usize>) -> (q: Seq<usize>)
    requires
        is_null_path(t, p),
    ensures
        is_null_path(t, q),
        q.first() == p.first(),
        q.last() == p.last(),
        q.no_duplicates(),
    decreases p.len(),
{
    if p.no_duplicates() {
        p
    } else {
        let (i, j) = choose|i: int, j: int|
            0 <= i < p.len() && 0 <= j < p.len() && i != j && p[i] == p[j];
        let lo = if i < j { i } else { j };
        let hi = if i < j { j } else { i };
        let r = p.subrange(0, lo) + p.subrange(hi, p.len() as int);
        assert forall|k: int| 0 <= k < r.len() - 1 implies #[trigger] null_link(t, r, k) by {
            if k < lo - 1 {
                assert(null_link(t, p, k));
            } else if k == lo - 1 {
                assert(null_link(t, p, k));
                assert(r[k + 1] == p[hi]);
            } else {
                assert(null_link(t, p, hi + k - lo));
            }
        }
        assert(r.first() == p.first());
        assert(r.last() == p.last());
        lemma_simple_path(t, r)
    }
}

/// A null path that starts at a state of a square table and passes no
/// state twice has at most as many states as the table.
pub proof fn lemma_simple_path_short(t: Table, p: Seq<usize>)
    requires
        is_square(t),
        is_null_path(t, p),
        p.no_duplicates(),
        p.first() < t.len(),
    ensures
        p.len() <= t.len(),
{
    assert forall|a: usize| p.to_set().contains(a) implies a < t.len() by {
        let k = choose|k: int| 0 <= k < p.len() && p[k] == a;
        if k > 0 {
            assert(null_link(t, p, k - 1));
        }
    }
    lemma_bounded_set(p.to_set(), t.len());
    p.unique_seq_to_set();
}

/// As many null transitions in a row as the table has states are enough
/// for every run.
pub proof fn lemma_fuel_suffices(t: Table, from: usize, w: Seq<char>, to: usize)
    requires
        is_square(t),
        from < t.len(),
    ensures
        strict_run_within(t, from, w, to, t.len()) == strict_run(t, from, w, to),
{
    if w.len() > 0 {
        if strict_run(t, from, w, to) {
            let (a, b) = choose|a: usize, b: usize|
                null_reach(t, from, a) && #[trigger] reads(t, a, b, w[0]) && strict_run(
                    t,
                    b,
                    w.drop_first(),
                    to,
                );
            let p = choose|p: Seq<usize>|
                #[trigger] is_null_path(t, p) && p.first() == from && p.last() == a;
            let q = lemma_simple_path(t, p);
            lemma_simple_path_short(t, q);
            assert(is_null_path(t, q) && reads(t, q.last(), b, w[0]));
        }
        if strict_run_within(t, from, w, to, t.len()) {
            let (p, b) = choose|p: Seq<usize>, b: usize|
                #[trigger] is_null_path(t, p) && p.first() == from && p.len() <= t.len() + 1
                    && #[trigger] reads(t, p.last(), b, w[0]) && strict_run(
                    t,
                    b,
                    w.drop_first(),
                    to,
                );
            assert(null_reach(t, from, p.last()));
        }
    }
}

/// With as many null transitions in a row as the table has states, the
/// bounded search accepts what the unbounded one accepts.
pub proof fn lemma_fuel_suffices_to_accept(t: Table, from: usize, finals: Set<usize>, w: Seq<char>)
    requires
        is_square(t),
        from < t.len(),
    ensures
        accepts_strictly_within(t, from, finals, w, t.len()) == accepts_strictly(
            t,
            from,
            finals,
            w,
        ),
{
    assert forall|f: usize|
        #[trigger] strict_run_within(t, from, w, f, t.len()) == strict_run(t, from, w, f) by {
        lemma_fuel_suffices(t, from, w, f);
    }
    if accepts_strictly(t, from, finals, w) {
        let f = choose|f: usize| finals.contains(f) && #[trigger] strict_run(t, from, w, f);
        assert(strict_run_within(t, from, w, f, t.len()));
    }
}

/// The first move of a run from `from` over `w` leads to `via`, by the
/// first symbol or, if `fuel` allows one, by a null transition, and the
/// rest of the run ends in a final state.
pub open spec fn branch_accepts(
    t: Table,
    finals: Set<usize>,
    from: usize,
    via: usize,
    w: Seq<char>,
    fuel: nat,
) -> bool {
    ||| reads(t, from, via, w[0]) && accepts_strictly(t, via, finals, w.drop_first())
    ||| fuel > 0 && labeled(t, from, via, EPSILON) && accepts_strictly_within(
        t,
        via,
        finals,
        w,
        (fuel - 1) as nat,
    )
}

/// A run over a string that is not empty is accepted just when one of its
/// first moves is.
pub proof fn lemma_branches(t: Table, finals: Set<usize>, from: usize, w: Seq<char>, fuel: nat)
    requires
        w.len() > 0,
    ensures
        accepts_strictly_within(t, from, finals, w, fuel) <==> exists|via: usize| #[trigger]
            branch_accepts(t, finals, from, via, w, fuel),
{
    if accepts_strictly_within(t, from, finals, w, fuel) {
        let f = choose|f: usize|
            finals.contains(f) && #[trigger] strict_run_within(t, from, w, f, fuel);
        let (p, b) = choose|p: Seq<usize>, b: usize|
            #[trigger] is_null_path(t, p) && p.first() == from && p.len() <= fuel + 1
                && #[trigger] reads(t, p.last(), b, w[0]) && strict_run(
                t,
                b,
                w.drop_first(),
                f,
            );
        if p.len() == 1 {
            assert(strict_run(t, b, w.drop_first(), f));
            assert(branch_accepts(t, finals, from, b, w, fuel));
        } else {
            let q = p.drop_first();
            assert(null_link(t, p, 0));
            assert forall|k: int| 0 <= k < q.len() - 1 implies #[trigger] null_link(t, q, k) by {
                assert(null_link(t, p, k + 1));
            }
            assert(is_null_path(t, q) && reads(t, q.last(), b, w[0]));
            assert(strict_run_within(t, p[1], w, f, (fuel - 1) as nat));
            assert(branch_accepts(t, finals, from, p[1], w, fuel));
        }
    }
    if exists|via: usize| #[trigger] branch_accepts(t, finals, from, via, w, fuel) {
        let via = choose|via: usize| #[trigger] branch_accepts(t, finals, from, via, w, fuel);
        if reads(t, from, via, w[0]) && accepts_strictly(t, via, finals, w.drop_first()) {
            let f = choose|f: usize|
                finals.contains(f) && #[trigger] strict_run(t, via, w.drop_first(), f);
            let p = seq![from];
            assert(is_null_path(t, p) && reads(t, p.last(), via, w[0]));
            assert(strict_run_within(t, from, w, f, fuel));
        } else {
            let f = choose|f: usize|
                finals.contains(f) && #[trigger] strict_run_within(
                    t,
                    via,
                    w,
                    f,
                    (fuel - 1) as nat,
                );
            let (q, b) = choose|q: Seq<usize>, b: usize|
                #[trigger] is_null_path(t, q) && q.first() == via && q.len() <= (fuel - 1) + 1
                    && #[trigger] reads(t, q.last(), b, w[0]) && strict_run(
                    t,
                    b,
                    w.drop_first(),
                    f,
                );
            let p = seq![from] + q;
            assert forall|k: int| 0 <= k < p.len() - 1 implies #[trigger] null_link(t, p, k) by {
                if k > 0 {
                    assert(null_link(t, q, k - 1));
                }
            }
            assert(p.last() == q.last());
            assert(is_null_path(t, p) && reads(t, p.last(), b, w[0]));
            assert(strict_run_within(t, from, w, f, fuel));
        }
    }
}

} // verus!
