//! The transition table shared by both kinds of automaton, and its model.

use vstd::prelude::*;

verus! {

/// The code point that labels a null transition in a table.
pub const EPSILON: char = '\u{03F5}';

/// The mathematical model of a transition table: cell `(i, j)` lists the
/// symbols that take state `i` to state `j`.
pub type Table = Seq<Seq<Seq<char>>>;

/// The model of an executable table.
pub open spec fn table_view(t: &Vec<Vec<Vec<char>>>) -> Table {
    Seq::new(t@.len(), |i: int| Seq::new(t@[i]@.len(), |j: int| t@[i]@[j]@))
}

/// Every row of `t` has as many cells as `t` has rows.
pub open spec fn is_square(t: Table) -> bool {
    forall|i: int| 0 <= i < t.len() ==> (#[trigger] t[i]).len() == t.len()
}

/// An edge labeled `c` leads from state `from` to state `to`.
pub open spec fn labeled(t: Table, from: usize, to: usize, c: char) -> bool {
    &&& from < t.len()
    &&& to < t[from as int].len()
    &&& t[from as int][to as int].contains(c)
}

/// Whether `c` is one of the symbols of a cell.
pub fn cell_contains(cell: &Vec<char>, c: char) -> (found: bool)
    ensures
        found == cell@.contains(c),
{
    let mut k: usize = 0;
    while k < cell.len()
        invariant
            k <= cell.len(),
            forall|m: int| 0 <= m < k ==> cell@[m] != c,
        decreases cell.len() - k,
    {
        if cell[k] == c {
            return true;
        }
        k += 1;
    }
    false
}

/// The characters of a string, in order.
pub fn chars_of(s: &str) -> (v: Vec<char>)
    ensures
        v@ == s@,
{
    let mut v: Vec<char> = Vec::new();
    for c in it: s.chars()
        invariant
            v@ == it.seq().take(it.index()),
            it.seq() == s@,
    {
        v.push(c);
    }
    v
}

} // verus!
