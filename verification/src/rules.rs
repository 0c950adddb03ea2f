//! Boards of candidate sets, and what propagation is allowed to do to them.
//!
//! A board gives every cell the set of digits still possible there. The
//! definitions below say when a board is at rest (`stable`), when one board is
//! a legitimate descendant of another (`carries`), and when a step has lost
//! nothing that could still lead to a board at rest (`keeps_stable`).

use vstd::prelude::*;
use crate::layout::{group_cell, peer};

verus! {

/// The candidate sets of the 81 cells, in row-major order.
pub type Board = Seq<Set<int>>;

/// The nine digits.
pub open spec fn all_digits() -> Set<int> {
    Set::new(|d: int| 1 <= d <= 9)
}

/// The board on which every digit is still possible everywhere.
pub open spec fn open_board() -> Board {
    Seq::new(81, |c: int| all_digits())
}

/// `s` holds at least one digit.
pub open spec fn inhabited(s: Set<int>) -> bool {
    exists|d: int| s.contains(d)
}

/// `s` holds `d` and nothing else.
pub open spec fn only(s: Set<int>, d: int) -> bool {
    s.contains(d) && forall|e: int| s.contains(e) ==> e == d
}

/// How many of the digits below `n` the set `s` holds.
pub open spec fn count_below(s: Set<int>, n: int) -> nat {
    let k = (if 1 < n && s.contains(1) { 1int } else { 0int })
        + (if 2 < n && s.contains(2) { 1int } else { 0int })
        + (if 3 < n && s.contains(3) { 1int } else { 0int })
        + (if 4 < n && s.contains(4) { 1int } else { 0int })
        + (if 5 < n && s.contains(5) { 1int } else { 0int })
        + (if 6 < n && s.contains(6) { 1int } else { 0int })
        + (if 7 < n && s.contains(7) { 1int } else { 0int })
        + (if 8 < n && s.contains(8) { 1int } else { 0int })
        + (if 9 < n && s.contains(9) { 1int } else { 0int });
    k as nat
}

/// How many of the nine digits `s` holds.
pub open spec fn size(s: Set<int>) -> nat {
    count_below(s, 10)
}

/// The board has 81 cells, and no candidate outside 1..=9.
pub open spec fn well_formed(b: Board) -> bool {
    &&& b.len() == 81
    &&& forall|c: int, d: int| 0 <= c < 81 && #[trigger] b[c].contains(d) ==> 1 <= d <= 9
}

/// `a` allows nothing that `b` forbids.
pub open spec fn refines(a: Board, b: Board) -> bool {
    &&& a.len() == 81
    &&& b.len() == 81
    &&& forall|c: int, d: int| 0 <= c < 81 && #[trigger] a[c].contains(d) ==> b[c].contains(d)
}

/// `s` holds exactly one digit.
pub open spec fn decided(s: Set<int>) -> bool {
    exists|d: int| only(s, d)
}

/// Every cell is decided.
pub open spec fn solved(b: Board) -> bool {
    &&& b.len() == 81
    &&& forall|c: int| 0 <= c < 81 ==> decided(#[trigger] b[c])
}

/// `b` with digit `d` taken away from cell `c`.
pub open spec fn strike(b: Board, c: int, d: int) -> Board {
    b.update(c, b[c].remove(d))
}

/// `b` with every digit but `d` taken away from cell `c`.
pub open spec fn pin(b: Board, c: int, d: int) -> Board {
    b.update(c, Set::new(|e: int| e == d && b[c].contains(e)))
}

/// First rule, at cell `c`: where `c` is decided, none of its peers still has
/// its digit as a candidate.
pub open spec fn single_rule_at(b: Board, c: int) -> bool {
    forall|p: int, d: int| peer(c, p) && only(b[c], d) ==> !#[trigger] b[p].contains(d)
}

/// The `i`-th cell of group `u` still has `d` as a candidate.
pub open spec fn is_place(b: Board, u: int, d: int, i: int) -> bool {
    0 <= i < 9 && b[group_cell(u, i)].contains(d)
}

/// The `i`-th cell of group `u` is the one place left for `d` in that group.
pub open spec fn sole_place(b: Board, u: int, d: int, i: int) -> bool {
    is_place(b, u, d, i) && forall|j: int| #[trigger] is_place(b, u, d, j) ==> j == i
}

/// Second rule, for digit `d` in group `u`: the group has a place left for
/// `d`, and where it has just one, that cell is decided.
pub open spec fn group_rule_at(b: Board, u: int, d: int) -> bool {
    &&& exists|i: int| #[trigger] is_place(b, u, d, i)
    &&& forall|i: int| #[trigger] sole_place(b, u, d, i) ==> only(b[group_cell(u, i)], d)
}

/// A board at rest: well formed, no cell without a candidate, and both rules
/// hold everywhere. Propagation has nothing to do on such a board.
#[verifier::opaque]
pub open spec fn stable(b: Board) -> bool {
    &&& well_formed(b)
    &&& forall|c: int| 0 <= c < 81 ==> inhabited(#[trigger] b[c])
    &&& forall|c: int| 0 <= c < 81 ==> #[trigger] single_rule_at(b, c)
    &&& forall|u: int, d: int| 0 <= u < 27 && 1 <= d <= 9 ==> #[trigger] group_rule_at(b, u, d)
}

/// A solution: every cell decided, with a digit from 1 to 9, and no two peers
/// with the same digit.
pub open spec fn is_solution(b: Board) -> bool {
    &&& well_formed(b)
    &&& solved(b)
    &&& forall|c: int, p: int, d: int|
        peer(c, p) && #[trigger] b[c].contains(d) ==> !#[trigger] b[p].contains(d)
}

/// `b` descends from `a` by sound steps: it allows nothing new, has emptied
/// no cell, and has broken neither rule anywhere it held in `a`.
#[verifier::opaque]
pub open spec fn carries(a: Board, b: Board) -> bool {
    &&& refines(b, a)
    &&& forall|c: int| 0 <= c < 81 && inhabited(#[trigger] a[c]) ==> inhabited(b[c])
    &&& forall|c: int| 0 <= c < 81 && #[trigger] single_rule_at(a, c) ==> single_rule_at(b, c)
    &&& forall|u: int, d: int|
        0 <= u < 27 && 1 <= d <= 9 && #[trigger] group_rule_at(a, u, d) ==> group_rule_at(b, u, d)
}

/// Every board at rest within `a` is still within `b`: going from `a` to `b`
/// gave up nothing that propagation could ever settle on.
#[verifier::opaque]
pub open spec fn keeps_stable(a: Board, b: Board) -> bool {
    forall|g: Board| stable(g) && #[trigger] refines(g, a) ==> refines(g, b)
}

/// No board at rest lies within `a`.
#[verifier::opaque]
pub open spec fn hopeless(a: Board) -> bool {
    forall|g: Board| stable(g) ==> !#[trigger] refines(g, a)
}

/// `g` is the largest board at rest within `a`.
pub open spec fn greatest_stable(g: Board, a: Board) -> bool {
    &&& stable(g)
    &&& refines(g, a)
    &&& keeps_stable(a, g)
}

/// The sum of `size` over the first `n` cells.
pub open spec fn weight_upto(b: Board, n: int) -> nat
    decreases n,
{
    if n <= 0 {
        0
    } else {
        weight_upto(b, n - 1) + size(b[n - 1])
    }
}

/// The number of candidates left on the whole board.
pub open spec fn weight(b: Board) -> nat {
    weight_upto(b, 81)
}

} // verus!
