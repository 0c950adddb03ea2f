//! Lemmas about single steps of propagation, over boards alone.

use vstd::prelude::*;
use vstd::set_lib::{lemma_int_range, lemma_len_subset, lemma_subset_equality, set_int_range};
use crate::layout::{
    group_cell, group_of, lemma_group_cell_on_board, lemma_group_mates_are_peers,
    lemma_holding_group, lemma_peers_of, peer, peers_of,
};
use crate::rules::{
    carries, decided, group_rule_at, hopeless, inhabited, is_place, is_solution, keeps_stable,
    only, pin, refines, single_rule_at, size, sole_place, solved, stable, strike, weight,
    weight_upto, well_formed, Board,
};

verus! {

/// Every board of 81 cells refines itself.
pub proof fn lemma_refines_refl(a: Board)
    requires
        a.len() == 81,
    ensures
        refines(a, a),
{
}

/// Refinement is transitive.
pub proof fn lemma_refines_trans(a: Board, b: Board, c: Board)
    requires
        refines(a, b),
        refines(b, c),
    ensures
        refines(a, c),
{
    assert forall|x: int, d: int| 0 <= x < 81 && #[trigger] a[x].contains(d) implies c[x].contains(
        d,
    ) by {
        assert(b[x].contains(d));
    }
}

/// Two boards that refine each other are the same board.
pub proof fn lemma_refines_antisymmetric(a: Board, b: Board)
    requires
        refines(a, b),
        refines(b, a),
    ensures
        a == b,
{
    assert forall|x: int| 0 <= x < 81 implies a[x] =~= b[x] by {
        assert forall|d: int| a[x].contains(d) == b[x].contains(d) by {
        }
    }
    assert(a =~= b);
}

/// A board that refines a well-formed board is well formed.
pub proof fn lemma_refines_well_formed(a: Board, b: Board)
    requires
        refines(a, b),
        well_formed(b),
    ensures
        well_formed(a),
{
    assert forall|c: int, d: int| 0 <= c < 81 && #[trigger] a[c].contains(d) implies 1 <= d
        <= 9 by {
        assert(b[c].contains(d));
    }
}

/// Every board descends from itself.
pub proof fn lemma_carries_refl(a: Board)
    requires
        a.len() == 81,
    ensures
        carries(a, a),
{
    reveal(carries);
}

/// Descent is transitive.
pub proof fn lemma_carries_trans(a: Board, b: Board, c: Board)
    requires
        carries(a, b),
        carries(b, c),
    ensures
        carries(a, c),
{
    reveal(carries);
    lemma_refines_trans(c, b, a);
    assert forall|x: int| 0 <= x < 81 && inhabited(#[trigger] a[x]) implies inhabited(c[x]) by {
        assert(inhabited(b[x]));
    }
    assert forall|x: int| 0 <= x < 81 && #[trigger] single_rule_at(a, x) implies single_rule_at(
        c,
        x,
    ) by {
        assert(single_rule_at(b, x));
    }
    assert forall|u: int, d: int|
        0 <= u < 27 && 1 <= d <= 9 && #[trigger] group_rule_at(a, u, d) implies group_rule_at(
        c,
        u,
        d,
    ) by {
        assert(group_rule_at(b, u, d));
    }
}

/// What `carries` says, rule by rule.
pub proof fn lemma_carries_unfold(a: Board, b: Board)
    requires
        carries(a, b),
    ensures
        refines(b, a),
        forall|c: int| 0 <= c < 81 && inhabited(#[trigger] a[c]) ==> inhabited(b[c]),
        forall|c: int| 0 <= c < 81 && #[trigger] single_rule_at(a, c) ==> single_rule_at(b, c),
        forall|u: int, d: int|
            0 <= u < 27 && 1 <= d <= 9 && #[trigger] group_rule_at(a, u, d) ==> group_rule_at(
                b,
                u,
                d,
            ),
{
    reveal(carries);
}

/// A descendant of a board at rest is at rest.
pub proof fn lemma_carries_stable(a: Board, b: Board)
    requires
        carries(a, b),
        stable(a),
    ensures
        stable(b),
{
    reveal(carries);
    reveal(stable);
    lemma_refines_well_formed(b, a);
    assert forall|c: int| 0 <= c < 81 implies inhabited(#[trigger] b[c]) by {
        assert(inhabited(a[c]));
    }
    assert forall|c: int| 0 <= c < 81 implies #[trigger] single_rule_at(b, c) by {
        assert(single_rule_at(a, c));
    }
    assert forall|u: int, d: int| 0 <= u < 27 && 1 <= d <= 9 implies #[trigger] group_rule_at(
        b,
        u,
        d,
    ) by {
        assert(group_rule_at(a, u, d));
    }
}

/// Going to a board that allows at least as much keeps every board at rest.
pub proof fn lemma_keeps_stable_wider(a: Board, b: Board)
    requires
        refines(a, b),
    ensures
        keeps_stable(a, b),
{
    reveal(keeps_stable);
    assert forall|g: Board| stable(g) && #[trigger] refines(g, a) implies refines(g, b) by {
        lemma_refines_trans(g, a, b);
    }
}

/// `keeps_stable` is transitive.
pub proof fn lemma_keeps_stable_trans(a: Board, b: Board, c: Board)
    requires
        keeps_stable(a, b),
        keeps_stable(b, c),
    ensures
        keeps_stable(a, c),
{
    reveal(keeps_stable);
    assert forall|g: Board| stable(g) && #[trigger] refines(g, a) implies refines(g, c) by {
        assert(refines(g, b));
    }
}

/// Where nothing at rest is left after a step that kept everything at rest,
/// nothing was there before it.
pub proof fn lemma_hopeless_back(a: Board, b: Board)
    requires
        keeps_stable(a, b),
        hopeless(b),
    ensures
        hopeless(a),
{
    reveal(keeps_stable);
    reveal(hopeless);
    assert forall|g: Board| stable(g) implies !#[trigger] refines(g, a) by {
        if refines(g, a) {
            assert(refines(g, b));
        }
    }
}

/// A board at rest within `a` shows that `a` is not hopeless.
pub proof fn lemma_witness_not_hopeless(g: Board, a: Board)
    requires
        stable(g),
        refines(g, a),
    ensures
        !hopeless(a),
{
    reveal(hopeless);
}

/// Striking a digit that is not there changes nothing.
pub proof fn lemma_strike_absent(b: Board, c: int, d: int)
    requires
        b.len() == 81,
        0 <= c < 81,
        !b[c].contains(d),
    ensures
        strike(b, c, d) == b,
{
    assert(b[c].remove(d) =~= b[c]);
    assert(strike(b, c, d) =~= b);
}

/// Striking only takes away.
pub proof fn lemma_strike_refines(b: Board, c: int, d: int)
    requires
        b.len() == 81,
        0 <= c < 81,
    ensures
        refines(strike(b, c, d), b),
        !strike(b, c, d)[c].contains(d),
{
}

/// A board within `b` that lacks `d` at `c` is within `strike(b, c, d)`.
pub proof fn lemma_refines_strike(a: Board, b: Board, c: int, d: int)
    requires
        refines(a, b),
        0 <= c < 81,
        !a[c].contains(d),
    ensures
        refines(a, strike(b, c, d)),
{
    let s = strike(b, c, d);
    assert forall|x: int, e: int| 0 <= x < 81 && #[trigger] a[x].contains(e) implies s[x].contains(
        e,
    ) by {
        assert(b[x].contains(e));
    }
}

/// Pinning only takes away.
pub proof fn lemma_pin_refines(b: Board, c: int, d: int)
    requires
        b.len() == 81,
        0 <= c < 81,
    ensures
        refines(pin(b, c, d), b),
        forall|e: int| pin(b, c, d)[c].contains(e) ==> e == d,
{
}

/// A board within `b` that has at most `d` at `c` is within `pin(b, c, d)`.
pub proof fn lemma_refines_pin(a: Board, b: Board, c: int, d: int)
    requires
        refines(a, b),
        0 <= c < 81,
        forall|e: int| a[c].contains(e) ==> e == d,
    ensures
        refines(a, pin(b, c, d)),
{
    let s = pin(b, c, d);
    assert forall|x: int, e: int| 0 <= x < 81 && #[trigger] a[x].contains(e) implies s[x].contains(
        e,
    ) by {
        assert(b[x].contains(e));
    }
}

/// A board within `a` has no more candidates than `a` in the first `n` cells.
pub proof fn lemma_weight_upto_refines(a: Board, b: Board, n: int)
    requires
        refines(a, b),
        0 <= n <= 81,
    ensures
        weight_upto(a, n) <= weight_upto(b, n),
    decreases n,
{
    if n > 0 {
        lemma_weight_upto_refines(a, b, n - 1);
        lemma_size_refines(a, b, n - 1);
    }
}

proof fn lemma_size_refines(a: Board, b: Board, c: int)
    requires
        refines(a, b),
        0 <= c < 81,
    ensures
        size(a[c]) <= size(b[c]),
{
    assert(a[c].contains(1) ==> b[c].contains(1));
    assert(a[c].contains(2) ==> b[c].contains(2));
    assert(a[c].contains(3) ==> b[c].contains(3));
    assert(a[c].contains(4) ==> b[c].contains(4));
    assert(a[c].contains(5) ==> b[c].contains(5));
    assert(a[c].contains(6) ==> b[c].contains(6));
    assert(a[c].contains(7) ==> b[c].contains(7));
    assert(a[c].contains(8) ==> b[c].contains(8));
    assert(a[c].contains(9) ==> b[c].contains(9));
}

/// A board within `a` has no more candidates than `a`.
pub proof fn lemma_weight_refines(a: Board, b: Board)
    requires
        refines(a, b),
    ensures
        weight(a) <= weight(b),
{
    lemma_weight_upto_refines(a, b, 81);
}

proof fn lemma_weight_upto_less(a: Board, b: Board, c: int, d: int, n: int)
    requires
        refines(a, b),
        0 <= c < n <= 81,
        1 <= d <= 9,
        b[c].contains(d),
        !a[c].contains(d),
    ensures
        weight_upto(a, n) < weight_upto(b, n),
    decreases n,
{
    lemma_size_refines(a, b, n - 1);
    if c == n - 1 {
        lemma_weight_upto_refines(a, b, n - 1);
    } else {
        lemma_weight_upto_less(a, b, c, d, n - 1);
    }
}

/// A board within `b` that lacks a digit which `b` has somewhere has fewer
/// candidates than `b`.
pub proof fn lemma_weight_less(a: Board, b: Board, c: int, d: int)
    requires
        refines(a, b),
        0 <= c < 81,
        1 <= d <= 9,
        b[c].contains(d),
        !a[c].contains(d),
    ensures
        weight(a) < weight(b),
{
    lemma_weight_upto_less(a, b, c, d, 81);
}

/// A set of digits of size 0 is empty; of size 1, it holds one digit only; of
/// size 2 or more, it is not a single digit.
pub proof fn lemma_size(s: Set<int>)
    requires
        forall|d: int| s.contains(d) ==> 1 <= d <= 9,
    ensures
        size(s) == 0 <==> !inhabited(s),
        size(s) == 1 <==> decided(s),
        size(s) <= 9,
{
    if size(s) == 1 {
        let d = if s.contains(1) {
            1int
        } else if s.contains(2) {
            2int
        } else if s.contains(3) {
            3int
        } else if s.contains(4) {
            4int
        } else if s.contains(5) {
            5int
        } else if s.contains(6) {
            6int
        } else if s.contains(7) {
            7int
        } else if s.contains(8) {
            8int
        } else {
            9int
        };
        assert(only(s, d));
    }
    if decided(s) {
        let d = choose|d: int| only(s, d);
        assert(1 <= d <= 9);
    }
    if inhabited(s) {
        let d = choose|d: int| s.contains(d);
        assert(1 <= d <= 9);
    }
}

/// A board with a cell that has no candidate holds no board at rest.
pub proof fn lemma_empty_cell_hopeless(a: Board, c: int)
    requires
        0 <= c < 81,
        !inhabited(a[c]),
    ensures
        hopeless(a),
{
    reveal(hopeless);
    reveal(stable);
    assert forall|g: Board| stable(g) implies !#[trigger] refines(g, a) by {
        if refines(g, a) {
            assert(inhabited(g[c]));
            let d = choose|d: int| g[c].contains(d);
            assert(a[c].contains(d));
        }
    }
}

/// Where a cell is decided, no board at rest within has the cell's digit at
/// a peer: striking it there keeps every board at rest.
pub proof fn lemma_peer_strike_keeps(a: Board, c: int, d: int, p: int)
    requires
        a.len() == 81,
        peer(c, p),
        forall|e: int| a[c].contains(e) ==> e == d,
    ensures
        keeps_stable(a, strike(a, p, d)),
{
    reveal(keeps_stable);
    reveal(stable);
    assert forall|g: Board| stable(g) && #[trigger] refines(g, a) implies refines(
        g,
        strike(a, p, d),
    ) by {
        assert(inhabited(g[c]));
        let e = choose|e: int| g[c].contains(e);
        assert(a[c].contains(e));
        assert(only(g[c], d)) by {
            assert forall|x: int| g[c].contains(x) implies x == d by {
                assert(a[c].contains(x));
            }
        }
        assert(single_rule_at(g, c));
        assert(!g[p].contains(d));
        lemma_refines_strike(g, a, p, d);
    }
}

/// A group with no place left for a digit holds no board at rest.
pub proof fn lemma_no_place_hopeless(a: Board, u: int, d: int)
    requires
        a.len() == 81,
        0 <= u < 27,
        1 <= d <= 9,
        forall|i: int| !is_place(a, u, d, i),
    ensures
        hopeless(a),
{
    reveal(hopeless);
    reveal(stable);
    assert forall|g: Board| stable(g) implies !#[trigger] refines(g, a) by {
        if refines(g, a) {
            assert(group_rule_at(g, u, d));
            let i = choose|i: int| is_place(g, u, d, i);
            crate::layout::lemma_group_cell_on_board(u, i);
            assert(is_place(a, u, d, i));
        }
    }
}

/// Where a digit has one place left in a group, every board at rest within
/// has that cell decided: pinning it keeps every board at rest.
pub proof fn lemma_sole_place_pin_keeps(a: Board, u: int, d: int, i: int)
    requires
        a.len() == 81,
        0 <= u < 27,
        1 <= d <= 9,
        sole_place(a, u, d, i),
    ensures
        keeps_stable(a, pin(a, group_cell(u, i), d)),
{
    reveal(keeps_stable);
    reveal(stable);
    let c = group_cell(u, i);
    crate::layout::lemma_group_cell_on_board(u, i);
    assert forall|g: Board| stable(g) && #[trigger] refines(g, a) implies refines(
        g,
        pin(a, c, d),
    ) by {
        assert(group_rule_at(g, u, d));
        let j = choose|j: int| is_place(g, u, d, j);
        crate::layout::lemma_group_cell_on_board(u, j);
        assert(is_place(a, u, d, j));
        assert(j == i);
        assert(sole_place(g, u, d, i)) by {
            assert forall|k: int| #[trigger] is_place(g, u, d, k) implies k == i by {
                crate::layout::lemma_group_cell_on_board(u, k);
                assert(is_place(a, u, d, k));
            }
        }
        assert(only(g[c], d));
        lemma_refines_pin(g, a, c, d);
    }
}

/// Striking within what a step kept: where `a` lacks `d` at `c`, a step from
/// `a` to `x` may be followed by striking `d` at `c`.
pub proof fn lemma_keeps_stable_strike(a: Board, x: Board, c: int, d: int)
    requires
        keeps_stable(a, x),
        a.len() == 81,
        x.len() == 81,
        0 <= c < 81,
        !a[c].contains(d),
    ensures
        keeps_stable(a, strike(x, c, d)),
{
    reveal(keeps_stable);
    assert forall|g: Board| stable(g) && #[trigger] refines(g, a) implies refines(
        g,
        strike(x, c, d),
    ) by {
        assert(refines(g, x));
        if g[c].contains(d) {
            assert(a[c].contains(d));
        }
        lemma_refines_strike(g, x, c, d);
    }
}

/// A digit with two places left in a group meets the second rule there.
pub proof fn lemma_two_places_rule(a: Board, u: int, d: int, i: int, j: int)
    requires
        is_place(a, u, d, i),
        is_place(a, u, d, j),
        i != j,
    ensures
        group_rule_at(a, u, d),
{
    assert forall|k: int| #[trigger] sole_place(a, u, d, k) implies only(a[group_cell(u, k)], d) by {
        assert(is_place(a, u, d, i));
        assert(is_place(a, u, d, j));
    }
}

/// A digit whose one place in a group has been decided meets the second rule
/// there, on every board within.
pub proof fn lemma_decided_place_rule(a: Board, b: Board, u: int, d: int, i: int)
    requires
        0 <= u < 27,
        sole_place(a, u, d, i),
        refines(b, a),
        only(b[group_cell(u, i)], d),
    ensures
        group_rule_at(b, u, d),
{
    assert(is_place(b, u, d, i));
    assert forall|k: int| #[trigger] sole_place(b, u, d, k) implies only(b[group_cell(u, k)], d) by {
        crate::layout::lemma_group_cell_on_board(u, k);
        assert(is_place(a, u, d, k));
    }
}

/// A cell with two or more candidates meets the first rule.
pub proof fn lemma_undecided_rule(a: Board, c: int)
    requires
        size(a[c]) >= 2,
    ensures
        single_rule_at(a, c),
{
}

/// A cell decided on `d` whose twenty peers all lack `d` meets the first
/// rule.
pub proof fn lemma_decided_rule(a: Board, c: int, d: int)
    requires
        0 <= c < 81,
        forall|e: int| a[c].contains(e) ==> e == d,
        forall|j: int| 0 <= j < 20 ==> !a[#[trigger] peers_of(c)[j]].contains(d),
    ensures
        single_rule_at(a, c),
{
    lemma_peers_of(c);
    assert forall|p: int, e: int| peer(c, p) && only(a[c], e) implies !#[trigger] a[p].contains(
        e,
    ) by {
        assert(peers_of(c).contains(p));
        let j = choose|j: int| 0 <= j < 20 && peers_of(c)[j] == p;
        assert(!a[peers_of(c)[j]].contains(d));
    }
}

/// Striking `d` at `c` breaks the first rule nowhere but, at most, at `c`,
/// and the second nowhere but, at most, for `d` in the three groups of `c`.
/// Where those are mended on a descendant of the struck board, that board
/// descends from the board before the strike.
pub proof fn lemma_strike_then_mend(a: Board, c: int, d: int, b: Board)
    requires
        well_formed(a),
        0 <= c < 81,
        a[c].contains(d),
        inhabited(strike(a, c, d)[c]),
        carries(strike(a, c, d), b),
        single_rule_at(b, c),
        forall|k: int| 0 <= k < 3 ==> group_rule_at(b, #[trigger] group_of(c, k), d),
    ensures
        carries(a, b),
{
    reveal(carries);
    let s = strike(a, c, d);
    lemma_strike_refines(a, c, d);
    lemma_refines_trans(b, s, a);
    assert forall|x: int| 0 <= x < 81 && inhabited(#[trigger] a[x]) implies inhabited(b[x]) by {
        if x != c {
            let e = choose|e: int| a[x].contains(e);
            assert(s[x].contains(e));
        }
        assert(inhabited(s[x]));
    }
    assert forall|x: int| 0 <= x < 81 && #[trigger] single_rule_at(a, x) implies single_rule_at(
        b,
        x,
    ) by {
        if x != c {
            assert forall|p: int, e: int| peer(x, p) && only(s[x], e) implies !#[trigger] s[p].contains(
                e,
            ) by {
                assert(only(a[x], e));
                assert(!a[p].contains(e));
            }
            assert(single_rule_at(s, x));
        }
    }
    assert forall|u: int, e: int|
        0 <= u < 27 && 1 <= e <= 9 && #[trigger] group_rule_at(a, u, e) implies group_rule_at(
        b,
        u,
        e,
    ) by {
        if e == d && (exists|i: int| 0 <= i < 9 && group_cell(u, i) == c) {
            let i = choose|i: int| 0 <= i < 9 && group_cell(u, i) == c;
            lemma_holding_group(u, i);
            let k = if u < 9 {
                0int
            } else if u < 18 {
                1int
            } else {
                2int
            };
            assert(u == group_of(c, k));
        } else {
            lemma_strike_keeps_group_rule(a, c, d, u, e);
            assert(group_rule_at(s, u, e));
        }
    }
}

proof fn lemma_strike_keeps_group_rule(a: Board, c: int, d: int, u: int, e: int)
    requires
        a.len() == 81,
        0 <= c < 81,
        0 <= u < 27,
        a[c].contains(d),
        group_rule_at(a, u, e),
        e != d || !(exists|i: int| 0 <= i < 9 && group_cell(u, i) == c),
    ensures
        group_rule_at(strike(a, c, d), u, e),
{
    let s = strike(a, c, d);
    assert forall|i: int| is_place(s, u, e, i) == is_place(a, u, e, i) by {
        if 0 <= i < 9 {
            crate::layout::lemma_group_cell_on_board(u, i);
        }
    }
    let i0 = choose|i: int| #[trigger] is_place(a, u, e, i);
    assert(is_place(s, u, e, i0));
    assert forall|i: int| #[trigger] sole_place(s, u, e, i) implies only(s[group_cell(u, i)], e) by {
        crate::layout::lemma_group_cell_on_board(u, i);
        assert(sole_place(a, u, e, i)) by {
            assert forall|j: int| #[trigger] is_place(a, u, e, j) implies j == i by {
                assert(is_place(s, u, e, j));
            }
        }
        assert(only(a[group_cell(u, i)], e));
    }
}

/// The open board is at rest.
pub proof fn lemma_open_board_stable()
    ensures
        stable(crate::rules::open_board()),
{
    reveal(stable);
    let b = crate::rules::open_board();
    assert forall|c: int| 0 <= c < 81 implies inhabited(#[trigger] b[c]) by {
        assert(b[c].contains(1));
    }
    assert forall|c: int| 0 <= c < 81 implies #[trigger] single_rule_at(b, c) by {
        assert(b[c].contains(1) && b[c].contains(2));
    }
    assert forall|u: int, d: int| 0 <= u < 27 && 1 <= d <= 9 implies #[trigger] group_rule_at(
        b,
        u,
        d,
    ) by {
        crate::layout::lemma_group_cell_on_board(u, 0);
        crate::layout::lemma_group_cell_on_board(u, 1);
        assert(is_place(b, u, d, 0));
        assert(is_place(b, u, d, 1));
        lemma_two_places_rule(b, u, d, 0, 1);
    }
}


/// The digit of a decided cell.
pub open spec fn digit_at(b: Board, c: int) -> int {
    choose|d: int| only(b[c], d)
}

/// In a solution every group holds every digit.
pub proof fn lemma_solution_fills_group(s: Board, u: int, d: int)
    requires
        is_solution(s),
        0 <= u < 27,
        1 <= d <= 9,
    ensures
        exists|i: int| #[trigger] is_place(s, u, d, i),
{
    let digits = Seq::new(9, |i: int| digit_at(s, group_cell(u, i)));
    assert forall|i: int| 0 <= i < 9 implies only(s[group_cell(u, i)], #[trigger] digits[i]) && 1
        <= digits[i] <= 9 by {
        lemma_group_cell_on_board(u, i);
        let c = group_cell(u, i);
        assert(decided(s[c]));
    }
    assert forall|i: int, j: int| 0 <= i < 9 && 0 <= j < 9 && i != j implies digits[i]
        != digits[j] by {
        lemma_group_mates_are_peers(u, i, j);
        assert(s[group_cell(u, i)].contains(digits[i]));
        assert(s[group_cell(u, j)].contains(digits[j]));
    }
    assert(digits.no_duplicates());
    digits.unique_seq_to_set();
    lemma_int_range(1, 10);
    let range = set_int_range(1, 10);
    assert(digits.to_set().subset_of(range)) by {
        assert forall|e: int| digits.to_set().contains(e) implies range.contains(e) by {
            let i = choose|i: int| 0 <= i < 9 && digits[i] == e;
            assert(1 <= digits[i] <= 9);
        }
    }
    lemma_len_subset(digits.to_set(), range);
    lemma_subset_equality(digits.to_set(), range);
    assert(range.contains(d));
    assert(digits.to_set().contains(d));
    let i = choose|i: int| 0 <= i < 9 && digits[i] == d;
    assert(only(s[group_cell(u, i)], digits[i]));
    assert(is_place(s, u, d, i));
}

/// A solution is a board at rest.
pub proof fn lemma_solution_is_stable(s: Board)
    requires
        is_solution(s),
    ensures
        stable(s),
{
    reveal(stable);
    assert forall|c: int| 0 <= c < 81 implies inhabited(#[trigger] s[c]) by {
        assert(decided(s[c]));
        let d = choose|d: int| only(s[c], d);
        assert(s[c].contains(d));
    }
    assert forall|c: int| 0 <= c < 81 implies #[trigger] single_rule_at(s, c) by {
    }
    assert forall|u: int, d: int| 0 <= u < 27 && 1 <= d <= 9 implies #[trigger] group_rule_at(
        s,
        u,
        d,
    ) by {
        lemma_solution_fills_group(s, u, d);
        assert forall|i: int| #[trigger] sole_place(s, u, d, i) implies only(
            s[group_cell(u, i)],
            d,
        ) by {
            lemma_group_cell_on_board(u, i);
            let c = group_cell(u, i);
            assert(decided(s[c]));
            let e = choose|e: int| only(s[c], e);
            assert(s[c].contains(d));
        }
    }
}

/// A board at rest with every cell decided is a solution.
pub proof fn lemma_solved_stable_is_solution(s: Board)
    requires
        stable(s),
        solved(s),
    ensures
        is_solution(s),
{
    reveal(stable);
    assert forall|c: int, p: int, d: int|
        peer(c, p) && #[trigger] s[c].contains(d) implies !#[trigger] s[p].contains(d) by {
        assert(decided(s[c]));
        let e = choose|e: int| only(s[c], e);
        assert(only(s[c], d));
        assert(single_rule_at(s, c));
    }
}

} // verus!
