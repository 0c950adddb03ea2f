//! Constraint propagation: `assign` and `eliminate`.

use vstd::prelude::*;
use crate::grid::Grid;
use crate::layout::{group_cell, group_of, lemma_group_cell_on_board, lemma_group_of_holds, peers_of};
use crate::rules::{
    carries, greatest_stable, group_rule_at, hopeless, inhabited, is_place, keeps_stable, only, pin,
    refines, single_rule_at, size, sole_place, stable, strike, weight,
};
use crate::steps::{
    lemma_carries_refl, lemma_carries_stable, lemma_carries_trans, lemma_carries_unfold,
    lemma_decided_place_rule, lemma_decided_rule, lemma_empty_cell_hopeless, lemma_hopeless_back,
    lemma_keeps_stable_strike, lemma_keeps_stable_trans, lemma_keeps_stable_wider,
    lemma_no_place_hopeless, lemma_peer_strike_keeps, lemma_pin_refines, lemma_refines_pin,
    lemma_refines_refl, lemma_refines_trans, lemma_size, lemma_sole_place_pin_keeps,
    lemma_strike_absent, lemma_strike_refines, lemma_strike_then_mend, lemma_two_places_rule,
    lemma_undecided_rule, lemma_weight_less, lemma_weight_refines,
};
use crate::topology::State;

verus! {

/// Counts the cells of `unit` that still have `digit` as a candidate, and
/// gives the first of them.
fn places(grid: &Grid, unit: &Vec<usize>, digit: u8) -> (r: (usize, usize))
    requires
        unit@.len() == 9,
        forall|i: int| 0 <= i < 9 ==> unit@[i] < 81,
    ensures
        r.1 < 81,
        r.0 == 0 ==> forall|i: int|
            0 <= i < 9 ==> !grid@[#[trigger] unit@[i] as int].contains(digit as int),
        r.0 == 1 ==> exists|f: int|
            0 <= f < 9 && unit@[f] == r.1 && grid@[r.1 as int].contains(digit as int) && forall|
                i: int,
            |
                0 <= i < 9 && grid@[#[trigger] unit@[i] as int].contains(digit as int) ==> i == f,
        r.0 >= 2 ==> exists|f: int, s: int|
            0 <= f < s < 9 && grid@[unit@[f] as int].contains(digit as int)
                && grid@[unit@[s] as int].contains(digit as int),
{
    let mut count: usize = 0;
    let mut first: usize = 0;
    let ghost mut f: int = 0;
    let ghost mut s: int = 0;
    let mut i: usize = 0;
    while i < 9
        invariant
            0 <= i <= 9,
            unit@.len() == 9,
            forall|i: int| 0 <= i < 9 ==> unit@[i] < 81,
            count <= i,
            first < 81,
            count == 0 ==> forall|x: int|
                0 <= x < i ==> !grid@[#[trigger] unit@[x] as int].contains(digit as int),
            count >= 1 ==> 0 <= f < i && unit@[f] == first && grid@[first as int].contains(
                digit as int,
            ),
            count == 1 ==> forall|x: int|
                0 <= x < i && grid@[#[trigger] unit@[x] as int].contains(digit as int) ==> x == f,
            count >= 2 ==> f < s < i && grid@[unit@[s] as int].contains(digit as int),
        decreases 9 - i,
    {
        let cell = unit[i];
        if grid.has(cell, digit) {
            if count == 0 {
                first = cell;
                proof {
                    f = i as int;
                }
            } else {
                proof {
                    s = i as int;
                }
            }
            count = count + 1;
        }
        i = i + 1;
    }
    (count, first)
}

/// Takes `digit` away from `cell` and draws the consequences.
///
/// Does nothing and succeeds where `digit` is no candidate of `cell`.
/// Otherwise the digit goes. Where that leaves the cell with one candidate,
/// the candidate is eliminated from all twenty peers. Then each of the cell's
/// three groups is asked where `digit` can still go: nowhere is a
/// contradiction, one place is an assignment.
///
/// Returns `false` on a contradiction; the grid is then partly propagated and
/// fit only to be discarded.
///
/// Whatever the grid, the result allows nothing new and lacks `digit` at
/// `cell`; on success it descends from the grid before the call, and every
/// board at rest that the grid allowed without `digit` at `cell` is still
/// allowed; on failure there was no such board. On a grid at rest this fixes
/// the outcome: success means that the result is the largest board at rest
/// within the grid without `digit` at `cell`, failure that there is none.
pub fn eliminate(grid: &mut Grid, cell: usize, digit: u8, state: &State) -> (ok: bool)
    requires
        state.wf(),
        cell < 81,
    ensures
        refines(final(grid)@, strike(old(grid)@, cell as int, digit as int)),
        !old(grid)@[cell as int].contains(digit as int) ==> ok && *final(grid) == *old(grid),
        old(grid)@[cell as int].contains(digit as int) ==> weight(final(grid)@) < weight(
            old(grid)@,
        ),
        ok ==> carries(old(grid)@, final(grid)@),
        ok ==> keeps_stable(strike(old(grid)@, cell as int, digit as int), final(grid)@),
        !ok ==> hopeless(strike(old(grid)@, cell as int, digit as int)),
        ok && stable(old(grid)@) ==> greatest_stable(
            final(grid)@,
            strike(old(grid)@, cell as int, digit as int),
        ),
    decreases weight(old(grid)@), 0nat,
{
    let ghost g0 = grid@;
    let ghost c = cell as int;
    let ghost d = digit as int;
    proof {
        grid.lemma_well_formed();
    }
    if !grid.has(cell, digit) {
        proof {
            lemma_strike_absent(g0, c, d);
            lemma_refines_refl(g0);
            lemma_carries_refl(g0);
            lemma_keeps_stable_wider(g0, g0);
        }
        return true;
    }
    grid.strike(cell, digit);
    let ghost g1 = grid@;
    proof {
        grid.lemma_well_formed();
        lemma_strike_refines(g0, c, d);
        lemma_weight_less(g1, g0, c, d);
        lemma_size(g1[c]);
        lemma_refines_refl(g1);
        lemma_carries_refl(g1);
        lemma_keeps_stable_wider(g1, g1);
    }
    let values = grid.values(cell);
    if values.len() == 0 {
        proof {
            lemma_empty_cell_hopeless(g1, c);
        }
        return false;
    }
    if values.len() == 1 {
        let d2 = values[0];
        let peers = state.peers(cell);
        proof {
            let e = choose|e: int| only(g1[c], e);
            assert(g1[c].contains(values@[0] as int));
        }
        let mut j: usize = 0;
        while j < peers.len()
            invariant
                0 <= j <= 20,
                state.wf(),
                c == cell,
                d == digit,
                0 <= c < 81,
                g0 == old(grid)@,
                g0[c].contains(d),
                g1 == strike(g0, c, d),
                g1.len() == 81,
                weight(g1) < weight(g0),
                only(g1[c], d2 as int),
                peers@.len() == 20,
                forall|x: int| 0 <= x < 20 ==> #[trigger] peers@[x] == peers_of(c)[x],
                forall|x: int| 0 <= x < 20 ==> crate::layout::peer(c, #[trigger] peers@[x] as int),
                refines(grid@, g1),
                carries(g1, grid@),
                keeps_stable(g1, grid@),
                forall|x: int| 0 <= x < j ==> !grid@[#[trigger] peers@[x] as int].contains(d2 as int),
            decreases 20 - j,
        {
            let p = peers[j];
            let ghost x = grid@;
            proof {
                lemma_weight_refines(x, g1);
                lemma_peer_strike_keeps(x, c, d2 as int, p as int);
                assert(crate::layout::peer(c, peers@[j as int] as int));
            }
            let ok = eliminate(grid, p, d2, state);
            proof {
                let y = grid@;
                let sx = strike(x, p as int, d2 as int);
                lemma_strike_refines(x, p as int, d2 as int);
                lemma_refines_trans(y, sx, x);
                lemma_refines_trans(y, x, g1);
                lemma_keeps_stable_trans(g1, x, sx);
                if ok {
                    lemma_keeps_stable_trans(g1, sx, y);
                    lemma_carries_trans(g1, x, y);
                    assert forall|i: int| 0 <= i < j + 1 implies !y[#[trigger] peers@[i] as int].contains(
                        d2 as int,
                    ) by {
                        if i < j {
                            assert(!x[peers@[i] as int].contains(d2 as int));
                        }
                    }
                } else {
                    lemma_hopeless_back(g1, sx);
                }
            }
            if !ok {
                return false;
            }
            j = j + 1;
        }
        proof {
            let g2 = grid@;
            assert forall|e: int| g2[c].contains(e) implies e == d2 as int by {
                assert(g1[c].contains(e));
            }
            assert forall|i: int| 0 <= i < 20 implies !g2[#[trigger] peers_of(c)[i]].contains(
                d2 as int,
            ) by {
                assert(peers@[i] == peers_of(c)[i]);
            }
            lemma_decided_rule(g2, c, d2 as int);
        }
    } else {
        proof {
            lemma_undecided_rule(g1, c);
        }
    }
    let units = state.cell_groups(cell);
    let mut k: usize = 0;
    while k < units.len()
        invariant
            0 <= k <= 3,
            state.wf(),
            c == cell,
            d == digit,
            0 <= c < 81,
            1 <= d <= 9,
            g0 == old(grid)@,
            g0[c].contains(d),
            g1 == strike(g0, c, d),
            g1.len() == 81,
            weight(g1) < weight(g0),
            units@.len() == 3,
            forall|a: int| 0 <= a < 3 ==> (#[trigger] units@[a])@.len() == 9,
            forall|a: int, i: int|
                0 <= a < 3 && 0 <= i < 9 ==> #[trigger] units@[a]@[i] == group_cell(group_of(c, a), i),
            refines(grid@, g1),
            carries(g1, grid@),
            keeps_stable(g1, grid@),
            single_rule_at(grid@, c),
            forall|a: int| 0 <= a < k ==> group_rule_at(grid@, #[trigger] group_of(c, a), d),
        decreases 3 - k,
    {
        let unit = &units[k];
        let ghost u = group_of(c, k as int);
        let ghost x = grid@;
        proof {
            lemma_group_of_holds(c, k as int);
            assert forall|i: int| 0 <= i < 9 implies unit@[i] < 81 by {
                lemma_group_cell_on_board(u, i);
                assert(units@[k as int]@[i] == group_cell(u, i));
            }
        }
        let (count, place) = places(grid, unit, digit);
        proof {
            assert forall|i: int| 0 <= i < 9 implies (is_place(x, u, d, i) <==> x[unit@[i] as int].contains(
                d,
            )) by {
                assert(units@[k as int]@[i] == group_cell(u, i));
            }
        }
        if count == 0 {
            proof {
                assert forall|i: int| !is_place(x, u, d, i) by {
                    if 0 <= i < 9 {
                        assert(!x[unit@[i] as int].contains(d));
                    }
                }
                lemma_no_place_hopeless(x, u, d);
                lemma_hopeless_back(g1, x);
                lemma_weight_refines(x, g1);
            }
            return false;
        }
        if count == 1 {
            let ghost f = choose|f: int|
                0 <= f < 9 && unit@[f] == place && x[place as int].contains(d) && forall|i: int|
                    0 <= i < 9 && x[#[trigger] unit@[i] as int].contains(d) ==> i == f;
            proof {
                assert(units@[k as int]@[f] == group_cell(u, f));
                assert(sole_place(x, u, d, f)) by {
                    assert(is_place(x, u, d, f));
                    assert forall|i: int| #[trigger] is_place(x, u, d, i) implies i == f by {
                        assert(x[unit@[i] as int].contains(d));
                    }
                }
                lemma_sole_place_pin_keeps(x, u, d, f);
                lemma_weight_refines(x, g1);
            }
            let ok = assign(grid, place, digit, state);
            proof {
                let y = grid@;
                let px = pin(x, place as int, d);
                lemma_refines_trans(y, x, g1);
                if ok {
                    lemma_keeps_stable_trans(x, px, y);
                    lemma_keeps_stable_trans(g1, x, y);
                    lemma_carries_trans(g1, x, y);
                    lemma_carries_unfold(x, y);
                    assert(inhabited(x[place as int]));
                    lemma_decided_place_rule(x, y, u, d, f);
                    assert forall|a: int| 0 <= a < k + 1 implies group_rule_at(
                        y,
                        #[trigger] group_of(c, a),
                        d,
                    ) by {
                        lemma_group_of_holds(c, a);
                        if a < k {
                            assert(group_rule_at(x, group_of(c, a), d));
                        }
                    }
                } else {
                    lemma_hopeless_back(x, px);
                    lemma_hopeless_back(g1, x);
                    lemma_weight_refines(y, g1);
                }
            }
            if !ok {
                return false;
            }
        } else {
            proof {
                let (f, s) = choose|f: int, s: int|
                    0 <= f < s < 9 && x[unit@[f] as int].contains(d) && x[unit@[s] as int].contains(d);
                assert(units@[k as int]@[f] == group_cell(u, f));
                assert(units@[k as int]@[s] == group_cell(u, s));
                lemma_two_places_rule(x, u, d, f, s);
            }
        }
        k = k + 1;
    }
    proof {
        let g3 = grid@;
        lemma_strike_then_mend(g0, c, d, g3);
        lemma_weight_refines(g3, g1);
        if stable(g0) {
            lemma_carries_stable(g0, g3);
        }
    }
    true
}

/// Decides `cell` on `digit`: eliminates every other candidate of the cell,
/// each with its consequences.
///
/// Returns `false` on a contradiction; the grid is then partly propagated and
/// fit only to be discarded.
///
/// On success the cell has no candidate but `digit`, and has `digit` if it
/// had any candidate at all; the result descends from the grid before the
/// call, and every board at rest that the grid allowed with the cell decided
/// on `digit` is still allowed. On failure there was no such board. On a grid
/// at rest this fixes the outcome: success means that the result is the
/// largest board at rest within the grid with the cell decided on `digit`,
/// failure that there is none.
pub fn assign(grid: &mut Grid, cell: usize, digit: u8, state: &State) -> (ok: bool)
    requires
        state.wf(),
        cell < 81,
    ensures
        refines(final(grid)@, old(grid)@),
        ok ==> refines(final(grid)@, pin(old(grid)@, cell as int, digit as int)),
        ok && inhabited(old(grid)@[cell as int]) ==> only(final(grid)@[cell as int], digit as int),
        ok ==> carries(old(grid)@, final(grid)@),
        ok ==> keeps_stable(pin(old(grid)@, cell as int, digit as int), final(grid)@),
        !ok ==> hopeless(pin(old(grid)@, cell as int, digit as int)),
        ok && stable(old(grid)@) ==> greatest_stable(
            final(grid)@,
            pin(old(grid)@, cell as int, digit as int),
        ),
    decreases weight(old(grid)@), 1nat,
{
    let ghost g0 = grid@;
    let ghost c = cell as int;
    let ghost d = digit as int;
    let ghost pinned = pin(g0, c, d);
    proof {
        grid.lemma_well_formed();
        lemma_refines_refl(g0);
        lemma_carries_refl(g0);
        lemma_pin_refines(g0, c, d);
        lemma_keeps_stable_wider(pinned, g0);
    }
    let others = grid.values(cell);
    let mut i: usize = 0;
    while i < others.len()
        invariant
            0 <= i <= others@.len(),
            state.wf(),
            c == cell,
            d == digit,
            0 <= c < 81,
            g0 == old(grid)@,
            pinned == pin(g0, c, d),
            g0.len() == 81,
            refines(grid@, g0),
            carries(g0, grid@),
            keeps_stable(pinned, grid@),
            forall|x: int|
                0 <= x < i && others@[x] != digit ==> !grid@[c].contains(#[trigger] others@[x] as int),
        decreases others@.len() - i,
    {
        let other = others[i];
        if other != digit {
            let ghost x = grid@;
            proof {
                lemma_weight_refines(x, g0);
                lemma_keeps_stable_strike(pinned, x, c, other as int);
            }
            let ok = eliminate(grid, cell, other, state);
            proof {
                let y = grid@;
                let sx = strike(x, c, other as int);
                lemma_strike_refines(x, c, other as int);
                lemma_refines_trans(y, sx, x);
                lemma_refines_trans(y, x, g0);
                if ok {
                    lemma_keeps_stable_trans(pinned, sx, y);
                    lemma_carries_trans(g0, x, y);
                    assert forall|a: int| 0 <= a < i + 1 && others@[a] != digit implies !y[c].contains(
                        #[trigger] others@[a] as int,
                    ) by {
                        if a < i {
                            assert(!x[c].contains(others@[a] as int));
                        }
                    }
                } else {
                    lemma_hopeless_back(pinned, sx);
                }
            }
            if !ok {
                return false;
            }
        }
        i = i + 1;
    }
    proof {
        let g1 = grid@;
        assert forall|e: int| g1[c].contains(e) implies e == d by {
            assert(g0[c].contains(e));
            let a = choose|a: int| 0 <= a < others@.len() && #[trigger] others@[a] == e;
            if e != d {
                assert(!g1[c].contains(others@[a] as int));
            }
        }
        lemma_refines_pin(g1, g0, c, d);
        lemma_carries_unfold(g0, g1);
        if inhabited(g0[c]) {
            assert(inhabited(g1[c]));
            let e = choose|e: int| g1[c].contains(e);
            assert(only(g1[c], d));
        }
        if stable(g0) {
            lemma_carries_stable(g0, g1);
        }
    }
    true
}

} // verus!
