//! What holds of the library as a whole: of the topology, of reading a
//! puzzle, and of solving one.

use vstd::prelude::*;
use crate::format::digit_char;
use crate::layout::peer;
use crate::rules::{
    decided, greatest_stable, hopeless, inhabited, is_solution, only, refines, single_rule_at,
    stable, Board,
};
use crate::solver::{barren, first_solution, given, givens, lemma_settled, solution_of};
use crate::steps::{
    digit_at, lemma_keeps_stable_wider, lemma_refines_refl, lemma_solution_is_stable,
    lemma_witness_not_hopeless,
};

verus! {

/// A puzzle that some solution satisfies can be read: its givens do not
/// contradict each other, so `parse_grid` returns a grid for it.
pub proof fn lemma_solvable_puzzle_parses(puzzle: Seq<char>, s: Board)
    requires
        is_solution(s),
        refines(s, givens(puzzle)),
    ensures
        !hopeless(givens(puzzle)),
        exists|g: Board| stable(g) && refines(g, givens(puzzle)),
{
    lemma_solution_is_stable(s);
    lemma_witness_not_hopeless(s, givens(puzzle));
}

/// The 81 characters that write down a solved board, one digit per cell.
pub open spec fn written(s: Board) -> Seq<char> {
    Seq::new(81, |c: int| digit_char(digit_at(s, c)))
}

/// Writing a solution down and solving what was written gives the solution
/// back: reading it yields the solution itself, as the largest board at rest
/// that the givens allow, and the search returns a solved board as it is.
pub proof fn lemma_solution_round_trip(s: Board)
    requires
        is_solution(s),
    ensures
        givens(written(s)) == s,
        greatest_stable(s, givens(written(s))),
        first_solution(s) == Some(s),
        solution_of(written(s)) == Some(s),
{
    let puzzle = written(s);
    let g = givens(puzzle);
    assert forall|c: int| 0 <= c < 81 implies g[c] =~= s[c] by {
        assert(decided(s[c]));
        let d = digit_at(s, c);
        assert(only(s[c], d));
        assert(1 <= d <= 9);
        assert(given(puzzle[c]) == d);
    }
    assert(g =~= s);
    lemma_solution_is_stable(s);
    lemma_refines_refl(s);
    lemma_keeps_stable_wider(s, s);
    assert(greatest_stable(s, s));
    lemma_settled(s, s);
}

/// A puzzle that gives the same digit to two cells of one row, column or box
/// contradicts itself: no board at rest satisfies its givens, let alone a
/// solution. `parse_grid` fails on it with `Contradiction`, and `solve` with
/// it.
pub proof fn lemma_repeated_given_contradicts(puzzle: Seq<char>, i: int, j: int)
    requires
        peer(i, j),
        given(puzzle[i]) != 0,
        given(puzzle[i]) == given(puzzle[j]),
    ensures
        hopeless(givens(puzzle)),
        barren(givens(puzzle)),
        solution_of(puzzle) is None,
{
    reveal(hopeless);
    reveal(barren);
    reveal(stable);
    let a = givens(puzzle);
    let d = given(puzzle[i]);
    assert forall|g: Board| stable(g) implies !#[trigger] refines(g, a) by {
        if refines(g, a) {
            assert(inhabited(g[i]));
            assert(inhabited(g[j]));
            let x = choose|x: int| g[i].contains(x);
            let y = choose|y: int| g[j].contains(y);
            assert(a[i].contains(x));
            assert(a[j].contains(y));
            assert(only(g[i], d)) by {
                assert forall|e: int| g[i].contains(e) implies e == d by {
                    assert(a[i].contains(e));
                }
            }
            assert(single_rule_at(g, i));
            assert(!g[j].contains(d));
        }
    }
    assert forall|s: Board| is_solution(s) implies !#[trigger] refines(s, a) by {
        lemma_solution_is_stable(s);
    }
    if exists|g: Board| greatest_stable(g, a) {
        let g = choose|g: Board| greatest_stable(g, a);
        assert(refines(g, a));
    }
}

/// Two cells of one row are peers, so the theorem above holds of a digit
/// given twice in a row.
pub proof fn lemma_row_mates_are_peers(i: int, j: int)
    requires
        0 <= i < 81,
        0 <= j < 81,
        i != j,
        i / 9 == j / 9,
    ensures
        peer(i, j),
{
}

/// A puzzle with a solution has one within every board at rest that its
/// givens allow, so the search after reading finds one: `solve` succeeds
/// exactly on the puzzles that have a solution.
pub proof fn lemma_solutions_survive_reading(puzzle: Seq<char>, g: Board, s: Board)
    requires
        greatest_stable(g, givens(puzzle)),
        is_solution(s),
        refines(s, givens(puzzle)),
    ensures
        refines(s, g),
        !barren(g),
        !barren(givens(puzzle)),
{
    reveal(crate::rules::keeps_stable);
    reveal(barren);
    lemma_solution_is_stable(s);
}

} // verus!
