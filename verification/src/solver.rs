//! Reading a puzzle, and searching for its solution.

use vstd::prelude::*;
use vstd::string::StrSliceExecFns;
use crate::grid::Grid;
use crate::propagate::assign;
use crate::rules::{
    all_digits, carries, decided, greatest_stable, hopeless, inhabited, is_solution, keeps_stable,
    only, open_board, pin, refines, size, solved, stable, weight, well_formed, Board,
};
use crate::steps::{
    lemma_carries_refl, lemma_carries_stable, lemma_carries_trans, lemma_carries_unfold,
    lemma_hopeless_back, lemma_keeps_stable_trans, lemma_keeps_stable_wider,
    lemma_open_board_stable, lemma_pin_refines, lemma_refines_pin, lemma_refines_refl,
    lemma_refines_trans, lemma_size, lemma_solution_is_stable, lemma_solved_stable_is_solution,
    lemma_weight_less, lemma_weight_refines,
};
use crate::topology::State;

verus! {

/// Why no solved grid came back.
#[derive(Clone, Copy, Debug, PartialEq, Eq)]
pub enum Failure {
    /// The puzzle is not 81 characters long.
    InvalidLength,
    /// The givens contradict each other as soon as they are propagated.
    Contradiction,
    /// The givens can be propagated, but the search found no solution.
    NoSolution,
}

/// The digit that `ch` gives, or 0 where `ch` gives none: only the
/// characters `1` to `9` give a digit.
pub open spec fn given(ch: char) -> int {
    if '1' <= ch && ch <= '9' {
        ch as int - '0' as int
    } else {
        0
    }
}

/// What the first `n` characters of a puzzle allow: a cell with a given has
/// that digit only, every other cell has all nine.
pub open spec fn givens_upto(puzzle: Seq<char>, n: int) -> Board {
    Seq::new(
        81,
        |c: int|
            if c < n && given(puzzle[c]) != 0 {
                Set::new(|d: int| d == given(puzzle[c]))
            } else {
                all_digits()
            },
    )
}

/// What a puzzle of 81 characters allows.
pub open spec fn givens(puzzle: Seq<char>) -> Board {
    givens_upto(puzzle, 81)
}

fn given_digit(ch: char) -> (digit: u8)
    ensures
        digit == given(ch),
        0 <= digit <= 9,
{
    if '1' <= ch && ch <= '9' {
        (ch as u32 - '0' as u32) as u8
    } else {
        0
    }
}

proof fn lemma_givens_narrow(puzzle: Seq<char>, n: int, m: int)
    requires
        0 <= n <= m <= 81,
    ensures
        refines(givens_upto(puzzle, m), givens_upto(puzzle, n)),
{
}

proof fn lemma_no_given(puzzle: Seq<char>, n: int)
    requires
        0 <= n < 81,
        given(puzzle[n]) == 0,
    ensures
        givens_upto(puzzle, n + 1) == givens_upto(puzzle, n),
{
    assert(givens_upto(puzzle, n + 1) =~= givens_upto(puzzle, n));
}

proof fn lemma_given_pins(puzzle: Seq<char>, n: int, x: Board)
    requires
        0 <= n < 81,
        given(puzzle[n]) != 0,
        refines(x, givens_upto(puzzle, n)),
        keeps_stable(givens_upto(puzzle, n), x),
    ensures
        refines(pin(x, n, given(puzzle[n])), givens_upto(puzzle, n + 1)),
        keeps_stable(givens_upto(puzzle, n + 1), pin(x, n, given(puzzle[n]))),
{
    reveal(keeps_stable);
    let d = given(puzzle[n]);
    let before = givens_upto(puzzle, n);
    let after = givens_upto(puzzle, n + 1);
    let px = pin(x, n, d);
    assert forall|c: int, e: int| 0 <= c < 81 && #[trigger] px[c].contains(e) implies after[c].contains(
        e,
    ) by {
        if c != n {
            assert(x[c].contains(e));
            assert(before[c].contains(e));
        }
    }
    assert forall|g: Board| stable(g) && #[trigger] refines(g, after) implies refines(g, px) by {
        lemma_givens_narrow(puzzle, n, n + 1);
        lemma_refines_trans(g, after, before);
        assert(refines(g, x));
        assert forall|e: int| g[n].contains(e) implies e == d by {
            assert(after[n].contains(e));
        }
        lemma_refines_pin(g, x, n, d);
    }
}

/// Reads a puzzle: 81 characters, one per cell in row-major order, where
/// `1` to `9` give the cell's digit and any other character leaves the cell
/// open. Every given is assigned in turn, with its consequences.
///
/// The result is the largest board at rest that the givens allow. Where
/// there is none, the givens contradict each other.
pub fn parse_grid(grid_str: &str, state: &State) -> (r: Result<Grid, Failure>)
    requires
        state.wf(),
    ensures
        r matches Err(Failure::InvalidLength) <==> grid_str@.len() != 81,
        r matches Err(Failure::Contradiction) <==> grid_str@.len() == 81 && hopeless(
            givens(grid_str@),
        ),
        r matches Ok(g) ==> greatest_stable(g@, givens(grid_str@)),
        !(r matches Err(Failure::NoSolution)),
{
    if grid_str.unicode_len() != 81 {
        return Err(Failure::InvalidLength);
    }
    let ghost puzzle = grid_str@;
    let mut grid = Grid::new();
    proof {
        lemma_open_board_stable();
        assert(givens_upto(puzzle, 0) =~= open_board());
        lemma_refines_refl(grid@);
        lemma_keeps_stable_wider(grid@, grid@);
    }
    let mut index: usize = 0;
    while index < 81
        invariant
            0 <= index <= 81,
            state.wf(),
            puzzle == grid_str@,
            puzzle.len() == 81,
            stable(grid@),
            refines(grid@, givens_upto(puzzle, index as int)),
            keeps_stable(givens_upto(puzzle, index as int), grid@),
        decreases 81 - index,
    {
        let digit = given_digit(grid_str.get_char(index));
        if digit != 0 {
            let ghost x = grid@;
            let ghost px = pin(x, index as int, digit as int);
            proof {
                lemma_given_pins(puzzle, index as int, x);
            }
            let ok = assign(&mut grid, index, digit, state);
            proof {
                let after = givens_upto(puzzle, index + 1);
                if ok {
                    lemma_refines_trans(grid@, px, after);
                    lemma_keeps_stable_trans(after, px, grid@);
                    lemma_carries_stable(x, grid@);
                } else {
                    lemma_hopeless_back(after, px);
                    lemma_givens_narrow(puzzle, index + 1, 81);
                    lemma_keeps_stable_wider(givens(puzzle), after);
                    lemma_hopeless_back(givens(puzzle), after);
                }
            }
            if !ok {
                return Err(Failure::Contradiction);
            }
        } else {
            proof {
                lemma_no_given(puzzle, index as int);
            }
        }
        index = index + 1;
    }
    proof {
        crate::steps::lemma_witness_not_hopeless(grid@, givens(puzzle));
    }
    Ok(grid)
}


/// No solution lies within `a`.
#[verifier::opaque]
pub open spec fn barren(a: Board) -> bool {
    forall|s: Board| is_solution(s) ==> !#[trigger] refines(s, a)
}

/// `c` is the cell to branch on: of the cells with more than one candidate,
/// the first that has the fewest.
pub open spec fn is_branch_cell(b: Board, c: int) -> bool {
    &&& 0 <= c < 81
    &&& size(b[c]) > 1
    &&& forall|x: int| 0 <= x < 81 && size(#[trigger] b[x]) > 1 ==> size(b[c]) <= size(b[x])
    &&& forall|x: int| 0 <= x < c && size(#[trigger] b[x]) > 1 ==> size(b[c]) < size(b[x])
}

/// The cell to branch on, where there is one.
pub open spec fn branch_cell(b: Board) -> int {
    choose|c: int| is_branch_cell(b, c)
}

/// The largest board at rest within `a`, if there is one.
pub open spec fn settled(a: Board) -> Option<Board> {
    if exists|g: Board| greatest_stable(g, a) {
        Some(choose|g: Board| greatest_stable(g, a))
    } else {
        None
    }
}

/// The solution that depth-first search finds on `b`.
///
/// A solved board is its own solution. Otherwise the search branches on
/// `branch_cell(b)` and tries that cell's candidates in ascending order.
pub open spec fn first_solution(b: Board) -> Option<Board>
    decreases weight(b), 10int,
{
    if solved(b) {
        Some(b)
    } else if exists|c: int| is_branch_cell(b, c) {
        first_from(b, branch_cell(b), 1)
    } else {
        None
    }
}

/// The solution that the search finds on `b` when it branches on cell `c`
/// and has only the candidates from `d` upwards left to try: for each, the
/// cell is decided on it, the board settled, and the search goes on from
/// there; the first solution found is the result.
pub open spec fn first_from(b: Board, c: int, d: int) -> Option<Board>
    decreases weight(b), 10 - d,
{
    if d < 1 || d > 9 {
        None
    } else if !b[c].contains(d) {
        first_from(b, c, d + 1)
    } else {
        match settled(pin(b, c, d)) {
            Some(g) => if weight(g) < weight(b) && first_solution(g) is Some {
                first_solution(g)
            } else {
                first_from(b, c, d + 1)
            },
            None => first_from(b, c, d + 1),
        }
    }
}

/// `b` with cell `c` held to its candidates below `d`.
pub open spec fn below(b: Board, c: int, d: int) -> Board {
    b.update(c, Set::new(|e: int| e < d && b[c].contains(e)))
}

/// There is at most one largest board at rest within a board.
pub proof fn lemma_greatest_stable_unique(g: Board, h: Board, a: Board)
    requires
        greatest_stable(g, a),
        greatest_stable(h, a),
    ensures
        g == h,
{
    reveal(keeps_stable);
    assert(refines(g, h));
    assert(refines(h, g));
    crate::steps::lemma_refines_antisymmetric(g, h);
}

/// The largest board at rest within a board is what `settled` gives.
pub proof fn lemma_settled(g: Board, a: Board)
    requires
        greatest_stable(g, a),
    ensures
        settled(a) == Some(g),
{
    let h = choose|h: Board| greatest_stable(h, a);
    lemma_greatest_stable_unique(g, h, a);
}

proof fn lemma_unsettled(a: Board)
    requires
        hopeless(a),
    ensures
        settled(a) is None,
{
    reveal(hopeless);
    if exists|g: Board| greatest_stable(g, a) {
        let g = choose|g: Board| greatest_stable(g, a);
        assert(refines(g, a));
    }
}

proof fn lemma_first_from_skip(b: Board, c: int, lo: int, hi: int)
    requires
        1 <= lo <= hi <= 10,
        forall|e: int| lo <= e < hi ==> !b[c].contains(e),
    ensures
        first_from(b, c, lo) == first_from(b, c, hi),
    decreases hi - lo,
{
    if lo < hi {
        lemma_first_from_skip(b, c, lo + 1, hi);
    }
}

proof fn lemma_hopeless_barren(a: Board)
    requires
        hopeless(a),
    ensures
        barren(a),
{
    reveal(hopeless);
    reveal(barren);
    assert forall|s: Board| is_solution(s) implies !#[trigger] refines(s, a) by {
        lemma_solution_is_stable(s);
    }
}

proof fn lemma_barren_back(a: Board, b: Board)
    requires
        keeps_stable(a, b),
        barren(b),
    ensures
        barren(a),
{
    reveal(keeps_stable);
    reveal(barren);
    assert forall|s: Board| is_solution(s) implies !#[trigger] refines(s, a) by {
        lemma_solution_is_stable(s);
        if refines(s, a) {
            assert(refines(s, b));
        }
    }
}

proof fn lemma_barren_start(b: Board, c: int)
    requires
        b.len() == 81,
        well_formed(b),
        0 <= c < 81,
    ensures
        barren(below(b, c, 1)),
{
    reveal(barren);
    let a = below(b, c, 1);
    assert forall|s: Board| is_solution(s) implies !#[trigger] refines(s, a) by {
        if refines(s, a) {
            assert(decided(s[c]));
            let e = choose|e: int| only(s[c], e);
            assert(s[c].contains(e));
            assert(a[c].contains(e));
        }
    }
}

proof fn lemma_barren_step(b: Board, c: int, lo: int, d: int)
    requires
        b.len() == 81,
        0 <= c < 81,
        lo <= d,
        forall|e: int| lo <= e < d ==> !b[c].contains(e),
        barren(below(b, c, lo)),
        barren(pin(b, c, d)),
    ensures
        barren(below(b, c, d + 1)),
{
    reveal(barren);
    let a = below(b, c, d + 1);
    assert forall|s: Board| is_solution(s) implies !#[trigger] refines(s, a) by {
        if refines(s, a) {
            assert(decided(s[c]));
            let e = choose|e: int| only(s[c], e);
            assert(s[c].contains(e));
            assert(a[c].contains(e));
            if e == d {
                let p = pin(b, c, d);
                assert forall|x: int, y: int| 0 <= x < 81 && #[trigger] s[x].contains(y) implies p[x].contains(
                    y,
                ) by {
                    assert(a[x].contains(y));
                }
                assert(refines(s, p));
            } else {
                let l = below(b, c, lo);
                assert forall|x: int, y: int| 0 <= x < 81 && #[trigger] s[x].contains(y) implies l[x].contains(
                    y,
                ) by {
                    assert(a[x].contains(y));
                }
                assert(refines(s, l));
            }
        }
    }
}

proof fn lemma_barren_end(b: Board, c: int, lo: int)
    requires
        b.len() == 81,
        0 <= c < 81,
        forall|e: int| lo <= e ==> !b[c].contains(e),
        barren(below(b, c, lo)),
    ensures
        barren(b),
{
    assert(below(b, c, lo)[c] =~= b[c]);
    assert(below(b, c, lo) =~= b);
}

/// Whether every cell is decided.
pub fn is_solved(grid: &Grid) -> (r: bool)
    ensures
        r == solved(grid@),
{
    proof {
        grid.lemma_well_formed();
    }
    let mut cell: usize = 0;
    while cell < 81
        invariant
            0 <= cell <= 81,
            well_formed(grid@),
            forall|c: int| 0 <= c < cell ==> decided(#[trigger] grid@[c]),
        decreases 81 - cell,
    {
        proof {
            lemma_size(grid@[cell as int]);
        }
        if grid.count(cell) != 1 {
            return false;
        }
        cell = cell + 1;
    }
    true
}

/// The cell to branch on: of the cells with more than one candidate, the
/// first in row-major order that has the fewest. `None` where no cell has
/// more than one candidate.
pub fn most_constrained(grid: &Grid) -> (r: Option<usize>)
    ensures
        match r {
            Some(c) => is_branch_cell(grid@, c as int),
            None => forall|x: int| 0 <= x < 81 ==> size(#[trigger] grid@[x]) <= 1,
        },
{
    let mut best: Option<usize> = None;
    let mut fewest: usize = 10;
    let mut cell: usize = 0;
    proof {
        grid.lemma_well_formed();
    }
    while cell < 81
        invariant
            0 <= cell <= 81,
            well_formed(grid@),
            match best {
                Some(c) => {
                    &&& c < cell
                    &&& fewest == size(grid@[c as int])
                    &&& fewest > 1
                    &&& forall|x: int|
                        0 <= x < cell && size(#[trigger] grid@[x]) > 1 ==> fewest <= size(grid@[x])
                    &&& forall|x: int|
                        0 <= x < c && size(#[trigger] grid@[x]) > 1 ==> fewest < size(grid@[x])
                },
                None => fewest == 10 && forall|x: int|
                    0 <= x < cell ==> size(#[trigger] grid@[x]) <= 1,
            },
        decreases 81 - cell,
    {
        let count = grid.count(cell);
        proof {
            lemma_size(grid@[cell as int]);
        }
        if count > 1 && count < fewest {
            best = Some(cell);
            fewest = count;
        }
        cell = cell + 1;
    }
    best
}

/// Depth-first search for a solution within `grid`.
///
/// A grid with every cell decided is returned as it is. Otherwise the search
/// branches on the most constrained cell and tries its candidates in
/// ascending order, each on a copy of the grid: the candidate is assigned,
/// and if that succeeds the search goes on from the copy. The first solved
/// grid found is the result; `None` means that every branch failed.
///
/// A grid that comes back is solved and descends from `grid`; `None` means
/// that no solution lies within `grid`. On a grid at rest the grid that
/// comes back is a solution, and it is `first_solution` of the grid.
pub fn search(grid: &Grid, state: &State) -> (r: Option<Grid>)
    requires
        state.wf(),
    ensures
        match r {
            Some(g) => solved(g@) && carries(grid@, g@),
            None => barren(grid@),
        },
        solved(grid@) ==> r == Some(*grid),
        stable(grid@) ==> match r {
            Some(g) => is_solution(g@) && first_solution(grid@) == Some(g@),
            None => first_solution(grid@) is None,
        },
    decreases weight(grid@),
{
    let ghost b = grid@;
    proof {
        grid.lemma_well_formed();
    }
    if is_solved(grid) {
        proof {
            lemma_carries_refl(b);
            if stable(b) {
                lemma_solved_stable_is_solution(b);
            }
        }
        return Some(*grid);
    }
    let cell = match most_constrained(grid) {
        Some(cell) => cell,
        None => {
            proof {
                lemma_no_branch(b);
            }
            return None;
        },
    };
    let ghost c = cell as int;
    let digits = grid.values(cell);
    let ghost mut lo: int = 1;
    let mut i: usize = 0;
    proof {
        lemma_barren_start(b, c);
        lemma_branch_cell(b, c);
    }
    while i < digits.len()
        invariant
            0 <= i <= digits@.len(),
            state.wf(),
            b == grid@,
            c == cell,
            0 <= c < 81,
            well_formed(b),
            !solved(b),
            is_branch_cell(b, c),
            digits@.len() == size(b[c]),
            forall|x: int| 0 <= x < digits@.len() ==> b[c].contains(#[trigger] digits@[x] as int),
            forall|x: int, y: int| 0 <= x < y < digits@.len() ==> digits@[x] < digits@[y],
            forall|e: int|
                b[c].contains(e) ==> exists|x: int|
                    0 <= x < digits@.len() && #[trigger] digits@[x] == e,
            1 <= lo <= 10,
            i < digits@.len() ==> lo <= digits@[i as int],
            forall|e: int| lo <= e && (i < digits@.len() ==> e < digits@[i as int]) ==> !b[c].contains(e),
            barren(below(b, c, lo)),
            stable(b) ==> first_from(b, c, 1) == first_from(b, c, lo),
        decreases digits@.len() - i,
    {
        let digit = digits[i];
        let ghost d = digit as int;
        let ghost p = pin(b, c, d);
        let mut new_grid = *grid;
        proof {
            assert(b[c].contains(d));
            assert(1 <= d <= 9);
            lemma_first_from_skip(b, c, lo, d);
            lemma_pin_refines(b, c, d);
        }
        let ok = assign(&mut new_grid, cell, digit, state);
        let ghost n = new_grid@;
        if ok {
            proof {
                let other = if i == 0 {
                    digits@[1] as int
                } else {
                    digits@[0] as int
                };
                assert(b[c].contains(other));
                assert(other != d);
                assert(!p[c].contains(other));
                lemma_weight_less(n, b, c, other);
                if stable(b) {
                    lemma_settled(n, p);
                }
            }
            match search(&new_grid, state) {
                Some(result) => {
                    proof {
                        lemma_carries_trans(b, n, result@);
                        if stable(b) {
                            lemma_carries_stable(b, n);
                        }
                    }
                    return Some(result);
                },
                None => {
                    proof {
                        lemma_barren_back(p, n);
                        if stable(b) {
                            lemma_carries_stable(b, n);
                            assert(first_from(b, c, d) == first_from(b, c, d + 1));
                        }
                    }
                },
            }
        } else {
            proof {
                lemma_hopeless_barren(p);
                lemma_unsettled(p);
                assert(first_from(b, c, d) == first_from(b, c, d + 1));
            }
        }
        proof {
            lemma_barren_step(b, c, lo, d);
            lo = d + 1;
        }
        i = i + 1;
    }
    proof {
        lemma_barren_end(b, c, lo);
        lemma_first_from_skip(b, c, lo, 10);
    }
    None
}

proof fn lemma_no_branch(b: Board)
    requires
        well_formed(b),
        !solved(b),
        forall|x: int| 0 <= x < 81 ==> size(#[trigger] b[x]) <= 1,
    ensures
        barren(b),
        !stable(b),
        first_solution(b) is None,
{
    let x = choose|x: int| 0 <= x < 81 && !decided(#[trigger] b[x]);
    lemma_size(b[x]);
    assert(size(b[x]) == 0);
    crate::steps::lemma_empty_cell_hopeless(b, x);
    lemma_hopeless_barren(b);
    reveal(hopeless);
    if stable(b) {
        lemma_refines_refl(b);
    }
    assert forall|c: int| !is_branch_cell(b, c) by {
    }
}

proof fn lemma_branch_cell(b: Board, c: int)
    requires
        is_branch_cell(b, c),
    ensures
        branch_cell(b) == c,
{
    let x = branch_cell(b);
    assert(is_branch_cell(b, x));
    if x < c {
        assert(size(b[x]) > 1);
    }
    if c < x {
        assert(size(b[c]) > 1);
    }
}


/// The solution that `solve` finds for a puzzle of 81 characters: the
/// first solution of the largest board at rest that the givens allow.
pub open spec fn solution_of(puzzle: Seq<char>) -> Option<Board> {
    match settled(givens(puzzle)) {
        Some(b) => first_solution(b),
        None => None,
    }
}

/// Solves a puzzle: reads it, then searches.
///
/// A grid that comes back is a solution that agrees with the givens, and it
/// is `solution_of` the puzzle. Each failure says what went wrong: the
/// puzzle's length, givens that contradict each other, or givens that no
/// solution satisfies.
pub fn solve(grid: &str, state: &State) -> (r: Result<Grid, Failure>)
    requires
        state.wf(),
    ensures
        match r {
            Ok(g) => {
                &&& grid@.len() == 81
                &&& is_solution(g@)
                &&& refines(g@, givens(grid@))
                &&& solution_of(grid@) == Some(g@)
            },
            Err(Failure::InvalidLength) => grid@.len() != 81,
            Err(Failure::Contradiction) => {
                &&& grid@.len() == 81
                &&& hopeless(givens(grid@))
                &&& solution_of(grid@) is None
            },
            Err(Failure::NoSolution) => {
                &&& grid@.len() == 81
                &&& !hopeless(givens(grid@))
                &&& barren(givens(grid@))
                &&& solution_of(grid@) is None
            },
        },
{
    match parse_grid(grid, state) {
        Ok(new_grid) => {
            proof {
                lemma_settled(new_grid@, givens(grid@));
                crate::steps::lemma_witness_not_hopeless(new_grid@, givens(grid@));
            }
            match search(&new_grid, state) {
                Some(solution) => {
                    proof {
                        lemma_carries_unfold(new_grid@, solution@);
                        lemma_refines_trans(solution@, new_grid@, givens(grid@));
                    }
                    Ok(solution)
                },
                None => {
                    proof {
                        lemma_barren_back(givens(grid@), new_grid@);
                    }
                    Err(Failure::NoSolution)
                },
            }
        },
        Err(failure) => {
            proof {
                if failure == Failure::Contradiction {
                    lemma_unsettled(givens(grid@));
                }
            }
            Err(failure)
        },
    }
}

} // verus!
