use sudoku::{
    assign, eliminate, init_stuff, is_solved, most_constrained, parse_grid, search, solve, Failure,
    Grid,
};

const PUZZLE: &str =
    "003020600900305001001806400008102900700000008006708200002609500800203009005010300";
const SOLUTION: &str =
    "483921657967345821251876493548132976729564138136798245372689514814253769695417382";

fn digits(grid: &Grid) -> String {
    let mut text = String::new();
    for cell in 0..81 {
        let values = grid.values(cell);
        assert_eq!(values.len(), 1);
        text.push((b'0' + values[0]) as char);
    }
    text
}

#[test]
fn test_parse_grid_validation() {
    let state = init_stuff();
    assert_eq!(parse_grid("1234", &state).is_err(), true);
    assert_eq!(
        parse_grid(
            "123456789123456789123456789123456789123456789123456789123456789123456789123456789",
            &state
        )
        .is_err(),
        true
    );
    let grid =
        "003020600900305001001806400008102900700000008006708200002609500800203009005010300";
    assert_eq!(parse_grid(grid, &state).is_ok(), true);
}

#[test]
fn parse_grid_tells_its_failures_apart() {
    let state = init_stuff();
    assert_eq!(parse_grid("1234", &state), Err(Failure::InvalidLength));
    assert_eq!(parse_grid("", &state), Err(Failure::InvalidLength));
    assert_eq!(parse_grid(&".".repeat(80), &state), Err(Failure::InvalidLength));
    assert_eq!(parse_grid(&".".repeat(82), &state), Err(Failure::InvalidLength));
    assert_eq!(
        parse_grid(
            "123456789123456789123456789123456789123456789123456789123456789123456789123456789",
            &state
        ),
        Err(Failure::Contradiction)
    );
}

#[test]
fn parse_grid_counts_characters() {
    let state = init_stuff();
    let puzzle = "é".repeat(81);
    assert_eq!(parse_grid(&puzzle, &state), Ok(Grid::new()));
    let short = "é".repeat(40) + ".";
    assert_eq!(short.len(), 81);
    assert_eq!(parse_grid(&short, &state), Err(Failure::InvalidLength));
}

#[test]
fn any_character_but_a_digit_leaves_the_cell_open() {
    let state = init_stuff();
    assert_eq!(parse_grid(&".".repeat(81), &state), Ok(Grid::new()));
    assert_eq!(parse_grid(&"0".repeat(81), &state), Ok(Grid::new()));
    assert_eq!(parse_grid(&"x".repeat(81), &state), Ok(Grid::new()));
    let dots = PUZZLE.replace('0', ".");
    assert_eq!(parse_grid(&dots, &state), parse_grid(PUZZLE, &state));
}

#[test]
fn the_puzzle_solves_to_its_solution() {
    let state = init_stuff();
    let grid = solve(PUZZLE, &state).unwrap();
    assert!(is_solved(&grid));
    assert_eq!(digits(&grid), SOLUTION);
    assert_eq!(&digits(&grid)[0..9], "483921657");
    assert_eq!(&digits(&grid)[72..81], "695417382");
}

#[test]
fn a_solved_grid_comes_back_unchanged() {
    let state = init_stuff();
    let solved = solve(PUZZLE, &state).unwrap();
    let again = parse_grid(&digits(&solved), &state).unwrap();
    assert_eq!(again, solved);
    assert_eq!(search(&again, &state), Some(solved));
    assert_eq!(solve(SOLUTION, &state), Ok(solved));
}

#[test]
fn a_digit_given_twice_in_a_row_is_a_contradiction() {
    let state = init_stuff();
    let mut puzzle = ".".repeat(81).into_bytes();
    puzzle[0] = b'5';
    puzzle[7] = b'5';
    let puzzle = String::from_utf8(puzzle).unwrap();
    assert_eq!(parse_grid(&puzzle, &state), Err(Failure::Contradiction));
    assert_eq!(solve(&puzzle, &state), Err(Failure::Contradiction));
}

#[test]
fn a_digit_given_twice_in_a_column_or_box_is_a_contradiction() {
    let state = init_stuff();
    for other in [9, 72, 10, 20] {
        let mut puzzle = ".".repeat(81).into_bytes();
        puzzle[0] = b'7';
        puzzle[other] = b'7';
        let puzzle = String::from_utf8(puzzle).unwrap();
        assert_eq!(solve(&puzzle, &state), Err(Failure::Contradiction));
    }
}

#[test]
fn solve_reports_the_length() {
    let state = init_stuff();
    assert_eq!(solve("", &state), Err(Failure::InvalidLength));
    assert_eq!(solve(&PUZZLE[1..], &state), Err(Failure::InvalidLength));
}

#[test]
fn givens_that_hold_together_may_still_have_no_solution() {
    let state = init_stuff();
    let puzzle =
        "41.3..895.3..........7......2.....6.....8.4......1....28.643.7.56.2.....1.4......";
    let grid = parse_grid(puzzle, &state).unwrap();
    assert_eq!(search(&grid, &state), None);
    assert_eq!(solve(puzzle, &state), Err(Failure::NoSolution));
}

#[test]
fn a_hard_puzzle_needs_the_search() {
    let state = init_stuff();
    let puzzle =
        "4.....8.5.3..........7......2.....6.....8.4......1.......6.3.7.5..2.....1.4......";
    let parsed = parse_grid(puzzle, &state).unwrap();
    assert!(!is_solved(&parsed));
    let grid = solve(puzzle, &state).unwrap();
    assert_eq!(
        digits(&grid),
        "417369825632158947958724316825437169791586432346912758289643571573291684164875293"
    );
    assert_eq!(search(&parsed, &state), Some(grid));
}

#[test]
fn a_grid_with_an_empty_cell_has_no_solution() {
    let state = init_stuff();
    let mut grid = solve(PUZZLE, &state).unwrap();
    assert!(!eliminate(&mut grid, 0, 4, &state));
    assert_eq!(grid.values(0), Vec::<u8>::new());
    assert_eq!(grid.count(0), 0);
    assert!(!is_solved(&grid));
    assert_eq!(most_constrained(&grid), None);
    assert_eq!(search(&grid, &state), None);
}

#[test]
fn the_open_grid_has_a_solution() {
    let state = init_stuff();
    let grid = search(&Grid::new(), &state).unwrap();
    assert!(is_solved(&grid));
    let text = digits(&grid);
    assert_eq!(&text[0..9], "123456789");
    assert_eq!(solve(&text, &state), Ok(grid));
}

#[test]
fn assign_decides_the_cell_and_clears_its_peers() {
    let state = init_stuff();
    let mut grid = Grid::new();
    assert!(assign(&mut grid, 19, 5, &state));
    assert_eq!(grid.values(19), [5]);
    for &peer in state.peers(19) {
        assert_eq!(grid.values(peer), [1, 2, 3, 4, 6, 7, 8, 9]);
        assert!(!grid.has(peer, 5));
    }
    assert_eq!(grid.values(80), [1, 2, 3, 4, 5, 6, 7, 8, 9]);
    assert_eq!(grid.count(80), 9);
}

#[test]
fn assign_fails_on_a_digit_that_is_no_candidate() {
    let state = init_stuff();
    let mut grid = Grid::new();
    assert!(assign(&mut grid, 0, 5, &state));
    let mut copy = grid;
    assert!(!assign(&mut copy, 1, 5, &state));
    let mut copy = grid;
    assert!(!assign(&mut copy, 0, 6, &state));
    let mut copy = grid;
    assert!(!assign(&mut copy, 40, 0, &state));
    let mut copy = grid;
    assert!(!assign(&mut copy, 40, 10, &state));
    let mut copy = grid;
    assert!(assign(&mut copy, 0, 5, &state));
    assert_eq!(copy, grid);
}

#[test]
fn eliminate_is_idempotent() {
    let state = init_stuff();
    let mut grid = Grid::new();
    assert!(eliminate(&mut grid, 40, 3, &state));
    assert_eq!(grid.values(40), [1, 2, 4, 5, 6, 7, 8, 9]);
    let once = grid;
    assert!(eliminate(&mut grid, 40, 3, &state));
    assert_eq!(grid, once);
    assert!(eliminate(&mut grid, 40, 0, &state));
    assert!(eliminate(&mut grid, 40, 200, &state));
    assert_eq!(grid, once);
}

#[test]
fn eliminate_places_a_digit_that_has_one_place_left() {
    let state = init_stuff();
    let mut grid = Grid::new();
    for cell in 1..9 {
        assert!(eliminate(&mut grid, cell, 4, &state));
    }
    assert_eq!(grid.values(0), [4]);
    assert_eq!(grid.values(9), [1, 2, 3, 5, 6, 7, 8, 9]);
    assert_eq!(grid.values(1), [1, 2, 3, 5, 6, 7, 8, 9]);
}

#[test]
fn eliminate_fails_when_a_cell_runs_empty() {
    let state = init_stuff();
    let mut grid = Grid::new();
    assert!(assign(&mut grid, 0, 1, &state));
    assert!(!eliminate(&mut grid, 0, 1, &state));
    assert_eq!(grid.values(0), Vec::<u8>::new());
}

#[test]
fn the_search_branches_on_the_first_of_the_most_constrained_cells() {
    let state = init_stuff();
    assert_eq!(most_constrained(&Grid::new()), Some(0));
    let mut grid = Grid::new();
    assert!(eliminate(&mut grid, 50, 1, &state));
    assert!(eliminate(&mut grid, 30, 2, &state));
    assert_eq!(most_constrained(&grid), Some(30));
    assert!(eliminate(&mut grid, 50, 3, &state));
    assert_eq!(most_constrained(&grid), Some(50));
    let solved = solve(PUZZLE, &state).unwrap();
    assert_eq!(most_constrained(&solved), None);
    assert!(!is_solved(&grid));
}
