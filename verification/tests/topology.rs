use sudoku::{cross, cross_cells, init_stuff, State};

fn names(game: &State, cells: &Vec<usize>) -> Vec<String> {
    cells.iter().map(|&c| game.cells()[c].clone()).collect()
}

#[test]
fn test_cross() {
    assert_eq!(cross(&["A", "B"], &["1", "2"]), ["A1", "A2", "B1", "B2"]);
}

#[test]
fn test_constants() {
    let game = init_stuff();

    assert_eq!(game.cells().len(), 81);
    for s in game.cells() {
        let cell = game.cell_index(s).unwrap();
        assert_eq!(game.cell_groups(cell).len(), 3);
        assert_eq!(game.peers(cell).len(), 20);
    }
    let c2 = game.cell_index("C2").unwrap();
    let groups: Vec<Vec<String>> = game.cell_groups(c2).iter().map(|g| names(&game, g)).collect();
    assert_eq!(
        groups,
        [
            ["A2", "B2", "C2", "D2", "E2", "F2", "G2", "H2", "I2"],
            ["C1", "C2", "C3", "C4", "C5", "C6", "C7", "C8", "C9"],
            ["A1", "A2", "A3", "B1", "B2", "B3", "C1", "C2", "C3"]
        ]
    );
    assert_eq!(
        names(&game, game.peers(c2)),
        [
            "A1", "A2", "A3", "B1", "B2", "B3", "C1", "C3", "C4", "C5", "C6", "C7", "C8", "C9",
            "D2", "E2", "F2", "G2", "H2", "I2"
        ]
    );

    assert_eq!(
        game.cells(),
        &vec![
            "A1", "A2", "A3", "A4", "A5", "A6", "A7", "A8", "A9", "B1", "B2", "B3", "B4", "B5",
            "B6", "B7", "B8", "B9", "C1", "C2", "C3", "C4", "C5", "C6", "C7", "C8", "C9", "D1",
            "D2", "D3", "D4", "D5", "D6", "D7", "D8", "D9", "E1", "E2", "E3", "E4", "E5", "E6",
            "E7", "E8", "E9", "F1", "F2", "F3", "F4", "F5", "F6", "F7", "F8", "F9", "G1", "G2",
            "G3", "G4", "G5", "G6", "G7", "G8", "G9", "H1", "H2", "H3", "H4", "H5", "H6", "H7",
            "H8", "H9", "I1", "I2", "I3", "I4", "I5", "I6", "I7", "I8", "I9"
        ]
    );
}

#[test]
fn cross_keeps_the_outer_loop_on_the_first_list() {
    assert_eq!(cross(&["x", "yy"], &["1", "2", "3"]), ["x1", "x2", "x3", "yy1", "yy2", "yy3"]);
    assert_eq!(cross(&[], &["1"]), Vec::<String>::new());
    assert_eq!(cross(&["A"], &[]), Vec::<String>::new());
}

#[test]
fn cross_cells_numbers_cells_row_by_row() {
    assert_eq!(cross_cells(&[0, 1], &[0, 8]), [0, 8, 9, 17]);
    assert_eq!(cross_cells(&[3, 4, 5], &[6, 7, 8]), [33, 34, 35, 42, 43, 44, 51, 52, 53]);
}

#[test]
fn there_are_27_groups_of_nine_cells() {
    let game = init_stuff();
    assert_eq!(game.groups().len(), 27);
    for group in game.groups() {
        assert_eq!(group.len(), 9);
    }
    assert_eq!(game.groups()[0], [0, 9, 18, 27, 36, 45, 54, 63, 72]);
    assert_eq!(game.groups()[9], [0, 1, 2, 3, 4, 5, 6, 7, 8]);
    assert_eq!(game.groups()[18], [0, 1, 2, 9, 10, 11, 18, 19, 20]);
    assert_eq!(game.groups()[26], [60, 61, 62, 69, 70, 71, 78, 79, 80]);
}

#[test]
fn no_cell_is_its_own_peer() {
    let game = init_stuff();
    for cell in 0..81 {
        let peers = game.peers(cell);
        assert!(!peers.contains(&cell));
        for pair in peers.windows(2) {
            assert!(pair[0] < pair[1]);
        }
        for group in game.cell_groups(cell) {
            assert!(group.contains(&cell));
            for other in group {
                assert!(*other == cell || peers.contains(other));
            }
        }
    }
}

#[test]
fn cell_index_finds_names_and_nothing_else() {
    let game = init_stuff();
    assert_eq!(game.cell_index("A1"), Some(0));
    assert_eq!(game.cell_index("C2"), Some(19));
    assert_eq!(game.cell_index("I9"), Some(80));
    assert_eq!(game.cell_index("J1"), None);
    assert_eq!(game.cell_index("A0"), None);
    assert_eq!(game.cell_index(""), None);
    assert_eq!(game.cell_index("A10"), None);
}
