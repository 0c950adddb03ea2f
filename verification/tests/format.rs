use sudoku::{center_string, format_grid, init_stuff, is_grid_boundary, solve, Grid};

#[test]
fn test_center_string() {
    assert_eq!(center_string(&"asdf".to_string(), 2), "asdf");
    assert_eq!(center_string(&"asdf".to_string(), 4), "asdf");
    assert_eq!(center_string(&"asdf".to_string(), 5), " asdf");
    assert_eq!(center_string(&"asdf".to_string(), 6), " asdf ");
    assert_eq!(center_string(&"asdf".to_string(), 7), "  asdf ");
    assert_eq!(center_string(&"asdf".to_string(), 10), "   asdf   ");
    assert_eq!(center_string(&"asdf".to_string(), 11), "    asdf   ");
}

#[test]
fn test_puzzle() {
    let state = init_stuff();
    let result = solve(
        "003020600900305001001806400008102900700000008006708200002609500800203009005010300",
        &state,
    );
    assert!(result.is_ok());

    let expected_output = String::from(
        r#"    1  2  3   4  5  6   7  8  9
  +---------+---------+---------+
A | 4  8  3 | 9  2  1 | 6  5  7 |
B | 9  6  7 | 3  4  5 | 8  2  1 |
C | 2  5  1 | 8  7  6 | 4  9  3 |
  +---------+---------+---------+
D | 5  4  8 | 1  3  2 | 9  7  6 |
E | 7  2  9 | 5  6  4 | 1  3  8 |
F | 1  3  6 | 7  9  8 | 2  4  5 |
  +---------+---------+---------+
G | 3  7  2 | 6  8  9 | 5  1  4 |
H | 8  1  4 | 2  5  3 | 7  6  9 |
I | 6  9  5 | 4  1  7 | 3  8  2 |
  +---------+---------+---------+
"#,
    );

    assert_eq!(format_grid(&result.unwrap(), &state), expected_output);
}

#[test]
fn center_string_counts_bytes() {
    assert_eq!(center_string(&"é".to_string(), 3), " é");
    assert_eq!(center_string(&"".to_string(), 3), "   ");
    assert_eq!(center_string(&"".to_string(), 0), "");
    assert_eq!(center_string(&"x".to_string(), 2), " x");
}

#[test]
fn boxes_start_at_every_third_column() {
    let starts: Vec<usize> = (0..9).filter(|&i| is_grid_boundary(i)).collect();
    assert_eq!(starts, [0, 3, 6]);
    assert!(is_grid_boundary(300));
    assert!(!is_grid_boundary(301));
    assert_eq!(is_grid_boundary(usize::MAX), usize::MAX % 3 == 0);
}

#[test]
fn an_open_grid_shows_every_candidate() {
    let state = init_stuff();
    let text = format_grid(&Grid::new(), &state);
    let lines: Vec<&str> = text.lines().collect();
    assert_eq!(lines.len(), 14);
    let cell = " 123456789 ";
    assert_eq!(
        lines[0],
        format!("  {}", "      1          2          3           4          5          6           7          8          9")
    );
    assert_eq!(lines[1], format!("  +{0}+{0}+{0}+", "-".repeat(33)));
    assert_eq!(lines[2], format!("A |{0}{0}{0}|{0}{0}{0}|{0}{0}{0}|", cell));
    assert_eq!(lines[13], lines[1]);
    assert!(text.ends_with("+\n"));
}
