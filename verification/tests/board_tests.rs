use sudoku::gameboard::Gameboard;

/// Flat row-major index of (column x, row y).
fn at(x: usize, y: usize) -> usize {
    y * 9 + x
}

/// A known solved grid: row y holds the cyclic pattern
/// ((y % 3) * 3 + y / 3 + x) % 9 + 1.
fn pattern_cells() -> Vec<u8> {
    let mut cells = vec![0u8; 81];
    for y in 0..9 {
        let base = (y % 3) * 3 + y / 3;
        for x in 0..9 {
            cells[at(x, y)] = (((base + x) % 9) + 1) as u8;
        }
    }
    cells
}

/// Every row, column, and box of `cells` holds each of 1..=9 exactly once.
fn is_solved_grid(cells: &[u8]) -> bool {
    for y in 0..9 {
        let mut seen = [false; 10];
        for x in 0..9 {
            let v = cells[at(x, y)] as usize;
            if v < 1 || v > 9 || seen[v] {
                return false;
            }
            seen[v] = true;
        }
    }
    for x in 0..9 {
        let mut seen = [false; 10];
        for y in 0..9 {
            let v = cells[at(x, y)] as usize;
            if v < 1 || v > 9 || seen[v] {
                return false;
            }
            seen[v] = true;
        }
    }
    for by in 0..3 {
        for bx in 0..3 {
            let mut seen = [false; 10];
            for dy in 0..3 {
                for dx in 0..3 {
                    let v = cells[at(bx * 3 + dx, by * 3 + dy)] as usize;
                    if v < 1 || v > 9 || seen[v] {
                        return false;
                    }
                    seen[v] = true;
                }
            }
        }
    }
    true
}

#[test]
fn new_board_is_empty() {
    let b = Gameboard::new();
    assert_eq!(b.cells.len(), 81);
    for k in 0..81 {
        assert_eq!(b.cells[k], 0);
    }
}

#[test]
fn set_and_char() {
    let mut b = Gameboard::new();
    b.set(3, 4, 7);
    assert_eq!(b.cells[at(3, 4)], 7);
    assert_eq!(b.char(3, 4), Some('7'));
    assert_eq!(b.char(0, 0), None);
    b.set(3, 4, 0);
    assert_eq!(b.char(3, 4), None);
}

#[test]
fn valid_move_prefilled_row() {
    // One row pre-filled [1,2,3,4,5,6,7,8,0], all other cells empty.
    let mut cells = vec![0u8; 81];
    let row = 4;
    for x in 0..8 {
        cells[at(x, row)] = (x + 1) as u8;
    }
    let b = Gameboard::from_cells(cells);
    assert!(b.is_valid_move(row, 8, 9));
    assert!(!b.is_valid_move(row, 8, 1));
}

#[test]
fn valid_move_column_and_box() {
    let mut b = Gameboard::new();
    b.set(2, 0, 5); // column 2, row 0
    assert!(!b.is_valid_move(8, 2, 5)); // same column, row 8
    assert!(!b.is_valid_move(1, 1, 5)); // same top-left box
    assert!(b.is_valid_move(8, 3, 5)); // unrelated cell
    assert!(b.is_valid_move(8, 2, 6)); // other digit
}

#[test]
fn valid_move_ignores_own_cell() {
    let mut b = Gameboard::new();
    b.set(2, 0, 5);
    // Re-checking the written cell against its own value is not a clash.
    assert!(b.is_valid_move(0, 2, 5));
}

#[test]
fn solve_full_grid_reports_success() {
    let mut b = Gameboard::from_cells(pattern_cells());
    assert!(b.solve());
    assert!(is_solved_grid(&b.cells));
}

#[test]
fn solve_reproduces_unique_solution() {
    // One hole per row: each hole's value is forced, so the solution is
    // unique and the ascending deterministic search must reproduce it.
    let full = pattern_cells();
    let mut cells = full.clone();
    for y in 0..9 {
        cells[at(y, y)] = 0;
    }
    let mut b = Gameboard::from_cells(cells);
    assert!(b.solve());
    assert_eq!(b.cells, full);
}

#[test]
fn solve_keeps_given_cells() {
    let full = pattern_cells();
    let mut cells = full.clone();
    // Dig a deterministic spread of 40 holes.
    for k in 0..40 {
        cells[(k * 2) % 81] = 0;
    }
    let given = cells.clone();
    let mut b = Gameboard::from_cells(cells);
    assert!(b.solve());
    assert!(is_solved_grid(&b.cells));
    for k in 0..81 {
        if given[k] != 0 {
            assert_eq!(b.cells[k], given[k]);
        }
    }
}

#[test]
fn solve_unsolvable_returns_false_and_restores() {
    // The pattern grid with its last cell emptied and a clash planted: the
    // empty cell's row misses only 8, but column 8 already holds an 8, so
    // no digit fits and the search fails at once.
    let mut cells = pattern_cells();
    assert_eq!(cells[at(8, 8)], 8);
    cells[at(8, 8)] = 0;
    cells[at(8, 0)] = 8;
    let before = cells.clone();
    let mut b = Gameboard::from_cells(cells);
    assert!(!b.solve());
    assert_eq!(b.cells, before);
}

#[test]
fn generate_full_solution_is_valid() {
    let b = Gameboard::generate_full_solution();
    assert!(is_solved_grid(&b.cells));
}

#[test]
fn generate_random_hole_counts() {
    let b = Gameboard::generate_random(40);
    let nonzero = b.cells.iter().filter(|&&v| v != 0).count();
    assert_eq!(nonzero, 41);
}

#[test]
fn generate_random_all_holes() {
    let b = Gameboard::generate_random(81);
    for k in 0..81 {
        assert_eq!(b.cells[k], 0);
    }
}

#[test]
fn generate_random_no_holes_is_full_solution() {
    let b = Gameboard::generate_random(0);
    assert!(is_solved_grid(&b.cells));
}

#[test]
fn generate_random_clamps_excess_holes() {
    let b = Gameboard::generate_random(200);
    for k in 0..81 {
        assert_eq!(b.cells[k], 0);
    }
}

#[test]
fn generate_random_puzzle_is_solvable() {
    let b = Gameboard::generate_random(40);
    let mut copy = Gameboard::from_cells(b.cells.clone());
    assert!(copy.solve());
    assert!(is_solved_grid(&copy.cells));
    for k in 0..81 {
        if b.cells[k] != 0 {
            assert_eq!(copy.cells[k], b.cells[k]);
        }
    }
}

#[test]
fn duplicate_copies_cells() {
    let b = Gameboard::from_cells(pattern_cells());
    let c = b.duplicate();
    assert_eq!(b.cells, c.cells);
}
