use sudoku::gameboard::Gameboard;
use sudoku::gameboard_controller::Direction;
use sudoku::gameboard_controller::GameboardController;

/// Flat row-major index of (column x, row y).
fn at(x: usize, y: usize) -> usize {
    y * 9 + x
}

/// A known solved grid: row y holds the cyclic pattern
/// ((y % 3) * 3 + y / 3 + x) % 9 + 1.
fn pattern_cells() -> Vec<u8> {
    let mut cells = vec![0u8; 81];
    for y in 0..9 {
        let base = (y % 3) * 3 + y / 3;
        for x in 0..9 {
            cells[at(x, y)] = (((base + x) % 9) + 1) as u8;
        }
    }
    cells
}

/// The pattern grid with one hole per row, on the main diagonal; each hole's
/// value is forced by its row, so the solution is unique.
fn diagonal_puzzle() -> GameboardController {
    let mut cells = pattern_cells();
    for y in 0..9 {
        cells[at(y, y)] = 0;
    }
    GameboardController::new(Gameboard::from_cells(cells))
}

/// An empty-board session.
fn empty_session() -> GameboardController {
    GameboardController::new(Gameboard::new())
}

#[test]
fn new_session_state() {
    let c = diagonal_puzzle();
    assert_eq!(c.gameboard.cells, c.initial_cells.cells);
    assert!(c.selected_cell.is_none());
    assert!(c.invalid_cells.is_empty());
    assert!(c.history.is_empty());
    assert!(c.changes.is_empty());
    assert!(c.hint.is_none());
    assert!(!c.show_all);
    assert!(c.solved_cache.is_none());
    assert!(!c.submitted);
}

#[test]
fn select_clamps() {
    let mut c = empty_session();
    c.select(4, 5);
    assert_eq!(c.selected_cell, Some((4, 5)));
    c.select(20, 3);
    assert_eq!(c.selected_cell, Some((8, 3)));
}

#[test]
fn move_selection_clamps_at_edges() {
    let mut c = empty_session();
    c.move_selection(Direction::Up);
    assert!(c.selected_cell.is_none());
    c.select(0, 0);
    c.move_selection(Direction::Up);
    assert_eq!(c.selected_cell, Some((0, 0)));
    c.move_selection(Direction::Left);
    assert_eq!(c.selected_cell, Some((0, 0)));
    c.move_selection(Direction::Down);
    assert_eq!(c.selected_cell, Some((0, 1)));
    c.move_selection(Direction::Right);
    assert_eq!(c.selected_cell, Some((1, 1)));
    c.select(8, 8);
    c.move_selection(Direction::Down);
    assert_eq!(c.selected_cell, Some((8, 8)));
    c.move_selection(Direction::Right);
    assert_eq!(c.selected_cell, Some((8, 8)));
}

#[test]
fn enter_digit_writes_and_logs() {
    let mut c = empty_session();
    c.select(0, 0);
    c.enter_digit(5);
    assert_eq!(c.gameboard.cells[at(0, 0)], 5);
    assert!(c.invalid_cells.is_empty());
    assert_eq!(c.history.len(), 1);
    assert_eq!(c.changes.len(), 1);
    assert_eq!(c.changes[0].x, 0);
    assert_eq!(c.changes[0].y, 0);
    assert_eq!(c.changes[0].prev, 0);
}

#[test]
fn enter_duplicate_digit_flags_both_cells() {
    let mut c = empty_session();
    c.select(0, 0);
    c.enter_digit(5);
    c.select(1, 0);
    c.enter_digit(5);
    // The derived list is recomputed from scratch, so both clashing cells
    // are flagged, in scan order.
    assert_eq!(c.invalid_cells, vec![(0, 0), (1, 0)]);
}

#[test]
fn enter_digit_fixed_cell_is_noop() {
    let mut c = diagonal_puzzle();
    // (1, 0) is non-zero in the initial puzzle, hence fixed.
    assert_ne!(c.initial_cells.cells[at(1, 0)], 0);
    let before = c.gameboard.cells.clone();
    c.select(1, 0);
    c.enter_digit(9);
    assert_eq!(c.gameboard.cells, before);
    assert!(c.history.is_empty());
    assert!(c.changes.is_empty());
}

#[test]
fn enter_same_digit_is_noop() {
    let mut c = empty_session();
    c.select(0, 0);
    c.enter_digit(5);
    let history_len = c.history.len();
    c.enter_digit(5);
    assert_eq!(c.history.len(), history_len);
    assert_eq!(c.changes.len(), 1);
}

#[test]
fn clear_cell_empties_and_unflags() {
    let mut c = empty_session();
    c.select(0, 0);
    c.enter_digit(5);
    c.select(1, 0);
    c.enter_digit(5);
    assert!(!c.invalid_cells.is_empty());
    c.clear_cell();
    assert_eq!(c.gameboard.cells[at(1, 0)], 0);
    assert!(c.invalid_cells.is_empty());
    // Clearing an already-empty cell changes nothing further.
    let history_len = c.history.len();
    c.clear_cell();
    assert_eq!(c.history.len(), history_len);
}

#[test]
fn undo_restores_grid_and_invalid_cells() {
    let mut c = empty_session();
    c.select(0, 0);
    c.enter_digit(5);
    c.select(1, 0);
    c.enter_digit(7);
    let grid_before = c.gameboard.cells.clone();
    let invalid_before = c.invalid_cells.clone();
    c.select(2, 0);
    c.enter_digit(5);
    c.undo();
    assert_eq!(c.gameboard.cells, grid_before);
    assert_eq!(c.invalid_cells, invalid_before);
}

#[test]
fn undo_with_empty_history_is_noop() {
    let mut c = empty_session();
    let before = c.gameboard.cells.clone();
    c.undo();
    assert_eq!(c.gameboard.cells, before);
}

#[test]
fn history_is_capped_at_100() {
    let mut c = empty_session();
    c.select(0, 0);
    let mut d = 0u8;
    for _ in 0..105 {
        d = if d >= 9 { 1 } else { d + 1 };
        c.enter_digit(d);
    }
    assert_eq!(c.history.len(), 100);
    // Undo still restores the latest pre-edit state.
    let mut expected = d - 1;
    if expected == 0 {
        expected = 9;
    }
    c.undo();
    assert_eq!(c.gameboard.cells[at(0, 0)], expected);
}

#[test]
fn reset_restores_initial_puzzle() {
    let mut c = diagonal_puzzle();
    c.select(0, 0);
    c.enter_digit(2); // a wrong, clashing entry
    assert!(!c.invalid_cells.is_empty());
    c.reset();
    assert_eq!(c.gameboard.cells, c.initial_cells.cells);
    assert!(c.invalid_cells.is_empty());
    assert!(c.hint.is_none());
    assert!(!c.show_all);
    assert!(c.solved_cache.is_none());
    assert!(c.selected_cell.is_none());
}

#[test]
fn reset_without_edits_is_noop() {
    let mut c = diagonal_puzzle();
    c.reset();
    assert!(c.history.is_empty());
}

#[test]
fn randomize_starts_fresh_puzzle() {
    let mut c = empty_session();
    c.select(0, 0);
    c.enter_digit(5);
    c.randomize(40);
    assert_eq!(c.gameboard.cells, c.initial_cells.cells);
    let holes = c.gameboard.cells.iter().filter(|&&v| v == 0).count();
    assert_eq!(holes, 40);
    assert!(c.invalid_cells.is_empty());
    assert!(c.hint.is_none());
    assert!(!c.show_all);
    assert!(!c.submitted);
    assert!(c.selected_cell.is_none());
}

#[test]
fn toggle_show_all_caches_solution() {
    let mut c = diagonal_puzzle();
    c.toggle_show_all();
    assert!(c.show_all);
    let cached = c.solved_cache.as_ref().expect("solvable puzzle must cache");
    assert_eq!(cached.cells, pattern_cells());
    c.toggle_show_all();
    assert!(!c.show_all);
    assert!(c.solved_cache.is_none());
}

#[test]
fn show_hint_offers_forced_cell_value() {
    // A single hole: (0, 0) is the only empty cell, and its solved value is
    // the pattern's value there.
    let mut cells = pattern_cells();
    let expected = cells[at(0, 0)];
    cells[at(0, 0)] = 0;
    let mut c = GameboardController::new(Gameboard::from_cells(cells));
    c.show_hint();
    assert_eq!(c.hint, Some(((0, 0), expected)));
    // A second invocation cancels the pending hint.
    c.show_hint();
    assert!(c.hint.is_none());
}

#[test]
fn show_hint_without_empty_cells_gives_none() {
    let mut c = GameboardController::new(Gameboard::from_cells(pattern_cells()));
    c.show_hint();
    assert!(c.hint.is_none());
}

#[test]
fn confirm_hint_by_click_commits_value() {
    let mut cells = pattern_cells();
    let expected = cells[at(0, 0)];
    cells[at(0, 0)] = 0;
    let mut c = GameboardController::new(Gameboard::from_cells(cells));
    c.show_hint();
    // A click elsewhere does not consume the hint.
    assert!(!c.confirm_hint_by_click(5, 5));
    assert!(c.hint.is_some());
    assert!(c.confirm_hint_by_click(0, 0));
    assert_eq!(c.gameboard.cells[at(0, 0)], expected);
    assert!(c.hint.is_none());
    assert_eq!(c.changes.last().map(|ch| (ch.x, ch.y, ch.prev)), Some((0, 0, 0)));
}

#[test]
fn submit_grades_entries() {
    let mut c = diagonal_puzzle();
    let solution = pattern_cells();
    // A wrong entry at (0, 0): any digit differing from the solution.
    let wrong = if solution[at(0, 0)] == 9 { 8 } else { 9 };
    c.select(0, 0);
    c.enter_digit(wrong);
    // A correct entry at (1, 1).
    c.select(1, 1);
    c.enter_digit(solution[at(1, 1)]);
    // (2, 2) is left empty.
    c.submit();
    assert!(c.submitted);
    assert!(c.hint.is_none());
    assert!(c.invalid_cells.contains(&(0, 0)));
    assert!(!c.invalid_cells.contains(&(1, 1)));
    assert!(!c.invalid_cells.contains(&(2, 2)));
}

#[test]
fn submit_unsolvable_puzzle_aborts() {
    // The pattern grid with its last cell emptied and a clash planted in
    // column 8: the one empty cell has no acceptable digit, so the initial
    // puzzle has no solution.
    let mut cells = pattern_cells();
    cells[at(8, 8)] = 0;
    cells[at(8, 0)] = 8;
    let mut c = GameboardController::new(Gameboard::from_cells(cells));
    c.submit();
    assert!(!c.submitted);
    assert!(c.invalid_cells.is_empty());
}

#[test]
fn submitted_session_locks_all_commands() {
    let mut c = diagonal_puzzle();
    c.select(0, 0);
    c.enter_digit(4);
    c.submit();
    assert!(c.submitted);
    let grid = c.gameboard.cells.clone();
    let invalid = c.invalid_cells.clone();
    let history_len = c.history.len();
    let selected = c.selected_cell;

    c.enter_digit(7);
    c.clear_cell();
    c.undo();
    c.reset();
    c.show_hint();
    c.toggle_show_all();
    c.select(3, 3);
    c.move_selection(Direction::Down);
    assert!(!c.confirm_hint_by_click(0, 0));

    assert_eq!(c.gameboard.cells, grid);
    assert_eq!(c.invalid_cells, invalid);
    assert_eq!(c.history.len(), history_len);
    assert_eq!(c.selected_cell, selected);
    assert!(c.hint.is_none());
    assert!(!c.show_all);
    assert!(c.submitted);

    // Only randomize leaves the terminal state.
    c.randomize(10);
    assert!(!c.submitted);
}
