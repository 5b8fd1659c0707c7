use sudoku_wfc::board::Sudoku;
use sudoku_wfc::cell::Cell;
use sudoku_wfc::cell::CellDisplay;

fn hard_grid() -> [[u8; 9]; 9] {
    [
        [0, 2, 0, 0, 0, 0, 0, 0, 0],
        [0, 0, 0, 6, 0, 0, 0, 0, 3],
        [0, 7, 4, 0, 8, 0, 0, 0, 0],
        [0, 0, 0, 0, 0, 3, 0, 0, 2],
        [0, 8, 0, 0, 4, 0, 0, 1, 0],
        [6, 0, 0, 5, 0, 0, 0, 0, 0],
        [0, 0, 0, 0, 1, 0, 7, 8, 0],
        [5, 0, 0, 0, 0, 9, 0, 0, 0],
        [0, 0, 0, 0, 0, 0, 0, 4, 0],
    ]
}

fn hard_solution() -> [[u8; 9]; 9] {
    [
        [1, 2, 6, 4, 3, 7, 9, 5, 8],
        [8, 9, 5, 6, 2, 1, 4, 7, 3],
        [3, 7, 4, 9, 8, 5, 1, 2, 6],
        [4, 5, 7, 1, 9, 3, 8, 6, 2],
        [9, 8, 3, 2, 4, 6, 5, 1, 7],
        [6, 1, 2, 5, 7, 8, 3, 9, 4],
        [2, 6, 9, 3, 1, 4, 7, 8, 5],
        [5, 4, 8, 7, 6, 9, 2, 3, 1],
        [7, 3, 1, 8, 5, 2, 6, 4, 9],
    ]
}

fn full_valid_grid() -> [[u8; 9]; 9] {
    [
        [4, 3, 5, 2, 6, 9, 7, 8, 1],
        [6, 8, 2, 5, 7, 1, 4, 9, 3],
        [1, 9, 7, 8, 3, 4, 5, 6, 2],
        [8, 2, 6, 1, 9, 5, 3, 4, 7],
        [3, 7, 4, 6, 8, 2, 9, 1, 5],
        [9, 5, 1, 7, 4, 3, 6, 2, 8],
        [5, 1, 9, 3, 2, 6, 8, 7, 4],
        [2, 4, 8, 9, 5, 7, 1, 3, 6],
        [7, 6, 3, 4, 1, 8, 2, 5, 9],
    ]
}

fn solve_grid(grid: &[[u8; 9]; 9]) -> Sudoku {
    let mut sudoku = Sudoku::from_zero_grid(grid);
    sudoku.initialize_superpositions();
    sudoku.solve();
    sudoku
}

fn digit_at(sudoku: &Sudoku, idx: usize) -> u8 {
    match sudoku.cell(idx).display_value() {
        CellDisplay::Given(v) => v,
        CellDisplay::Deduced(v) => v,
        _ => 0,
    }
}

#[test]
fn coordinate_arithmetic() {
    assert_eq!(Sudoku::coord_to_idx((0, 0)), 0);
    assert_eq!(Sudoku::coord_to_idx((4, 7)), 43);
    assert_eq!(Sudoku::coord_to_idx((8, 8)), 80);
    assert_eq!(Sudoku::idx_to_coord(43), (4, 7));
    assert_eq!(Sudoku::idx_to_coord(80), (8, 8));
    assert_eq!(Sudoku::row_idx(43), 36);
    assert_eq!(Sudoku::col_idx(43), 7);
    assert_eq!(Sudoku::subsection_idx(0), 0);
    assert_eq!(Sudoku::subsection_idx(43), 33);
    assert_eq!(Sudoku::subsection_idx(80), 60);
    assert_eq!(Sudoku::subsection_idx(40), 30);
}

#[test]
fn collapse_single_candidate() {
    let mut flags = [false; 9];
    flags[4] = true;
    let cell = Cell::Superposition(flags);
    assert_eq!(cell.collapse(), Some(5));
}

#[test]
fn collapse_first_and_last_candidates() {
    let mut first = [false; 9];
    first[0] = true;
    assert_eq!(Cell::Superposition(first).collapse(), Some(1));
    let mut last = [false; 9];
    last[8] = true;
    assert_eq!(Cell::Superposition(last).collapse(), Some(9));
}

#[test]
fn collapse_needs_exactly_one_candidate() {
    let mut two = [false; 9];
    two[2] = true;
    two[6] = true;
    assert_eq!(Cell::Superposition(two).collapse(), None);
    assert_eq!(Cell::Superposition([false; 9]).collapse(), None);
    assert_eq!(Cell::Superposition([true; 9]).collapse(), None);
    assert_eq!(Cell::Fixed(3).collapse(), None);
    assert_eq!(Cell::Collapsed(3).collapse(), None);
    assert_eq!(Cell::Empty.collapse(), None);
}

#[test]
fn count_superstates_counts_flags() {
    assert_eq!(Cell::Superposition([true; 9]).count_superstates(), Some(9));
    assert_eq!(Cell::Superposition([false; 9]).count_superstates(), Some(0));
    let mut three = [false; 9];
    three[0] = true;
    three[4] = true;
    three[8] = true;
    assert_eq!(Cell::Superposition(three).count_superstates(), Some(3));
    assert_eq!(Cell::Fixed(1).count_superstates(), None);
    assert_eq!(Cell::Empty.count_superstates(), None);
}

#[test]
fn display_values() {
    assert_eq!(Cell::Empty.display_value(), CellDisplay::Blank);
    assert_eq!(Cell::Fixed(7).display_value(), CellDisplay::Given(7));
    assert_eq!(Cell::Collapsed(2).display_value(), CellDisplay::Deduced(2));
    assert_eq!(
        Cell::Superposition([true; 9]).display_value(),
        CellDisplay::Unresolved
    );
}

#[test]
fn construction_and_initialization() {
    let grid = hard_grid();
    let mut sudoku = Sudoku::from_zero_grid(&grid);
    assert_eq!(sudoku.cell(1).display_value(), CellDisplay::Given(2));
    assert_eq!(sudoku.cell(0).display_value(), CellDisplay::Blank);
    assert!(!sudoku.is_solved());
    sudoku.initialize_superpositions();
    assert_eq!(sudoku.cell(1).display_value(), CellDisplay::Given(2));
    assert_eq!(sudoku.cell(0).display_value(), CellDisplay::Unresolved);
    assert_eq!(sudoku.cell(0).count_superstates(), Some(9));
}

#[test]
fn propagation_clears_peer_candidates() {
    let mut grid = [[0u8; 9]; 9];
    grid[0][0] = 5;
    let mut sudoku = Sudoku::from_zero_grid(&grid);
    sudoku.initialize_superpositions();
    sudoku.propagate(0);
    // Row, column, and block peers lose candidate 5; others keep all nine.
    assert_eq!(sudoku.cell(1).count_superstates(), Some(8));
    assert_eq!(sudoku.cell(9).count_superstates(), Some(8));
    assert_eq!(sudoku.cell(10).count_superstates(), Some(8));
    assert_eq!(sudoku.cell(40).count_superstates(), Some(9));
    assert_eq!(sudoku.cell(80).count_superstates(), Some(9));
}

#[test]
fn propagation_is_idempotent() {
    let mut sudoku = Sudoku::from_zero_grid(&hard_grid());
    sudoku.initialize_superpositions();
    sudoku.propagate(1);
    let once = sudoku;
    sudoku.propagate(1);
    assert_eq!(sudoku, once);
}

#[test]
fn propagation_ignores_undetermined_cells() {
    let mut sudoku = Sudoku::from_zero_grid(&hard_grid());
    sudoku.initialize_superpositions();
    let before = sudoku;
    // Cell 0 of the hard grid is a superposition: propagating it is a no-op.
    sudoku.propagate(0);
    assert_eq!(sudoku, before);
}

#[test]
fn pure_negative_deduction_noop_on_determined() {
    let mut sudoku = Sudoku::from_zero_grid(&hard_grid());
    sudoku.initialize_superpositions();
    let before = sudoku;
    // Cell 1 is the given clue 2: deduction leaves it alone.
    sudoku.solve_pure_negative(1);
    assert_eq!(sudoku, before);
}

#[test]
fn pure_negative_deduction_collapses_unique_holder() {
    // After propagating all 80 givens, the lone blank is the only
    // superposition left in its row, so deduction collapses it to its one
    // remaining candidate.
    let mut grid = full_valid_grid();
    let missing = grid[8][8];
    grid[8][8] = 0;
    let mut sudoku = Sudoku::from_zero_grid(&grid);
    sudoku.initialize_superpositions();
    for idx in 0..80 {
        sudoku.propagate(idx);
    }
    assert_eq!(sudoku.cell(80).count_superstates(), Some(1));
    sudoku.solve_pure_negative(80);
    assert_eq!(
        sudoku.cell(80).display_value(),
        CellDisplay::Deduced(missing)
    );
}

#[test]
fn solved_grid_reports_solved_immediately() {
    let mut sudoku = Sudoku::from_zero_grid(&full_valid_grid());
    sudoku.initialize_superpositions();
    let before = sudoku;
    assert!(sudoku.is_solved());
    sudoku.solve();
    // A fully determined board is a fixed point: zero mutations.
    assert_eq!(sudoku, before);
    assert!(sudoku.is_solved());
}

#[test]
fn all_zero_grid_terminates_solved() {
    let sudoku = solve_grid(&[[0u8; 9]; 9]);
    assert!(sudoku.is_solved());
}

#[test]
fn easy_deduction_single_blank() {
    // 80 givens and one blank whose peers cover eight of the nine digits:
    // propagation alone resolves it to the missing digit.
    let mut grid = full_valid_grid();
    let missing = grid[8][8];
    grid[8][8] = 0;
    let sudoku = solve_grid(&grid);
    assert!(sudoku.is_solved());
    assert_eq!(
        sudoku.cell(80).display_value(),
        CellDisplay::Deduced(missing)
    );
}

#[test]
fn hard_grid_needs_backtracking() {
    let sudoku = solve_grid(&hard_grid());
    assert!(sudoku.is_solved());
    let solution = hard_solution();
    for idx in 0..81 {
        assert_eq!(digit_at(&sudoku, idx), solution[idx / 9][idx % 9]);
    }
}

#[test]
fn givens_are_preserved() {
    let grid = hard_grid();
    let sudoku = solve_grid(&grid);
    for idx in 0..81 {
        let given = grid[idx / 9][idx % 9];
        if given != 0 {
            assert_eq!(sudoku.cell(idx).display_value(), CellDisplay::Given(given));
        }
    }
}

#[test]
fn solving_is_deterministic() {
    let first = solve_grid(&hard_grid());
    let second = solve_grid(&hard_grid());
    assert_eq!(first, second);
}

#[test]
fn solved_board_is_sound() {
    let sudoku = solve_grid(&hard_grid());
    assert!(sudoku.is_solved());
    for group in 0..9usize {
        let mut row_seen = [false; 10];
        let mut col_seen = [false; 10];
        let mut block_seen = [false; 10];
        for pos in 0..9usize {
            row_seen[digit_at(&sudoku, group * 9 + pos) as usize] = true;
            col_seen[digit_at(&sudoku, pos * 9 + group) as usize] = true;
            let block_origin = (group / 3) * 27 + (group % 3) * 3;
            block_seen[digit_at(&sudoku, block_origin + (pos / 3) * 9 + pos % 3) as usize] = true;
        }
        for digit in 1..10usize {
            assert!(row_seen[digit]);
            assert!(col_seen[digit]);
            assert!(block_seen[digit]);
        }
    }
}

#[test]
fn contradictory_input_terminates_unsolved() {
    // Two identical givens in row 8 starve the blank at (8, 8) of candidates:
    // the solve aborts and the board reports unsolved.
    let mut grid = full_valid_grid();
    let duplicated = grid[8][8];
    grid[8][8] = 0;
    grid[8][6] = duplicated;
    grid[8][7] = duplicated;
    let sudoku = solve_grid(&grid);
    assert!(!sudoku.is_solved());
}
