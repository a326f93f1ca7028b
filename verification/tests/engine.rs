use gameoflife::grid::{Board, Cell, GridError};

fn board_from(rows: Vec<Vec<bool>>) -> Board {
    Board::from_rows(&rows).expect("rows form a valid board")
}

fn alive_at(board: &Board, row: usize, col: usize) -> bool {
    match board.state_at(row, col).expect("coordinate in range") {
        Cell::Alive => true,
        Cell::Dead => false,
    }
}

/// The B3/S23 table applied uniformly from a snapshot of the whole grid,
/// as an independent reference for the engine's transition.
fn reference_next(cells: &[Vec<bool>]) -> Vec<Vec<bool>> {
    let rows = cells.len();
    let cols = cells[0].len();
    let mut out = vec![vec![false; cols]; rows];
    for r in 0..rows {
        for c in 0..cols {
            let mut n = 0;
            for dr in [rows - 1, 0, 1] {
                for dc in [cols - 1, 0, 1] {
                    if dr == 0 && dc == 0 {
                        continue;
                    }
                    if cells[(r + dr) % rows][(c + dc) % cols] {
                        n += 1;
                    }
                }
            }
            out[r][c] = if cells[r][c] { n == 2 || n == 3 } else { n == 3 };
        }
    }
    out
}

#[test]
fn new_board_is_all_dead() {
    let board = Board::new(3, 4).expect("positive dimensions");
    assert_eq!(board.rows, 3);
    assert_eq!(board.cols, 4);
    for r in 0..3 {
        for c in 0..4 {
            assert_eq!(board.state_at(r, c), Ok(Cell::Dead));
        }
    }
}

#[test]
fn new_rejects_zero_dimensions() {
    assert_eq!(Board::new(0, 5).unwrap_err(), GridError::InvalidDimensions);
    assert_eq!(Board::new(5, 0).unwrap_err(), GridError::InvalidDimensions);
    assert_eq!(Board::new(0, 0).unwrap_err(), GridError::InvalidDimensions);
}

#[test]
fn from_rows_keeps_every_cell() {
    let board = board_from(vec![
        vec![true, false, true],
        vec![false, false, true],
    ]);
    assert_eq!(board.rows, 2);
    assert_eq!(board.cols, 3);
    assert!(alive_at(&board, 0, 0));
    assert!(!alive_at(&board, 0, 1));
    assert!(alive_at(&board, 0, 2));
    assert!(!alive_at(&board, 1, 0));
    assert!(!alive_at(&board, 1, 1));
    assert!(alive_at(&board, 1, 2));
}

#[test]
fn from_rows_rejects_ragged_rows() {
    let rows = vec![vec![true, false], vec![true]];
    assert_eq!(Board::from_rows(&rows).unwrap_err(), GridError::RaggedInput);
}

#[test]
fn from_rows_rejects_empty_input() {
    let no_rows: Vec<Vec<bool>> = vec![];
    assert_eq!(Board::from_rows(&no_rows).unwrap_err(), GridError::InvalidDimensions);
    let empty_rows: Vec<Vec<bool>> = vec![vec![], vec![]];
    assert_eq!(Board::from_rows(&empty_rows).unwrap_err(), GridError::InvalidDimensions);
}

#[test]
fn state_at_rejects_out_of_range() {
    let board = Board::new(2, 2).expect("positive dimensions");
    assert_eq!(board.state_at(2, 0).unwrap_err(), GridError::OutOfBounds);
    assert_eq!(board.state_at(0, 2).unwrap_err(), GridError::OutOfBounds);
}

#[test]
fn toroidal_wrap_counts() {
    // Only (0,0) alive on a 3x3 torus.
    let board = board_from(vec![
        vec![true, false, false],
        vec![false, false, false],
        vec![false, false, false],
    ]);
    // The center is diagonally adjacent to (0,0) without any wrap.
    assert_eq!(board.count_alive_neighbors(1, 1), 1);
    // A cell is not its own neighbor.
    assert_eq!(board.count_alive_neighbors(0, 0), 0);
    // (0,1) is directly adjacent to (0,0).
    assert_eq!(board.count_alive_neighbors(0, 1), 1);
    // (2,2) touches (0,0) only through the wrap on both axes.
    assert_eq!(board.count_alive_neighbors(2, 2), 1);
}

#[test]
fn neighbor_count_reaches_eight() {
    let board = board_from(vec![
        vec![true, true, true],
        vec![true, true, true],
        vec![true, true, true],
    ]);
    for r in 0..3 {
        for c in 0..3 {
            assert_eq!(board.count_alive_neighbors(r, c), 8);
        }
    }
}

#[test]
fn single_cell_torus_counts_itself_eight_times() {
    // On a 1x1 torus every offset wraps back to the one cell.
    let board = board_from(vec![vec![true]]);
    assert_eq!(board.count_alive_neighbors(0, 0), 8);
    let mut board = board;
    board.next_tick();
    // Alive with 8 neighbors dies.
    assert!(!alive_at(&board, 0, 0));
}

#[test]
fn block_is_still_life() {
    let mut rows = vec![vec![false; 6]; 6];
    for r in 2..4 {
        for c in 2..4 {
            rows[r][c] = true;
        }
    }
    let mut board = board_from(rows.clone());
    board.next_tick();
    for r in 0..6 {
        for c in 0..6 {
            assert_eq!(alive_at(&board, r, c), rows[r][c]);
        }
    }
}

#[test]
fn blinker_oscillates() {
    let mut rows = vec![vec![false; 7]; 7];
    rows[2][1] = true;
    rows[2][2] = true;
    rows[2][3] = true;
    let mut board = board_from(rows.clone());

    board.next_tick();
    let mut vertical = vec![vec![false; 7]; 7];
    vertical[1][2] = true;
    vertical[2][2] = true;
    vertical[3][2] = true;
    for r in 0..7 {
        for c in 0..7 {
            assert_eq!(alive_at(&board, r, c), vertical[r][c]);
        }
    }

    board.next_tick();
    for r in 0..7 {
        for c in 0..7 {
            assert_eq!(alive_at(&board, r, c), rows[r][c]);
        }
    }
}

#[test]
fn all_dead_stays_all_dead() {
    let mut board = Board::new(4, 5).expect("positive dimensions");
    for _ in 0..3 {
        board.next_tick();
        for r in 0..4 {
            for c in 0..5 {
                assert_eq!(board.state_at(r, c), Ok(Cell::Dead));
            }
        }
    }
}

#[test]
fn advance_matches_reference_on_seeded_grid() {
    // A fixed irregular pattern; the engine's transition must match the
    // table applied uniformly to the pre-advance state.
    let rows = vec![
        vec![true, false, false, true, true, false],
        vec![false, true, true, false, false, false],
        vec![true, true, false, false, true, true],
        vec![false, false, true, true, false, true],
        vec![true, false, false, true, false, false],
    ];
    let expected = reference_next(&rows);
    let mut board = board_from(rows);
    board.next_tick();
    for r in 0..5 {
        for c in 0..6 {
            assert_eq!(alive_at(&board, r, c), expected[r][c], "cell ({}, {})", r, c);
        }
    }
}

#[test]
fn iter_cells_is_row_major_with_states() {
    let board = board_from(vec![
        vec![true, false],
        vec![false, true],
    ]);
    let cells = board.iter_cells();
    assert_eq!(cells.len(), 4);
    assert_eq!(cells[0], ((0, 0), Cell::Alive));
    assert_eq!(cells[1], ((0, 1), Cell::Dead));
    assert_eq!(cells[2], ((1, 0), Cell::Dead));
    assert_eq!(cells[3], ((1, 1), Cell::Alive));
}

#[test]
fn iter_cells_is_restartable() {
    let board = board_from(vec![vec![true, false, true]]);
    let first = board.iter_cells();
    let second = board.iter_cells();
    assert_eq!(first, second);
}
