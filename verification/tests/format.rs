use gameoflife::grid::{Board, Cell, GridError};

#[test]
fn encode_writes_zero_one_lines() {
    let rows = vec![vec![false, true, false], vec![true, true, true]];
    let board = Board::from_rows(&rows).expect("valid rows");
    assert_eq!(board.encode(), b"010\n111\n".to_vec());
}

#[test]
fn decode_reads_zero_one_lines() {
    let bytes = b"010\n111\n".to_vec();
    let board = Board::decode(&bytes).expect("well-formed input");
    assert_eq!(board.rows, 2);
    assert_eq!(board.cols, 3);
    assert_eq!(board.state_at(0, 0), Ok(Cell::Dead));
    assert_eq!(board.state_at(0, 1), Ok(Cell::Alive));
    assert_eq!(board.state_at(0, 2), Ok(Cell::Dead));
    assert_eq!(board.state_at(1, 0), Ok(Cell::Alive));
    assert_eq!(board.state_at(1, 1), Ok(Cell::Alive));
    assert_eq!(board.state_at(1, 2), Ok(Cell::Alive));
}

#[test]
fn decode_accepts_missing_trailing_newline() {
    let bytes = b"01\n10".to_vec();
    let board = Board::decode(&bytes).expect("well-formed input");
    assert_eq!(board.rows, 2);
    assert_eq!(board.cols, 2);
    assert_eq!(board.state_at(1, 0), Ok(Cell::Alive));
}

#[test]
fn decode_rejects_empty_input() {
    let bytes: Vec<u8> = Vec::new();
    assert_eq!(Board::decode(&bytes).unwrap_err(), GridError::InvalidDimensions);
}

#[test]
fn decode_rejects_empty_lines() {
    let bytes = b"\n".to_vec();
    assert_eq!(Board::decode(&bytes).unwrap_err(), GridError::InvalidDimensions);
}

#[test]
fn decode_rejects_ragged_lines() {
    let bytes = b"010\n01\n".to_vec();
    assert_eq!(Board::decode(&bytes).unwrap_err(), GridError::RaggedInput);
}

#[test]
fn decode_rejects_other_characters() {
    let bytes = b"010\n1x1\n".to_vec();
    assert_eq!(Board::decode(&bytes).unwrap_err(), GridError::InvalidCharacter);
}

#[test]
fn encode_then_decode_round_trips() {
    let rows = vec![
        vec![true, false, true, true],
        vec![false, false, true, false],
        vec![true, true, false, false],
    ];
    let board = Board::from_rows(&rows).expect("valid rows");
    let bytes = board.encode();
    let reloaded = Board::decode(&bytes).expect("encoded form is well-formed");
    assert_eq!(reloaded.rows, board.rows);
    assert_eq!(reloaded.cols, board.cols);
    for r in 0..3 {
        for c in 0..4 {
            assert_eq!(reloaded.state_at(r, c), board.state_at(r, c));
        }
    }
}
