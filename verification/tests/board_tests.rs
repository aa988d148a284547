use sudoku_riddle::board::SudokuBoard;

/// A full, rule-valid grid: row r, column c holds
/// (3 * (r % 3) + r / 3 + c) % 9 + 1.
fn full_grid() -> SudokuBoard {
    let mut values = [[0u8; 9]; 9];
    for r in 0..9 {
        for c in 0..9 {
            values[r][c] = ((3 * (r % 3) + r / 3 + c) % 9 + 1) as u8;
        }
    }
    let mut board = SudokuBoard::new();
    board.set_all(values);
    board
}

#[test]
fn new_board_is_empty() {
    let board = SudokuBoard::new();
    assert_eq!(board.free_count(), 81);
    assert_eq!(board.set_count(), 0);
    for r in 0..9 {
        for c in 0..9 {
            assert_eq!(board.get(r, c), 0);
        }
    }
}

#[test]
fn set_and_get_roundtrip() {
    let mut board = SudokuBoard::new();
    board.set(4, 7, 9);
    assert_eq!(board.get(4, 7), 9);
    assert_eq!(board.set_count(), 1);
    assert_eq!(board.free_count(), 80);
    board.set(4, 7, 0);
    assert_eq!(board.get(4, 7), 0);
    assert_eq!(board.free_count(), 81);
}

#[test]
fn clear_empties_the_board() {
    let mut board = full_grid();
    assert_eq!(board.free_count(), 0);
    board.clear();
    assert_eq!(board.free_count(), 81);
}

#[test]
fn full_grid_is_valid() {
    let board = full_grid();
    assert!(board.is_valid());
}

#[test]
fn board_with_empty_cell_is_never_valid() {
    let mut board = full_grid();
    board.set(5, 5, 0);
    assert!(!board.is_valid());
}

#[test]
fn duplicate_in_row_fails_validity_and_uniqueness() {
    // Two cells of row 2 hold the same digit.
    let mut board = full_grid();
    let dup = board.get(2, 0);
    board.set(2, 8, dup);
    assert!(!board.is_valid());
    assert!(!board.has_unique_elements(board.row(2)));
}

#[test]
fn row_col_block_views() {
    let board = full_grid();
    assert_eq!(board.row(0), [1, 2, 3, 4, 5, 6, 7, 8, 9]);
    assert_eq!(board.col(0), [1, 4, 7, 2, 5, 8, 3, 6, 9]);
    assert_eq!(board.block(0, 0), [1, 2, 3, 4, 5, 6, 7, 8, 9]);
    assert_eq!(board.block(4, 4), [5, 6, 7, 8, 9, 1, 2, 3, 4]);
}

#[test]
fn get_all_matches_cells() {
    let board = full_grid();
    let all = board.get_all();
    for r in 0..9 {
        for c in 0..9 {
            assert_eq!(all[r][c], board.get(r, c));
        }
    }
}

#[test]
fn free_values_of_single_hole_is_the_removed_digit() {
    let mut board = full_grid();
    let removed = board.get(0, 0);
    board.set(0, 0, 0);
    assert_eq!(board.free_values(0, 0), vec![removed]);
}

#[test]
fn free_values_on_empty_board_is_every_digit() {
    let board = SudokuBoard::new();
    assert_eq!(board.free_values(3, 3), vec![1, 2, 3, 4, 5, 6, 7, 8, 9]);
}

#[test]
fn line_frees_shrink_as_digits_arrive() {
    let mut board = SudokuBoard::new();
    board.set(0, 0, 5);
    board.set(0, 4, 7);
    assert_eq!(board.row_free(0), vec![1, 2, 3, 4, 6, 8, 9]);
    assert_eq!(board.col_free(0), vec![1, 2, 3, 4, 6, 7, 8, 9]);
    assert_eq!(board.block_free(1, 1), vec![1, 2, 3, 4, 6, 7, 8, 9]);
}

#[test]
fn can_set_matches_free_values_membership() {
    let mut board = full_grid();
    let removed = board.get(0, 0);
    board.set(0, 0, 0);
    for v in 1..=9u8 {
        let free = board.free_values(0, 0);
        assert_eq!(board.can_set(0, 0, v), free.contains(&v));
        assert_eq!(board.can_set(0, 0, v), v == removed);
    }
}

#[test]
fn placing_a_free_value_leaves_no_duplicate() {
    let mut board = full_grid();
    let removed = board.get(4, 2);
    board.set(4, 2, 0);
    for v in 1..=9u8 {
        if board.can_set(4, 2, v) {
            let mut probe = board.clone();
            probe.set(4, 2, v);
            assert!(probe.has_unique_elements(probe.row(4)));
            assert!(probe.has_unique_elements(probe.col(2)));
            assert!(probe.has_unique_elements(probe.block(4, 2)));
        } else {
            assert_ne!(v, removed);
        }
    }
    let blocked = board.get(4, 4);
    assert!(!board.can_set(4, 2, blocked));
}

#[test]
fn find_least_free_cell_on_single_hole() {
    let mut board = full_grid();
    board.set(0, 0, 0);
    assert_eq!(board.find_least_free_cell(), (0, 0));
}

#[test]
fn find_least_free_cell_on_full_board_is_sentinel() {
    let board = full_grid();
    assert_eq!(board.find_least_free_cell(), (-1, -1));
}

#[test]
fn line_format_roundtrip_on_full_grid() {
    let board = full_grid();
    let line = board.to_line_format();
    assert_eq!(line.len(), 81);
    let mut back = SudokuBoard::new();
    assert!(back.from_line_format(line.as_bytes()).is_ok());
    assert!(back == board);
}

#[test]
fn line_format_roundtrip_on_partial_board() {
    let mut board = full_grid();
    board.set(0, 0, 0);
    board.set(8, 8, 0);
    board.set(4, 4, 0);
    let line = board.to_line_format();
    assert_eq!(line.chars().filter(|&c| c == '.').count(), 3);
    let mut back = SudokuBoard::new();
    assert!(back.from_line_format(line.as_bytes()).is_ok());
    assert!(back == board);
}

#[test]
fn decoding_a_short_line_fails() {
    let mut board = SudokuBoard::new();
    let short = ".".repeat(80);
    assert!(board.from_line_format(short.as_bytes()).is_err());
    assert_eq!(board.free_count(), 81);
}

#[test]
fn decoding_81_dots_yields_the_empty_board() {
    let mut board = SudokuBoard::new();
    board.set(3, 3, 5);
    let dots = ".".repeat(81);
    assert!(board.from_line_format(dots.as_bytes()).is_ok());
    assert_eq!(board.free_count(), 81);
}

#[test]
fn decoding_accepts_underscores_and_zeros_for_empty() {
    let mut board = SudokuBoard::new();
    let mut line = String::new();
    line.push('5');
    line.push('_');
    line.push('0');
    for _ in 3..81 {
        line.push('.');
    }
    assert!(board.from_line_format(line.as_bytes()).is_ok());
    assert_eq!(board.get(0, 0), 5);
    assert_eq!(board.get(0, 1), 0);
    assert_eq!(board.get(0, 2), 0);
    assert_eq!(board.set_count(), 1);
}

#[test]
fn decoding_rejects_an_unrecognized_byte() {
    let mut board = full_grid();
    let mut line = ".".repeat(81);
    line.replace_range(40..41, "x");
    assert!(board.from_line_format(line.as_bytes()).is_err());
    // the board is left cleared on a format error
    assert_eq!(board.free_count(), 81);
}

#[test]
fn boards_compare_by_cells() {
    let a = full_grid();
    let b = full_grid();
    assert!(a == b);
    let mut c = full_grid();
    c.set(0, 0, 0);
    assert!(a != c);
}
