use sudoku_riddle::board::SudokuBoard;
use sudoku_riddle::creator::Creator;
use sudoku_riddle::creator::Difficulty;
use sudoku_riddle::solver::Solver;

/// A full, rule-valid grid: row r, column c holds
/// (3 * (r % 3) + r / 3 + c) % 9 + 1.
fn full_grid() -> SudokuBoard {
    let mut values = [[0u8; 9]; 9];
    for r in 0..9 {
        for c in 0..9 {
            values[r][c] = ((3 * (r % 3) + r / 3 + c) % 9 + 1) as u8;
        }
    }
    let mut board = SudokuBoard::new();
    board.set_all(values);
    board
}

#[test]
fn difficulty_tiers_remove_the_documented_counts() {
    assert_eq!(Difficulty::EASY.cells_to_remove(), 35);
    assert_eq!(Difficulty::MEDIUM.cells_to_remove(), 45);
    assert_eq!(Difficulty::HARD.cells_to_remove(), 50);
    assert_eq!(Difficulty::EXPERT.cells_to_remove(), 55);
}

#[test]
fn generated_full_grid_is_valid() {
    let mut creator = Creator::new();
    let full = creator.create_full().expect("grid generation dead-ended on every retry");
    assert!(full.is_valid());
    assert_eq!(full.free_count(), 0);
}

#[test]
fn fill_block_places_each_digit_once() {
    let mut creator = Creator::new();
    creator.fill_block(0, 0);
    let block = creator.riddle.block(0, 0);
    let mut seen = [false; 10];
    for v in block {
        assert!((1..=9).contains(&v));
        assert!(!seen[v as usize]);
        seen[v as usize] = true;
    }
    // the other cells stay empty
    assert_eq!(creator.riddle.set_count(), 9);
}

#[test]
fn solve_on_full_board_returns_it_unchanged() {
    let full = full_grid();
    let mut solver = Solver::new(full.clone());
    let solutions = solver.solve();
    assert_eq!(solutions.len(), 1);
    assert!(solutions[0] == full);
}

#[test]
fn single_hole_riddle_solves_back_to_the_grid() {
    let full = full_grid();
    let mut riddle = full.clone();
    riddle.set(0, 0, 0);
    assert_eq!(riddle.free_values(0, 0), vec![full.get(0, 0)]);
    assert_eq!(riddle.find_least_free_cell(), (0, 0));

    let mut solver = Solver::new(riddle.clone());
    let solutions = solver.solve();
    assert_eq!(solutions.len(), 1);
    assert!(solutions[0] == full);

    let mut oracle = Solver::new(riddle);
    let oracle_solutions = oracle.alt_solve();
    assert_eq!(oracle_solutions.len(), 1);
    assert!(oracle_solutions[0] == full);
}

#[test]
fn alt_solve_reports_no_solution_for_a_contradiction() {
    // Two equal digits in one row: no completion can exist.
    let mut riddle = SudokuBoard::new();
    riddle.set(0, 0, 5);
    riddle.set(0, 8, 5);
    let mut solver = Solver::new(riddle);
    assert_eq!(solver.alt_solve().len(), 0);
}

#[test]
fn alt_solve_reports_nothing_for_an_ambiguous_riddle() {
    // An empty board has many completions, so no unique one.
    let mut solver = Solver::new(SudokuBoard::new());
    assert_eq!(solver.alt_solve().len(), 0);
}

#[test]
fn can_clear_never_mutates_the_board() {
    let creator = Creator::new();
    let full = full_grid();

    // On a full grid every digit is forced once removed, and the free set
    // of an occupied cell is empty, so this succeeds trivially.
    let mut probe = full.clone();
    assert!(creator.can_clear(&mut probe, 0, 0));
    assert!(probe == full);

    // A board that becomes ambiguous when the cell goes: clearing must be
    // refused, and the board must still come back untouched.
    let mut sparse = SudokuBoard::new();
    sparse.set(0, 0, 1);
    let before = sparse.clone();
    let cleared = creator.can_clear(&mut sparse, 0, 0);
    assert!(!cleared);
    assert!(sparse == before);
}

#[test]
fn solve_returns_at_most_one_board_even_with_many_completions() {
    // The empty board has a vast number of completions; the early exit
    // still hands back exactly one, and a second call agrees.
    let mut solver = Solver::new(SudokuBoard::new());
    let first = solver.solve();
    assert_eq!(first.len(), 1);
    assert!(first[0].is_valid());
    let second = solver.solve();
    assert_eq!(second.len(), 1);
    assert!(second[0] == first[0]);
}

#[test]
fn created_riddle_has_exactly_one_solution_equal_to_the_grid() {
    let mut creator = Creator::new();
    let full = creator.create_full().expect("grid generation dead-ended on every retry");
    let riddle = creator.create_riddle(full.clone(), Difficulty::MEDIUM);

    // every placed digit comes from the full grid
    for r in 0..9 {
        for c in 0..9 {
            let v = riddle.get(r, c);
            assert!(v == 0 || v == full.get(r, c));
        }
    }
    // something was removed, and never more than the difficulty's quota
    assert!(riddle.free_count() > 0);
    assert!(riddle.set_count() >= 81 - Difficulty::MEDIUM.cells_to_remove());

    let mut oracle = Solver::new(riddle);
    let solutions = oracle.alt_solve();
    assert_eq!(solutions.len(), 1);
    assert!(solutions[0] == full);
}
