//! Generating, carving and solving 9x9 sudoku puzzles: a grid model with
//! rule checks and a line-format codec, a backtracking solver beside an
//! external uniqueness oracle, and a creator that builds full grids and
//! carves riddles with one and only one solution.
pub mod board;
pub mod creator;
pub mod solver;
