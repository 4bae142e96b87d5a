//! A verified 9×9 Sudoku library.
//!
//! Puzzles arrive as 81-character lines over `{'.', '1'..'9'}` and are held in
//! a [`Sudoku`] grid. The [`IterativeDFS`] solver runs an iterative,
//! backtracking depth-first search over the empty positions and either yields
//! a [`SolvedSudoku`] — a grid proven completely and correctly filled — or
//! reports exhaustion, which proves that the givens admit no solution at all.

pub mod cells;
pub mod constraints;
pub mod grid;
pub mod measure;
pub mod solved;
pub mod solver;

pub use cells::EmptySudokuCell;
pub use cells::SudokuCell;
pub use cells::SudokuValue;
pub use cells::SudokuValues;
pub use grid::unique;
pub use grid::Sudoku;
pub use solved::SolvedSudoku;
pub use solver::all_affecting;
pub use solver::ExhaustedAllPossibilities;
pub use solver::IterativeDFS;
pub use solver::Solver;
