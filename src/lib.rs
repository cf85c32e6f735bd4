//! Constraint propagation for 9×9 Sudoku grids: each open square keeps the set of values
//! it may still take, and passes of row, column and box exclusion followed by collapse of
//! single candidates run until the grid is solved, stalls, or shows a contradiction.
pub mod board;
pub mod cell;
pub mod engine;
pub mod grid;
