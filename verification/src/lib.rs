//! A 9×9 Sudoku solver: the grid, the placement rule, the backtracking
//! search, a checker for finished grids and the text forms of a grid.

pub mod checker;
pub mod counting;
pub mod grid;
pub mod handler;
pub mod solver;
pub mod text;
