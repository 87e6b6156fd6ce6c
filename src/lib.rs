//! A 9x9 sudoku solver: depth-first search over the cells in row-major order,
//! trying the digits of each empty cell in ascending order, with the text
//! format that puzzles are read from and solutions are written in.
pub mod grid;
pub mod laws;
pub mod loader;
pub mod render;
pub mod solver;
