//! A sudoku solver: a 9x9 board read from 81 symbols, solved by
//! depth-first backtracking over the empty cells in row-major order.

pub mod board;
pub mod grid;
pub mod render;
pub mod symbols;

pub use board::{Board, BoardError};
