//! A Sudoku solver built on an exact-cover engine with reversible column
//! elimination.

pub mod board;
pub mod coords;
pub mod covering;
pub mod dense;
pub mod entry;
pub mod exact;
pub mod links;
pub mod matrix;
pub mod rules;
pub mod text;

pub use board::Board;
pub use dense::{DLXSolver, Solve};
pub use matrix::Matrix;
