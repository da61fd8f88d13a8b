//! A Minesweeper deduction engine: a board model, a constraint builder over
//! the hidden cells next to opened numbered cells, several solution
//! enumerators that agree on the deductions they find, a solve loop that
//! applies forced moves until it gets stuck, and a guess-free board
//! generator built on top of the solve loop.

pub mod algebra;
pub mod dense;
pub mod generating;
pub mod minefield;
pub mod solver;
pub mod system;
pub mod text;

pub use minefield::{Cell, CellKind, CellState, Minefield};
