//! Solver library for a modular placement puzzle: pieces decrement board cells
//! modulo M and the goal is an all-zero board.

pub mod bits;
pub mod bitboard;
pub mod model;
pub mod game;
pub mod piece;
pub mod solver;
pub mod level;
pub mod generate;
pub mod puzzle;
pub mod random;
pub mod text;
pub mod page;
pub mod page_bytes;
pub mod page_icons;
pub mod page_puzzle;
