//! A verified Reversi (Othello) engine for the fixed 8x8 board, together
//! with the randomized playout search that drives the computer opponent.
//!
//! The board is a row-major sequence of 64 cells (0 empty, 1 the human
//! player, 2 the computer).  Legal-move discovery, piece flipping, the
//! perimeter optimisation, score keeping and terminal-state detection are
//! all specified against a mathematical model of the cell grid and proved.

pub mod geometry;
pub mod rules;
pub mod iset;
pub mod board;
pub mod search;
pub mod coords;
