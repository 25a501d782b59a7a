//! A Connect Four engine: a bit-packed board, a heuristic evaluator that
//! detects wins and scores open positions, and a depth-limited minimax
//! search, with and without a transposition cache.
//!
//! Every executable function carries a contract over the spec functions
//! defined next to it, and Verus proves that the function keeps it.
//!
//! * [`board`] holds the grid and its moves,
//! * [`render`] draws it as text,
//! * [`lines`] lists the lines along which four discs can align,
//! * [`naive_score`] judges a position,
//! * [`search`] says which move the search owes,
//! * [`smart_minmax`] finds it with a cache, and [`minmax`] without one,
//!   counting the positions it meets,
//! * [`counts`] sums such counts up.

pub mod board;
pub mod counts;
pub mod lines;
pub mod minmax;
pub mod naive_score;
pub mod render;
pub mod search;
pub mod smart_minmax;

pub use board::{Color, Position, Slot};
