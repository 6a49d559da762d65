//! A Scrabble engine: the 15x15 board with its premium layout, a prefix and
//! suffix word graph as the word-validity oracle, per-square cross-checks,
//! a rack partitioner, and an anchor-driven generator that enumerates every
//! legal placement of a rack on the current board, scored and evaluated
//! against an endgame leave table.
pub mod bag;
pub mod board;
pub mod dictionary;
pub mod rack;
pub mod utils;
