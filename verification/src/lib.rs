//! A 9x9 puzzle constraint engine: an 81-cell board with row, column and
//! 3x3-box uniqueness constraints, incremental legality tracking on every
//! edit, a deterministic backtracking solver that runs on a snapshot off the
//! interactive context, and a plain-text board codec.

pub mod board;
pub mod codec;
pub mod grid;
pub mod solver;
