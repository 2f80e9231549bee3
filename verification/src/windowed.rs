//! The windowed engine: a board representation specialised to the
//! 20x20 board, where the grids are pre-sliced into one 4x4 window per
//! anchor so that a candidate placement is tested with a couple of
//! wide bitwise operations.

pub mod piece;
pub mod state;
pub mod subsquares;
