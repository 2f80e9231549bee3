//! A four-player polyomino-placement board game engine (Blokus rules).
//!
//! The heart of the crate is the board-state and move-generation engine:
//! a nibble-mask representation of occupancy, per-player exclusion and
//! corner-anchor tracking, the enumerator of every legal placement of every
//! remaining piece shape, and the incremental update applied after a
//! placement.  Two independent representations are provided: a general
//! mask-based engine that works for any board size, and a windowed engine
//! specialised to the 20x20 board that tests a candidate placement with a
//! few wide bitwise operations.

pub mod mask;
pub mod piece;
pub mod state;
pub mod utils;
pub mod windowed;
