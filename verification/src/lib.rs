//! A two-player chess board engine: an 8x8 grid of tiles, move generation
//! for the six piece kinds, and a selection/move state machine that applies
//! validated moves (including captures) to the board.
//!
//! Rendering, input picking and asset handling are left to an outside
//! surface; this crate owns the board state and the movement rules.

pub mod board;
pub mod movement;
pub mod movements;
pub mod piece;
