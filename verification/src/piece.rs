//! Teams and piece kinds.
//!
//! A piece is a tagged union over the six chess piece kinds; every kind
//! carries the team that owns it, and a pawn additionally remembers the
//! position it was first placed on, which decides double-step eligibility.

use vstd::prelude::*;

use crate::board::Position;

verus! {

/// One of the two sides of a chess game.
#[derive(Clone, Copy, PartialEq, Eq, Structural, Debug)]
pub enum Team {
    White,
    Black,
}

/// A pawn: moves straight ahead onto empty tiles (two tiles from its
/// initial position), captures one tile diagonally ahead.
#[derive(Clone, Copy, PartialEq, Eq, Structural, Debug)]
pub struct Pawn {
    /// The tile this pawn was first placed on; while the pawn still stands
    /// there it may advance two tiles.
    pub initial_pos: Position,
    pub team: Team,
}

/// A rook: slides along ranks and files.
#[derive(Clone, Copy, PartialEq, Eq, Structural, Debug)]
pub struct Rock {
    pub team: Team,
}

/// A bishop: slides along diagonals.
#[derive(Clone, Copy, PartialEq, Eq, Structural, Debug)]
pub struct Bishop {
    pub team: Team,
}

/// A knight: jumps by the eight fixed offsets.
#[derive(Clone, Copy, PartialEq, Eq, Structural, Debug)]
pub struct Knight {
    pub team: Team,
}

/// A queen: slides in all eight compass directions.
#[derive(Clone, Copy, PartialEq, Eq, Structural, Debug)]
pub struct Queen {
    pub team: Team,
}

/// A king: steps to the eight adjacent tiles.
#[derive(Clone, Copy, PartialEq, Eq, Structural, Debug)]
pub struct King {
    pub team: Team,
}

/// A piece of any kind, with its per-kind payload.
#[derive(Clone, Copy, PartialEq, Eq, Structural, Debug)]
pub enum PieceType {
    Pawn(Pawn),
    Rock(Rock),
    Bishop(Bishop),
    Knight(Knight),
    Queen(Queen),
    King(King),
}

/// The team a piece belongs to.
pub open spec fn piece_team(piece: PieceType) -> Team {
    match piece {
        PieceType::Pawn(p) => p.team,
        PieceType::Rock(r) => r.team,
        PieceType::Bishop(b) => b.team,
        PieceType::Knight(kn) => kn.team,
        PieceType::Queen(q) => q.team,
        PieceType::King(k) => k.team,
    }
}

impl PieceType {
    /// The team a piece belongs to.
    pub fn get_team(self) -> (t: Team)
        ensures
            t == piece_team(self),
    {
        match self {
            PieceType::Pawn(p) => p.team,
            PieceType::Rock(r) => r.team,
            PieceType::Bishop(b) => b.team,
            PieceType::Knight(kn) => kn.team,
            PieceType::Queen(q) => q.team,
            PieceType::King(k) => k.team,
        }
    }
}

} // verus!
