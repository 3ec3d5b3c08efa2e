//! The board: an 8x8 grid of tiles addressed by `Position`.
//!
//! Each tile records which piece (if any) stands on it and whether it is
//! currently highlighted as a move candidate. All sliding-piece movement is
//! built on `neighbor`, which steps one tile in a compass direction.

use vstd::prelude::*;

use crate::piece::{Bishop, King, Knight, Pawn, PieceType, Queen, Rock, Team};

verus! {

/// Failures of the board engine. Both are contract violations of the caller,
/// not user-facing conditions: a well-sequenced input surface never sees them.
#[derive(Clone, Copy, PartialEq, Eq, Structural, Debug)]
pub enum ChessError {
    /// A position outside the 8x8 grid was used to address a tile.
    OutOfBounds,
    /// A selection call arrived while one was already pending, or a move
    /// attempt arrived with no selection pending.
    InvalidState,
}

/// A board coordinate: `x` is the file, `y` is the rank. On the board both
/// lie in `[0, 7]`; out-of-range values are representable and rejected by
/// the addressing functions.
#[derive(Clone, Copy, PartialEq, Eq, Structural, Debug)]
pub struct Position {
    pub x: u8,
    pub y: u8,
}

/// Whether a position lies on the 8x8 grid.
pub open spec fn in_bounds(p: Position) -> bool {
    p.x < 8 && p.y < 8
}

/// The index of a position's tile in the row-major tile table.
pub open spec fn tile_index(p: Position) -> int {
    p.y * 8 + p.x
}

/// An in-bounds position indexes the 64-entry tile table.
pub proof fn lemma_tile_index_bounds(p: Position)
    requires
        in_bounds(p),
    ensures
        0 <= tile_index(p) < 64,
{
}

/// Distinct in-bounds positions have distinct tile indices.
pub proof fn lemma_tile_index_injective(p: Position, q: Position)
    requires
        in_bounds(p),
        in_bounds(q),
    ensures
        tile_index(p) == tile_index(q) <==> p == q,
{
}

/// The eight compass directions a tile has neighbors in.
#[derive(Clone, Copy, PartialEq, Eq, Structural, Debug)]
pub enum Direction {
    North,
    South,
    East,
    West,
    NorthEast,
    NorthWest,
    SouthEast,
    SouthWest,
}

/// The file offset of one step in a direction.
pub open spec fn dir_dx(dir: Direction) -> int {
    match dir {
        Direction::East | Direction::NorthEast | Direction::SouthEast => 1,
        Direction::West | Direction::NorthWest | Direction::SouthWest => -1,
        Direction::North | Direction::South => 0,
    }
}

/// The rank offset of one step in a direction.
pub open spec fn dir_dy(dir: Direction) -> int {
    match dir {
        Direction::North | Direction::NorthEast | Direction::NorthWest => 1,
        Direction::South | Direction::SouthEast | Direction::SouthWest => -1,
        Direction::East | Direction::West => 0,
    }
}

/// The tile adjacent to `pos` in direction `dir`, or `None` at the edge.
pub open spec fn neighbor_spec(pos: Position, dir: Direction) -> Option<Position> {
    let nx = pos.x + dir_dx(dir);
    let ny = pos.y + dir_dy(dir);
    if 0 <= nx < 8 && 0 <= ny < 8 {
        Some(Position { x: nx as u8, y: ny as u8 })
    } else {
        None
    }
}

/// One step in a direction, as a (file, rank) offset pair.
fn dir_step(dir: Direction) -> (s: (i8, i8))
    ensures
        s.0 as int == dir_dx(dir),
        s.1 as int == dir_dy(dir),
{
    match dir {
        Direction::North => (0, 1),
        Direction::South => (0, -1),
        Direction::East => (1, 0),
        Direction::West => (-1, 0),
        Direction::NorthEast => (1, 1),
        Direction::NorthWest => (-1, 1),
        Direction::SouthEast => (1, -1),
        Direction::SouthWest => (-1, -1),
    }
}

/// The tile adjacent to `pos` in direction `dir`, or `None` if `pos` sits on
/// the board edge in that direction.
pub fn neighbor(pos: Position, dir: Direction) -> (r: Option<Position>)
    ensures
        r == neighbor_spec(pos, dir),
{
    let (dx, dy) = dir_step(dir);
    let nx: i16 = pos.x as i16 + dx as i16;
    let ny: i16 = pos.y as i16 + dy as i16;
    if 0 <= nx && nx < 8 && 0 <= ny && ny < 8 {
        Some(Position { x: nx as u8, y: ny as u8 })
    } else {
        None
    }
}

/// What a tile shows to the drawing surface.
#[derive(Clone, Copy, PartialEq, Eq, Structural, Debug)]
pub enum Tile {
    /// No piece stands here and the tile is not a move candidate.
    Empty,
    /// A piece stands here and the tile is not a move candidate.
    NotEmpty,
    /// The tile is a candidate of the pending selection.
    HighLighted,
}

/// The state of one tile: its occupant, if any, and whether it is marked as
/// a candidate of the pending selection.
#[derive(Clone, Copy, PartialEq, Eq, Structural, Debug)]
pub struct TileState {
    pub piece: Option<PieceType>,
    pub highlighted: bool,
}

/// The display classification of a tile state.
pub open spec fn tile_view(ts: TileState) -> Tile {
    if ts.highlighted {
        Tile::HighLighted
    } else if ts.piece is Some {
        Tile::NotEmpty
    } else {
        Tile::Empty
    }
}

impl TileState {
    /// What this tile shows: a candidate highlight, a piece, or nothing.
    pub fn tile_type(&self) -> (t: Tile)
        ensures
            t == tile_view(*self),
    {
        if self.highlighted {
            Tile::HighLighted
        } else if self.piece.is_some() {
            Tile::NotEmpty
        } else {
            Tile::Empty
        }
    }
}

/// The 8x8 board: 64 tile states in row-major order.
pub struct Board {
    tiles: Vec<TileState>,
}

impl Board {
    /// The tile table holds exactly one entry per board position.
    pub closed spec fn wf(self) -> bool {
        self.tiles@.len() == 64
    }

    /// The piece standing at `p`, or `None` for an empty or off-board tile.
    pub closed spec fn piece_at(self, p: Position) -> Option<PieceType> {
        if in_bounds(p) {
            self.tiles@[tile_index(p)].piece
        } else {
            None
        }
    }

    /// Whether the tile at `p` is marked as a move candidate.
    pub closed spec fn highlighted_at(self, p: Position) -> bool {
        in_bounds(p) && self.tiles@[tile_index(p)].highlighted
    }

    /// A board of 64 empty, unhighlighted tiles.
    pub fn new() -> (b: Board)
        ensures
            b.wf(),
            forall|p: Position| b.piece_at(p) is None,
            forall|p: Position| !b.highlighted_at(p),
    {
        let mut tiles: Vec<TileState> = Vec::new();
        let mut i: usize = 0;
        while i < 64
            invariant
                i <= 64,
                tiles@.len() == i,
                forall|j: int|
                    0 <= j < i ==> tiles@[j] == (TileState { piece: None, highlighted: false }),
            decreases 64 - i,
        {
            tiles.push(TileState { piece: None, highlighted: false });
            i = i + 1;
        }
        let b = Board { tiles };
        proof {
            assert forall|p: Position| b.piece_at(p) is None && !b.highlighted_at(p) by {
                if in_bounds(p) {
                    lemma_tile_index_bounds(p);
                }
            }
        }
        b
    }

    /// The state of the tile at `p`, or `OutOfBounds` for an off-board `p`.
    pub fn tile_at(&self, p: Position) -> (r: Result<TileState, ChessError>)
        requires
            self.wf(),
        ensures
            in_bounds(p) ==> (r matches Ok(ts) && ts.piece == self.piece_at(p) && ts.highlighted
                == self.highlighted_at(p)),
            !in_bounds(p) ==> (r matches Err(e) && e == ChessError::OutOfBounds),
    {
        if p.x < 8 && p.y < 8 {
            proof {
                lemma_tile_index_bounds(p);
            }
            let i: usize = (p.y as usize) * 8 + (p.x as usize);
            Ok(self.tiles[i])
        } else {
            Err(ChessError::OutOfBounds)
        }
    }

    /// Empties the tile at `p` and removes any highlight from it; off-board
    /// positions are ignored.
    pub fn clear(&mut self, p: Position)
        requires
            old(self).wf(),
        ensures
            final(self).wf(),
            in_bounds(p) ==> final(self).piece_at(p) is None && !final(self).highlighted_at(p),
            !in_bounds(p) ==> *final(self) == *old(self),
            forall|q: Position|
                q != p ==> final(self).piece_at(q) == old(self).piece_at(q)
                    && final(self).highlighted_at(q) == old(self).highlighted_at(q),
    {
        if p.x < 8 && p.y < 8 {
            proof {
                lemma_tile_index_bounds(p);
            }
            let i: usize = (p.y as usize) * 8 + (p.x as usize);
            self.tiles[i] = TileState { piece: None, highlighted: false };
            proof {
                assert forall|q: Position| q != p implies final(self).piece_at(q)
                    == old(self).piece_at(q)
                    && final(self).highlighted_at(q) == old(self).highlighted_at(q) by {
                    if in_bounds(q) {
                        lemma_tile_index_bounds(q);
                        lemma_tile_index_injective(q, p);
                    }
                }
            }
        }
    }

    /// Removes the highlight mark from every tile; occupancy is untouched.
    pub fn clear_highlights(&mut self)
        requires
            old(self).wf(),
        ensures
            final(self).wf(),
            forall|q: Position| !final(self).highlighted_at(q),
            forall|q: Position| final(self).piece_at(q) == old(self).piece_at(q),
    {
        let mut i: usize = 0;
        while i < 64
            invariant
                i <= 64,
                self.wf(),
                forall|j: int|
                    0 <= j < 64 ==> (#[trigger] self.tiles@[j]).piece == old(self).tiles@[j].piece,
                forall|j: int| 0 <= j < i ==> !(#[trigger] self.tiles@[j]).highlighted,
            decreases 64 - i,
        {
            let ts = self.tiles[i];
            self.tiles[i] = TileState { piece: ts.piece, highlighted: false };
            i = i + 1;
        }
        proof {
            assert forall|q: Position| !final(self).highlighted_at(q)
                && final(self).piece_at(q) == old(self).piece_at(q) by {
                if in_bounds(q) {
                    lemma_tile_index_bounds(q);
                }
            }
        }
    }
}

/// Places `piece` on the tile at `pos`, overwriting any occupant; off-board
/// positions are ignored. Highlights are untouched.
pub fn spawn_piece(board: &mut Board, piece: PieceType, pos: Position)
    requires
        old(board).wf(),
    ensures
        final(board).wf(),
        in_bounds(pos) ==> final(board).piece_at(pos) == Some(piece),
        !in_bounds(pos) ==> *final(board) == *old(board),
        forall|q: Position| q != pos ==> final(board).piece_at(q) == old(board).piece_at(q),
        forall|q: Position| final(board).highlighted_at(q) == old(board).highlighted_at(q),
{
    if pos.x < 8 && pos.y < 8 {
        proof {
            lemma_tile_index_bounds(pos);
        }
        let i: usize = (pos.y as usize) * 8 + (pos.x as usize);
        let ts = board.tiles[i];
        board.tiles[i] = TileState { piece: Some(piece), highlighted: ts.highlighted };
        proof {
            assert forall|q: Position| (q != pos ==> final(board).piece_at(q)
                == old(board).piece_at(q))
                && final(board).highlighted_at(q) == old(board).highlighted_at(q) by {
                if in_bounds(q) {
                    lemma_tile_index_bounds(q);
                    lemma_tile_index_injective(q, pos);
                }
            }
        }
    }
}

/// Marks the tile at `pos` as a candidate of the pending selection.
/// Occupancy is untouched.
pub fn highlight_tile(board: &mut Board, pos: Position)
    requires
        old(board).wf(),
        in_bounds(pos),
    ensures
        final(board).wf(),
        final(board).highlighted_at(pos),
        forall|q: Position|
            q != pos ==> final(board).highlighted_at(q) == old(board).highlighted_at(q),
        forall|q: Position| final(board).piece_at(q) == old(board).piece_at(q),
{
    proof {
        lemma_tile_index_bounds(pos);
    }
    let i: usize = (pos.y as usize) * 8 + (pos.x as usize);
    let ts = board.tiles[i];
    board.tiles[i] = TileState { piece: ts.piece, highlighted: true };
    proof {
        assert forall|q: Position| (q != pos ==> final(board).highlighted_at(q)
            == old(board).highlighted_at(q))
            && final(board).piece_at(q) == old(board).piece_at(q) by {
            if in_bounds(q) {
                lemma_tile_index_bounds(q);
                lemma_tile_index_injective(q, pos);
            }
        }
    }
}

/// The piece the standard starting layout puts on back-rank file `x`.
pub open spec fn back_rank_piece(x: int, t: Team) -> PieceType {
    if x == 0 || x == 7 {
        PieceType::Rock(Rock { team: t })
    } else if x == 1 || x == 6 {
        PieceType::Knight(Knight { team: t })
    } else if x == 2 || x == 5 {
        PieceType::Bishop(Bishop { team: t })
    } else if x == 3 {
        PieceType::Queen(Queen { team: t })
    } else {
        PieceType::King(King { team: t })
    }
}

/// The piece the standard starting layout puts at `p`: white back rank and
/// pawns on ranks 0 and 1, black pawns and back rank on ranks 6 and 7.
pub open spec fn initial_piece_at(p: Position) -> Option<PieceType> {
    if !in_bounds(p) {
        None
    } else if p.y == 0 {
        Some(back_rank_piece(p.x as int, Team::White))
    } else if p.y == 1 {
        Some(PieceType::Pawn(Pawn { initial_pos: p, team: Team::White }))
    } else if p.y == 6 {
        Some(PieceType::Pawn(Pawn { initial_pos: p, team: Team::Black }))
    } else if p.y == 7 {
        Some(back_rank_piece(p.x as int, Team::Black))
    } else {
        None
    }
}

/// The back-rank piece for file `x`, as an executable value.
fn back_rank(x: u8, t: Team) -> (pc: PieceType)
    ensures
        pc == back_rank_piece(x as int, t),
{
    if x == 0 || x == 7 {
        PieceType::Rock(Rock { team: t })
    } else if x == 1 || x == 6 {
        PieceType::Knight(Knight { team: t })
    } else if x == 2 || x == 5 {
        PieceType::Bishop(Bishop { team: t })
    } else if x == 3 {
        PieceType::Queen(Queen { team: t })
    } else {
        PieceType::King(King { team: t })
    }
}

/// The standard starting piece at `pos`, as an executable value.
fn initial_piece(pos: Position) -> (pc: Option<PieceType>)
    requires
        in_bounds(pos),
    ensures
        pc == initial_piece_at(pos),
{
    if pos.y == 0 {
        Some(back_rank(pos.x, Team::White))
    } else if pos.y == 1 {
        Some(PieceType::Pawn(Pawn { initial_pos: pos, team: Team::White }))
    } else if pos.y == 6 {
        Some(PieceType::Pawn(Pawn { initial_pos: pos, team: Team::Black }))
    } else if pos.y == 7 {
        Some(back_rank(pos.x, Team::Black))
    } else {
        None
    }
}

/// A fresh board holding the standard chess starting layout: back ranks
/// rook/knight/bishop/queen/king/bishop/knight/rook, pawns on each team's
/// second rank, every other tile empty, nothing highlighted.
pub fn setup_pieces() -> (b: Board)
    ensures
        b.wf(),
        forall|p: Position| b.piece_at(p) == initial_piece_at(p),
        forall|p: Position| !b.highlighted_at(p),
{
    let mut b = Board::new();
    let mut i: usize = 0;
    while i < 64
        invariant
            i <= 64,
            b.wf(),
            forall|p: Position| !b.highlighted_at(p),
            forall|p: Position| #[trigger]
                b.piece_at(p) == (if in_bounds(p) && tile_index(p) < i {
                    initial_piece_at(p)
                } else {
                    None
                }),
        decreases 64 - i,
    {
        let pos = Position { x: (i % 8) as u8, y: (i / 8) as u8 };
        proof {
            assert(in_bounds(pos));
            assert(tile_index(pos) == i);
        }
        match initial_piece(pos) {
            Some(pc) => spawn_piece(&mut b, pc, pos),
            None => (),
        }
        proof {
            assert forall|p: Position| #[trigger]
                b.piece_at(p) == (if in_bounds(p) && tile_index(p) < i + 1 {
                    initial_piece_at(p)
                } else {
                    None
                }) by {
                if in_bounds(p) {
                    lemma_tile_index_injective(p, pos);
                }
            }
        }
        i = i + 1;
    }
    proof {
        assert forall|p: Position| b.piece_at(p) == initial_piece_at(p) by {
            if in_bounds(p) {
                lemma_tile_index_bounds(p);
            }
        }
    }
    b
}

} // verus!
