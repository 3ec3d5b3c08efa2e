//! The selection/move state machine.
//!
//! A `Game` owns the board and the optional active selection. `select`
//! computes and highlights a piece's candidate targets; `attempt_move`
//! validates a proposed target against the stored candidate set and either
//! applies the move (vacating the source tile, resolving a capture,
//! occupying the destination) or rejects it, clearing every highlight
//! either way. Illegality is never an error: a non-candidate target gives
//! the `Rejected` outcome. Errors are reserved for out-of-bounds
//! addressing and for calls arriving in the wrong state.

use vstd::prelude::*;

use crate::board::{in_bounds, Board, ChessError, Position};
use crate::movements::{
    bishop_directions, is_dirs_target, is_king_target, is_knight_target, is_pawn_target,
    king_movement, lemma_dirs_target_occupancy, lemma_ray_pos_in_bounds, queen_directions,
    queen_directions_vec, ray_clear, ray_on_board, ray_pos, rook_directions, rook_directions_vec,
    sequencial_pieces, square_open_for,
};
use crate::piece::PieceType;

verus! {

/// Signal to the input surface that a move attempt has been resolved and
/// the board should be redrawn.
pub struct MoveEvent;

/// How a move attempt ended: rejected without board mutation, or performed,
/// with the piece that was captured at the destination, if any.
#[derive(Clone, Copy, PartialEq, Eq, Structural, Debug)]
pub enum MoveOutcome {
    /// The proposed target was not in the candidate set; the board
    /// occupancy is untouched.
    Rejected,
    /// The selected piece moved from `from` to `to`, capturing `captured`.
    Moved { from: Position, to: Position, captured: Option<PieceType> },
}

/// The active selection: the selected piece's position and the candidate
/// targets generated for it, which are exactly the highlighted tiles.
pub struct ActiveSelection {
    pub from: Position,
    pub candidates: Vec<Position>,
}

/// Whether `q` is a legal move target of `piece` standing at `p` on `b`,
/// under the piece kind's movement rule.
pub open spec fn is_move_target(b: Board, p: Position, piece: PieceType, q: Position) -> bool {
    match piece {
        PieceType::Pawn(pw) => is_pawn_target(b, p, pw.team, pw.initial_pos, q),
        PieceType::Rock(rk) => is_dirs_target(b, p, rk.team, rook_directions(), q),
        PieceType::Bishop(bi) => is_dirs_target(b, p, bi.team, bishop_directions(), q),
        PieceType::Queen(qu) => is_dirs_target(b, p, qu.team, queen_directions(), q),
        PieceType::Knight(kn) => is_knight_target(b, p, kn.team, q),
        PieceType::King(kg) => is_king_target(b, p, kg.team, q),
    }
}

/// Every legal move target lies on the board.
pub proof fn lemma_target_in_bounds(b: Board, p: Position, piece: PieceType, q: Position)
    requires
        is_move_target(b, p, piece, q),
    ensures
        in_bounds(q),
{
    match piece {
        PieceType::Pawn(_) => {},
        PieceType::Knight(_) => {},
        PieceType::King(_) => {},
        PieceType::Rock(rk) => {
            lemma_chosen_ray_in_bounds(b, p, rk.team, rook_directions(), q);
        },
        PieceType::Bishop(bi) => {
            lemma_chosen_ray_in_bounds(b, p, bi.team, bishop_directions(), q);
        },
        PieceType::Queen(qu) => {
            lemma_chosen_ray_in_bounds(b, p, qu.team, queen_directions(), q);
        },
    }
}

/// A target along some direction of a list lies on the board.
proof fn lemma_chosen_ray_in_bounds(
    b: Board,
    p: Position,
    t: crate::piece::Team,
    dirs: Seq<crate::board::Direction>,
    q: Position,
)
    requires
        is_dirs_target(b, p, t, dirs, q),
    ensures
        in_bounds(q),
{
    let i = choose|i: int|
        0 <= i < dirs.len() && crate::movements::is_ray_target(b, p, #[trigger] dirs[i], t, q);
    let d = dirs[i];
    let k = choose|k: int|
        1 <= k && #[trigger] ray_on_board(p, d, k) && q == ray_pos(p, d, k) && ray_clear(b, p, d, k)
            && square_open_for(b, q, t);
    lemma_ray_pos_in_bounds(p, d, k);
}

/// A piece's tile is never one of its own move targets: every target tile
/// is empty or enemy-occupied, while the piece's own tile holds itself.
pub proof fn lemma_target_not_self(b: Board, p: Position, piece: PieceType, q: Position)
    requires
        b.piece_at(p) == Some(piece),
        is_move_target(b, p, piece, q),
    ensures
        q != p,
{
    if q == p {
        match piece {
            PieceType::Pawn(_) => {},
            PieceType::Knight(_) => {},
            PieceType::King(_) => {},
            PieceType::Rock(rk) => {
                lemma_chosen_ray_open(b, p, rk.team, rook_directions(), q);
            },
            PieceType::Bishop(bi) => {
                lemma_chosen_ray_open(b, p, bi.team, bishop_directions(), q);
            },
            PieceType::Queen(qu) => {
                lemma_chosen_ray_open(b, p, qu.team, queen_directions(), q);
            },
        }
    }
}

/// A target along some direction of a list is an enterable tile.
proof fn lemma_chosen_ray_open(
    b: Board,
    p: Position,
    t: crate::piece::Team,
    dirs: Seq<crate::board::Direction>,
    q: Position,
)
    requires
        is_dirs_target(b, p, t, dirs, q),
    ensures
        square_open_for(b, q, t),
{
    let i = choose|i: int|
        0 <= i < dirs.len() && crate::movements::is_ray_target(b, p, #[trigger] dirs[i], t, q);
    let d = dirs[i];
    let k = choose|k: int|
        1 <= k && #[trigger] ray_on_board(p, d, k) && q == ray_pos(p, d, k) && ray_clear(b, p, d, k)
            && square_open_for(b, q, t);
}

/// Move targets depend only on board occupancy, not on highlights.
pub proof fn lemma_move_target_occupancy(
    b1: Board,
    b2: Board,
    p: Position,
    piece: PieceType,
    q: Position,
)
    requires
        forall|s: Position| b1.piece_at(s) == b2.piece_at(s),
    ensures
        is_move_target(b1, p, piece, q) == is_move_target(b2, p, piece, q),
{
    assert(b1.piece_at(q) == b2.piece_at(q));
    match piece {
        PieceType::Pawn(pw) => {
            let mid = crate::movements::offset_pos(p, 0, crate::movements::pawn_dy(pw.team));
            assert(b1.piece_at(mid) == b2.piece_at(mid));
        },
        PieceType::Knight(_) => {},
        PieceType::King(_) => {},
        PieceType::Rock(rk) => {
            lemma_dirs_target_occupancy(b1, b2, p, rk.team, rook_directions(), q);
        },
        PieceType::Bishop(bi) => {
            lemma_dirs_target_occupancy(b1, b2, p, bi.team, bishop_directions(), q);
        },
        PieceType::Queen(qu) => {
            lemma_dirs_target_occupancy(b1, b2, p, qu.team, queen_directions(), q);
        },
    }
}

/// Generates the candidate targets of `piece` standing at `pos`, by
/// dispatching on the piece kind.
pub fn get_piece_movements(board: &Board, pos: Position, piece: PieceType) -> (r: Vec<Position>)
    requires
        board.wf(),
        in_bounds(pos),
    ensures
        forall|q: Position| #[trigger] r@.contains(q) <==> is_move_target(*board, pos, piece, q),
        r@.no_duplicates(),
{
    match piece {
        PieceType::Pawn(pw) => pw.movement(board, pos),
        PieceType::Rock(rk) => {
            let dirs = rook_directions_vec();
            sequencial_pieces(board, pos, rk.team, &dirs)
        },
        PieceType::Bishop(bi) => bi.movement(board, pos),
        PieceType::Queen(qu) => {
            let dirs = queen_directions_vec();
            sequencial_pieces(board, pos, qu.team, &dirs)
        },
        PieceType::Knight(kn) => kn.knight_movement(board, pos),
        PieceType::King(kg) => king_movement(board, pos, kg.team),
    }
}

/// Relocates the piece at `from` to `to`, returning the captured occupant
/// of `to`, if any. The source tile becomes empty and loses any highlight;
/// no other tile's occupancy changes.
pub fn move_piece(board: &mut Board, from: Position, to: Position) -> (captured: Option<PieceType>)
    requires
        old(board).wf(),
        in_bounds(from),
        in_bounds(to),
        from != to,
        old(board).piece_at(from) is Some,
    ensures
        final(board).wf(),
        captured == old(board).piece_at(to),
        final(board).piece_at(to) == old(board).piece_at(from),
        final(board).piece_at(from) is None,
        forall|q: Position|
            q != from && q != to ==> final(board).piece_at(q) == old(board).piece_at(q),
        forall|q: Position|
            q != from ==> final(board).highlighted_at(q) == old(board).highlighted_at(q),
        !final(board).highlighted_at(from),
{
    let ts_from = board.tile_at(from).unwrap();
    let moving = ts_from.piece.unwrap();
    let ts_to = board.tile_at(to).unwrap();
    let captured = ts_to.piece;
    board.clear(from);
    crate::board::spawn_piece(board, moving, to);
    captured
}

/// Whether `v` holds the position `p`.
fn contains_pos(v: &Vec<Position>, p: Position) -> (b: bool)
    ensures
        b == v@.contains(p),
{
    let mut i: usize = 0;
    while i < v.len()
        invariant
            i <= v.len(),
            forall|j: int| 0 <= j < i ==> v@[j] != p,
        decreases v.len() - i,
    {
        if v[i] == p {
            return true;
        }
        i = i + 1;
    }
    proof {
        if v@.contains(p) {
            let j = choose|j: int| 0 <= j < v@.len() && v@[j] == p;
            assert(false);
        }
    }
    false
}

/// A copy of a list of positions.
fn copy_positions(v: &Vec<Position>) -> (c: Vec<Position>)
    ensures
        c@ == v@,
{
    let mut c: Vec<Position> = Vec::new();
    let mut i: usize = 0;
    while i < v.len()
        invariant
            i <= v.len(),
            c@.len() == i,
            forall|j: int| 0 <= j < i ==> c@[j] == v@[j],
        decreases v.len() - i,
    {
        c.push(v[i]);
        i = i + 1;
    }
    proof {
        assert(c@ =~= v@);
    }
    c
}

/// A chess game: the board plus the optional active selection. All
/// transitions keep the game well formed: the highlighted tiles are exactly
/// the candidates of the active selection, and with no selection pending no
/// tile is highlighted.
pub struct Game {
    board: Board,
    selection: Option<ActiveSelection>,
}

impl Game {
    /// The game's board.
    pub closed spec fn board_view(self) -> Board {
        self.board
    }

    /// The game's active selection, if one is pending.
    pub closed spec fn selection_view(self) -> Option<ActiveSelection> {
        self.selection
    }

    /// Well-formedness: the board has its 64 tiles; with no selection
    /// pending, no tile is highlighted; with a selection pending, the
    /// selected tile holds a piece, the stored candidates are exactly that
    /// piece's move targets, and the highlighted tiles are exactly the
    /// stored candidates.
    pub open spec fn wf(self) -> bool {
        &&& self.board_view().wf()
        &&& match self.selection_view() {
            Option::None => forall|p: Position| !self.board_view().highlighted_at(p),
            Option::Some(sel) => {
                &&& in_bounds(sel.from)
                &&& sel.candidates@.no_duplicates()
                &&& self.board_view().piece_at(sel.from) matches Some(piece) && (forall|
                    q: Position,
                |
                    #[trigger] sel.candidates@.contains(q) <==> is_move_target(
                        self.board_view(),
                        sel.from,
                        piece,
                        q,
                    ))
                &&& forall|p: Position|
                    #[trigger] self.board_view().highlighted_at(p) <==> sel.candidates@.contains(p)
            },
        }
    }

    /// A game over `board` with no selection pending.
    pub fn new(board: Board) -> (g: Game)
        requires
            board.wf(),
            forall|p: Position| !board.highlighted_at(p),
        ensures
            g.wf(),
            g.board_view() == board,
            g.selection_view() is None,
    {
        Game { board, selection: None }
    }

    /// The read-only view of the board, for redrawing.
    pub fn board_snapshot(&self) -> (b: &Board)
        ensures
            *b == self.board_view(),
    {
        &self.board
    }

    /// Selects the piece at `pos` and highlights its candidate targets,
    /// returning them. Selecting an empty tile returns the empty set and
    /// changes nothing. Selecting while a selection is already pending
    /// fails with `InvalidState`; an off-board `pos` fails with
    /// `OutOfBounds`; neither failure changes anything.
    pub fn select(&mut self, pos: Position) -> (r: Result<Vec<Position>, ChessError>)
        requires
            old(self).wf(),
        ensures
            final(self).wf(),
            old(self).selection_view() is Some ==> ({
                &&& r matches Err(e)
                &&& e == ChessError::InvalidState
                &&& final(self).board_view() == old(self).board_view()
                &&& final(self).selection_view() is Some
            }),
            old(self).selection_view() is None && !in_bounds(pos) ==> ({
                &&& r matches Err(e)
                &&& e == ChessError::OutOfBounds
                &&& final(self).board_view() == old(self).board_view()
                &&& final(self).selection_view() is None
            }),
            old(self).selection_view() is None && in_bounds(pos) && old(self).board_view().piece_at(
                pos,
            ) is None ==> ({
                &&& r matches Ok(c)
                &&& c@.len() == 0
                &&& final(self).board_view() == old(self).board_view()
                &&& final(self).selection_view() is None
            }),
            old(self).selection_view() is None && in_bounds(pos) && old(self).board_view().piece_at(
                pos,
            ) is Some ==> ({
                let piece = old(self).board_view().piece_at(pos)->Some_0;
                &&& r matches Ok(c)
                &&& c@.no_duplicates()
                &&& forall|q: Position|
                    #[trigger] c@.contains(q) <==> is_move_target(
                        old(self).board_view(),
                        pos,
                        piece,
                        q,
                    )
                &&& final(self).selection_view() is Some
                &&& final(self).selection_view()->Some_0.from == pos
                &&& final(self).selection_view()->Some_0.candidates@ == c@
                &&& forall|q: Position|
                    final(self).board_view().piece_at(q) == old(self).board_view().piece_at(q)
                &&& forall|q: Position|
                    #[trigger] final(self).board_view().highlighted_at(q) <==> c@.contains(q)
            }),
    {
        match &self.selection {
            Option::Some(_) => {
                return Err(ChessError::InvalidState);
            },
            Option::None => {},
        }
        if !(pos.x < 8 && pos.y < 8) {
            return Err(ChessError::OutOfBounds);
        }
        let ts = self.board.tile_at(pos).unwrap();
        match ts.piece {
            Option::None => Ok(Vec::new()),
            Option::Some(piece) => {
                let cands = get_piece_movements(&self.board, pos, piece);
                let stored = copy_positions(&cands);
                let mut i: usize = 0;
                while i < cands.len()
                    invariant
                        self.board.wf(),
                        in_bounds(pos),
                        i <= cands.len(),
                        forall|q: Position|
                            #[trigger] cands@.contains(q) <==> is_move_target(
                                old(self).board_view(),
                                pos,
                                piece,
                                q,
                            ),
                        forall|q: Position|
                            self.board.piece_at(q) == old(self).board_view().piece_at(q),
                        forall|q: Position|
                            #[trigger] self.board.highlighted_at(q) <==> (exists|j: int|
                                0 <= j < i && cands@[j] == q),
                    decreases cands.len() - i,
                {
                    let target = cands[i];
                    proof {
                        assert(cands@.contains(target));
                        lemma_target_in_bounds(old(self).board_view(), pos, piece, target);
                    }
                    crate::board::highlight_tile(&mut self.board, target);
                    proof {
                        assert forall|q: Position|
                            #[trigger] self.board.highlighted_at(q) <==> (exists|j: int|
                                0 <= j < i + 1 && cands@[j] == q) by {
                            if self.board.highlighted_at(q) {
                                if q == target {
                                    assert(cands@[i as int] == q);
                                } else {
                                    let j = choose|j: int| 0 <= j < i && cands@[j] == q;
                                    assert(0 <= j < i + 1 && cands@[j] == q);
                                }
                            }
                            if exists|j: int| 0 <= j < i + 1 && cands@[j] == q {
                                let j = choose|j: int| 0 <= j < i + 1 && cands@[j] == q;
                                if j == i {
                                    assert(self.board.highlighted_at(q));
                                } else {
                                    assert(exists|j2: int| 0 <= j2 < i && cands@[j2] == q);
                                }
                            }
                        }
                    }
                    i = i + 1;
                }
                self.selection = Some(ActiveSelection { from: pos, candidates: stored });
                proof {
                    assert forall|q: Position|
                        #[trigger] stored@.contains(q) <==> is_move_target(
                            self.board,
                            pos,
                            piece,
                            q,
                        ) by {
                        lemma_move_target_occupancy(
                            old(self).board_view(),
                            self.board,
                            pos,
                            piece,
                            q,
                        );
                    }
                }
                Ok(cands)
            },
        }
    }

    /// Attempts to move the selected piece to `pos`. A `pos` outside the
    /// stored candidate set gives `Rejected` with no occupancy change; a
    /// candidate `pos` relocates the piece and reports any capture. Either
    /// way every highlight is cleared and the selection ends. Calling with
    /// no selection pending fails with `InvalidState` and changes nothing.
    pub fn attempt_move(&mut self, pos: Position) -> (r: Result<MoveOutcome, ChessError>)
        requires
            old(self).wf(),
        ensures
            final(self).wf(),
            final(self).selection_view() is None,
            old(self).selection_view() is None ==> ({
                &&& r matches Err(e)
                &&& e == ChessError::InvalidState
                &&& final(self).board_view() == old(self).board_view()
            }),
            old(self).selection_view() is Some
                && !(old(self).selection_view()->Some_0.candidates@.contains(pos)) ==> ({
                &&& r matches Ok(o)
                &&& o == MoveOutcome::Rejected
                &&& forall|q: Position|
                    final(self).board_view().piece_at(q) == old(self).board_view().piece_at(q)
                &&& forall|q: Position| !final(self).board_view().highlighted_at(q)
            }),
            old(self).selection_view() is Some
                && old(self).selection_view()->Some_0.candidates@.contains(pos) ==> ({
                let sel = old(self).selection_view()->Some_0;
                &&& r matches Ok(o)
                &&& o == (MoveOutcome::Moved {
                    from: sel.from,
                    to: pos,
                    captured: old(self).board_view().piece_at(pos),
                })
                &&& final(self).board_view().piece_at(pos) == old(self).board_view().piece_at(
                    sel.from,
                )
                &&& final(self).board_view().piece_at(sel.from) is None
                &&& forall|q: Position|
                    q != sel.from && q != pos ==> final(self).board_view().piece_at(q)
                        == old(self).board_view().piece_at(q)
                &&& forall|q: Position| !final(self).board_view().highlighted_at(q)
            }),
    {
        let (from, cands) = match &self.selection {
            Option::None => {
                return Err(ChessError::InvalidState);
            },
            Option::Some(sel) => (sel.from, copy_positions(&sel.candidates)),
        };
        self.selection = None;
        if !contains_pos(&cands, pos) {
            self.board.clear_highlights();
            Ok(MoveOutcome::Rejected)
        } else {
            let ghost piece = old(self).board_view().piece_at(from)->Some_0;
            proof {
                assert(is_move_target(old(self).board_view(), from, piece, pos));
                lemma_target_in_bounds(old(self).board_view(), from, piece, pos);
                lemma_target_not_self(old(self).board_view(), from, piece, pos);
            }
            let captured = move_piece(&mut self.board, from, pos);
            self.board.clear_highlights();
            Ok(MoveOutcome::Moved { from, to: pos, captured })
        }
    }
}

/// Law: a well-formed game never shows a stale highlight. While a
/// selection is pending, every highlighted tile is one of its candidates;
/// with none pending, no tile is highlighted at all. So a finished
/// select/attempt_move round leaves nothing highlighted, and a following
/// selection highlights only its own candidates.
pub proof fn lemma_no_stale_highlights(g: Game)
    requires
        g.wf(),
    ensures
        g.selection_view() is None ==> forall|p: Position| !g.board_view().highlighted_at(p),
        g.selection_view() matches Some(sel) ==> forall|p: Position|
            #[trigger] g.board_view().highlighted_at(p) ==> sel.candidates@.contains(p),
{
}

} // verus!
