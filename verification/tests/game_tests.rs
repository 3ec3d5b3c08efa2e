use chess_core::board::{spawn_piece, setup_pieces, Board, ChessError, Position, Tile};
use chess_core::movement::{Game, MoveOutcome};
use chess_core::piece::{King, Knight, Pawn, PieceType, Rock, Team};

fn pos(x: u8, y: u8) -> Position {
    Position { x, y }
}

fn has(v: &Vec<Position>, x: u8, y: u8) -> bool {
    v.iter().any(|p| *p == pos(x, y))
}

fn highlight_count(g: &Game) -> usize {
    let mut n = 0;
    for x in 0..8u8 {
        for y in 0..8u8 {
            if g.board_snapshot().tile_at(pos(x, y)).unwrap().highlighted {
                n += 1;
            }
        }
    }
    n
}

#[test]
fn select_king_at_edge_returns_neighbors() {
    // king at (4,0), all neighbors empty: the five on-board neighbors
    let mut b = Board::new();
    spawn_piece(&mut b, PieceType::King(King { team: Team::White }), pos(4, 0));
    let mut g = Game::new(b);
    let c = g.select(pos(4, 0)).unwrap();
    assert_eq!(c.len(), 5);
    for (x, y) in [(3, 0), (5, 0), (3, 1), (4, 1), (5, 1)] {
        assert!(has(&c, x, y));
    }
    // exactly the candidates are highlighted
    assert_eq!(highlight_count(&g), 5);
    for p in c.iter() {
        assert_eq!(g.board_snapshot().tile_at(*p).unwrap().tile_type(), Tile::HighLighted);
    }
}

#[test]
fn select_empty_tile_is_a_noop() {
    let b = setup_pieces();
    let mut g = Game::new(b);
    let c = g.select(pos(4, 4)).unwrap();
    assert!(c.is_empty());
    assert_eq!(highlight_count(&g), 0);
    // no selection was stored: a following select still works
    let c2 = g.select(pos(1, 0)).unwrap();
    assert!(!c2.is_empty());
}

#[test]
fn select_out_of_bounds_fails() {
    let b = setup_pieces();
    let mut g = Game::new(b);
    assert_eq!(g.select(pos(8, 0)), Err(ChessError::OutOfBounds));
    assert_eq!(g.select(pos(0, 200)), Err(ChessError::OutOfBounds));
}

#[test]
fn select_while_selecting_fails() {
    let b = setup_pieces();
    let mut g = Game::new(b);
    g.select(pos(1, 0)).unwrap();
    assert_eq!(g.select(pos(6, 0)), Err(ChessError::InvalidState));
    // the pending selection is untouched and can still be resolved
    let outcome = g.attempt_move(pos(2, 2)).unwrap();
    assert!(matches!(outcome, MoveOutcome::Moved { .. }));
}

#[test]
fn attempt_move_while_idle_fails() {
    let b = setup_pieces();
    let mut g = Game::new(b);
    assert_eq!(g.attempt_move(pos(4, 4)), Err(ChessError::InvalidState));
}

#[test]
fn attempt_move_outside_candidates_is_rejected() {
    let mut b = Board::new();
    spawn_piece(&mut b, PieceType::Knight(Knight { team: Team::White }), pos(0, 0));
    let mut g = Game::new(b);
    g.select(pos(0, 0)).unwrap();
    let outcome = g.attempt_move(pos(3, 3)).unwrap();
    assert_eq!(outcome, MoveOutcome::Rejected);
    // no board mutation: the knight still stands at (0,0), (3,3) is empty
    let snap = g.board_snapshot();
    assert_eq!(
        snap.tile_at(pos(0, 0)).unwrap().piece,
        Some(PieceType::Knight(Knight { team: Team::White }))
    );
    assert_eq!(snap.tile_at(pos(3, 3)).unwrap().piece, None);
    // all highlights cleared
    assert_eq!(highlight_count(&g), 0);
}

#[test]
fn attempt_move_to_candidate_moves_the_piece() {
    let mut b = Board::new();
    spawn_piece(&mut b, PieceType::Knight(Knight { team: Team::White }), pos(0, 0));
    let mut g = Game::new(b);
    g.select(pos(0, 0)).unwrap();
    let outcome = g.attempt_move(pos(1, 2)).unwrap();
    assert_eq!(
        outcome,
        MoveOutcome::Moved {
            from: pos(0, 0),
            to: pos(1, 2),
            captured: None,
        }
    );
    let snap = g.board_snapshot();
    // source empty, destination holds exactly the moved piece
    assert_eq!(snap.tile_at(pos(0, 0)).unwrap().piece, None);
    assert_eq!(
        snap.tile_at(pos(1, 2)).unwrap().piece,
        Some(PieceType::Knight(Knight { team: Team::White }))
    );
    // no other tile changed
    for x in 0..8u8 {
        for y in 0..8u8 {
            if (x, y) != (0, 0) && (x, y) != (1, 2) {
                assert_eq!(snap.tile_at(pos(x, y)).unwrap().piece, None);
            }
        }
    }
    assert_eq!(highlight_count(&g), 0);
}

#[test]
fn attempt_move_resolves_capture() {
    let mut b = Board::new();
    spawn_piece(&mut b, PieceType::Rock(Rock { team: Team::White }), pos(0, 0));
    let enemy = PieceType::Pawn(Pawn {
        initial_pos: pos(0, 6),
        team: Team::Black,
    });
    spawn_piece(&mut b, enemy, pos(0, 7));
    let mut g = Game::new(b);
    let c = g.select(pos(0, 0)).unwrap();
    assert!(has(&c, 0, 7));
    let outcome = g.attempt_move(pos(0, 7)).unwrap();
    assert_eq!(
        outcome,
        MoveOutcome::Moved {
            from: pos(0, 0),
            to: pos(0, 7),
            captured: Some(enemy),
        }
    );
    let snap = g.board_snapshot();
    assert_eq!(
        snap.tile_at(pos(0, 7)).unwrap().piece,
        Some(PieceType::Rock(Rock { team: Team::White }))
    );
    assert_eq!(snap.tile_at(pos(0, 0)).unwrap().piece, None);
}

#[test]
fn no_stale_highlights_across_rounds() {
    // a valid move, then a second selection on another piece: no highlight
    // of the first round may survive
    let b = setup_pieces();
    let mut g = Game::new(b);
    let c1 = g.select(pos(1, 0)).unwrap(); // white knight
    assert!(!c1.is_empty());
    let outcome = g.attempt_move(pos(2, 2)).unwrap();
    assert!(matches!(outcome, MoveOutcome::Moved { .. }));
    assert_eq!(highlight_count(&g), 0);

    let c2 = g.select(pos(6, 7)).unwrap(); // black knight
    // highlighted tiles are exactly the second round's candidates
    assert_eq!(highlight_count(&g), c2.len());
    for p in c2.iter() {
        assert!(g.board_snapshot().tile_at(*p).unwrap().highlighted);
    }
    let outcome2 = g.attempt_move(pos(5, 5)).unwrap();
    assert!(matches!(outcome2, MoveOutcome::Moved { .. }));
    assert_eq!(highlight_count(&g), 0);
}

#[test]
fn rejected_attempt_also_clears_highlights() {
    let b = setup_pieces();
    let mut g = Game::new(b);
    g.select(pos(1, 0)).unwrap();
    assert!(highlight_count(&g) > 0);
    assert_eq!(g.attempt_move(pos(7, 7)).unwrap(), MoveOutcome::Rejected);
    assert_eq!(highlight_count(&g), 0);
    // and the selection ended: another attempt is InvalidState
    assert_eq!(g.attempt_move(pos(2, 2)), Err(ChessError::InvalidState));
}

#[test]
fn full_round_on_standard_board() {
    let b = setup_pieces();
    let mut g = Game::new(b);
    // double-step a white pawn
    let c = g.select(pos(4, 1)).unwrap();
    assert_eq!(c.len(), 2);
    assert!(has(&c, 4, 2));
    assert!(has(&c, 4, 3));
    let outcome = g.attempt_move(pos(4, 3)).unwrap();
    assert_eq!(
        outcome,
        MoveOutcome::Moved {
            from: pos(4, 1),
            to: pos(4, 3),
            captured: None,
        }
    );
    let snap = g.board_snapshot();
    assert_eq!(snap.tile_at(pos(4, 1)).unwrap().piece, None);
    assert!(matches!(snap.tile_at(pos(4, 3)).unwrap().piece, Some(PieceType::Pawn(_))));
}
