use chess_core::board::{spawn_piece, Board, Position};
use chess_core::movements::{
    bishop_directions_vec, king_movement, knight_movement, pawn_movement, queen_directions_vec,
    rook_directions_vec, sequencial_pieces,
};
use chess_core::piece::{Bishop, Knight, Pawn, PieceType, Queen, Rock, Team};

fn pos(x: u8, y: u8) -> Position {
    Position { x, y }
}

fn has(v: &Vec<Position>, x: u8, y: u8) -> bool {
    v.iter().any(|p| *p == pos(x, y))
}

fn white_pawn(b: &mut Board, x: u8, y: u8) {
    let p = pos(x, y);
    spawn_piece(
        b,
        PieceType::Pawn(Pawn {
            initial_pos: p,
            team: Team::White,
        }),
        p,
    );
}

fn black_pawn(b: &mut Board, x: u8, y: u8) {
    let p = pos(x, y);
    spawn_piece(
        b,
        PieceType::Pawn(Pawn {
            initial_pos: p,
            team: Team::Black,
        }),
        p,
    );
}

#[test]
fn rook_ray_stops_at_and_includes_enemy() {
    // rook at (0,0); (0,7) enemy; (0,1)..(0,6) empty
    let mut b = Board::new();
    spawn_piece(&mut b, PieceType::Rock(Rock { team: Team::White }), pos(0, 0));
    black_pawn(&mut b, 0, 7);
    let dirs = rook_directions_vec();
    let r = sequencial_pieces(&b, pos(0, 0), Team::White, &dirs);
    // the whole north ray, the enemy tile included
    for y in 1..8u8 {
        assert!(has(&r, 0, y));
    }
    // the whole east ray
    for x in 1..8u8 {
        assert!(has(&r, x, 0));
    }
    assert_eq!(r.len(), 14);
}

#[test]
fn rook_ray_excludes_friendly_blocker() {
    let mut b = Board::new();
    spawn_piece(&mut b, PieceType::Rock(Rock { team: Team::White }), pos(0, 0));
    white_pawn(&mut b, 0, 5);
    let dirs = rook_directions_vec();
    let r = sequencial_pieces(&b, pos(0, 0), Team::White, &dirs);
    for y in 1..5u8 {
        assert!(has(&r, 0, y));
    }
    // the friendly blocker and everything beyond it are excluded
    assert!(!has(&r, 0, 5));
    assert!(!has(&r, 0, 6));
    assert!(!has(&r, 0, 7));
    assert_eq!(r.len(), 4 + 7);
}

#[test]
fn rook_does_not_jump_over_enemy() {
    let mut b = Board::new();
    spawn_piece(&mut b, PieceType::Rock(Rock { team: Team::White }), pos(0, 0));
    black_pawn(&mut b, 0, 3);
    let dirs = rook_directions_vec();
    let r = sequencial_pieces(&b, pos(0, 0), Team::White, &dirs);
    assert!(has(&r, 0, 1));
    assert!(has(&r, 0, 2));
    assert!(has(&r, 0, 3)); // the capture
    assert!(!has(&r, 0, 4)); // nothing beyond it
    assert_eq!(r.len(), 3 + 7);
}

#[test]
fn bishop_slides_diagonally() {
    let mut b = Board::new();
    spawn_piece(&mut b, PieceType::Bishop(Bishop { team: Team::White }), pos(4, 4));
    let dirs = bishop_directions_vec();
    let r = sequencial_pieces(&b, pos(4, 4), Team::White, &dirs);
    assert!(has(&r, 5, 5));
    assert!(has(&r, 7, 7));
    assert!(has(&r, 0, 0));
    assert!(has(&r, 1, 7));
    assert!(has(&r, 7, 1));
    assert!(!has(&r, 4, 5));
    assert!(!has(&r, 5, 4));
    assert_eq!(r.len(), 13);
}

#[test]
fn queen_unions_rook_and_bishop() {
    let mut b = Board::new();
    spawn_piece(&mut b, PieceType::Queen(Queen { team: Team::White }), pos(4, 4));
    let dirs = queen_directions_vec();
    let r = sequencial_pieces(&b, pos(4, 4), Team::White, &dirs);
    assert!(has(&r, 4, 7));
    assert!(has(&r, 4, 0));
    assert!(has(&r, 0, 4));
    assert!(has(&r, 7, 4));
    assert!(has(&r, 7, 7));
    assert!(has(&r, 0, 0));
    assert_eq!(r.len(), 14 + 13);
}

#[test]
fn knight_corner_has_two_candidates() {
    let mut b = Board::new();
    spawn_piece(&mut b, PieceType::Knight(Knight { team: Team::White }), pos(0, 0));
    let r = knight_movement(&b, pos(0, 0), Team::White);
    assert_eq!(r.len(), 2);
    assert!(has(&r, 1, 2));
    assert!(has(&r, 2, 1));
}

#[test]
fn knight_open_board_has_eight_candidates() {
    let mut b = Board::new();
    spawn_piece(&mut b, PieceType::Knight(Knight { team: Team::White }), pos(4, 4));
    let r = knight_movement(&b, pos(4, 4), Team::White);
    assert_eq!(r.len(), 8);
    // every candidate is exactly one fixed offset away
    let offsets: [(i32, i32); 8] = [
        (1, 2),
        (-1, 2),
        (1, -2),
        (-1, -2),
        (2, 1),
        (2, -1),
        (-2, 1),
        (-2, -1),
    ];
    for p in r.iter() {
        let d = (p.x as i32 - 4, p.y as i32 - 4);
        assert!(offsets.contains(&d));
    }
}

#[test]
fn knight_respects_occupancy() {
    let mut b = Board::new();
    spawn_piece(&mut b, PieceType::Knight(Knight { team: Team::White }), pos(0, 0));
    white_pawn(&mut b, 1, 2); // friendly: excluded
    black_pawn(&mut b, 2, 1); // enemy: capture
    let r = knight_movement(&b, pos(0, 0), Team::White);
    assert_eq!(r.len(), 1);
    assert!(!has(&r, 1, 2));
    assert!(has(&r, 2, 1));
}

#[test]
fn king_steps_to_adjacent_tiles() {
    let mut b = Board::new();
    spawn_piece(&mut b, PieceType::King(chess_core::piece::King { team: Team::White }), pos(4, 4));
    let r = king_movement(&b, pos(4, 4), Team::White);
    assert_eq!(r.len(), 8);
    for (x, y) in [(3, 3), (3, 4), (3, 5), (4, 3), (4, 5), (5, 3), (5, 4), (5, 5)] {
        assert!(has(&r, x, y));
    }
}

#[test]
fn pawn_at_origin_double_step() {
    let mut b = Board::new();
    white_pawn(&mut b, 4, 1);
    let r = pawn_movement(&b, pos(4, 1), Team::White, pos(4, 1));
    assert_eq!(r.len(), 2);
    assert!(has(&r, 4, 2));
    assert!(has(&r, 4, 3));
}

#[test]
fn pawn_at_origin_with_captures() {
    let mut b = Board::new();
    white_pawn(&mut b, 4, 1);
    black_pawn(&mut b, 3, 2);
    black_pawn(&mut b, 5, 2);
    let r = pawn_movement(&b, pos(4, 1), Team::White, pos(4, 1));
    assert_eq!(r.len(), 4);
    assert!(has(&r, 4, 2));
    assert!(has(&r, 4, 3));
    assert!(has(&r, 3, 2));
    assert!(has(&r, 5, 2));
}

#[test]
fn pawn_away_from_origin_single_step() {
    let mut b = Board::new();
    spawn_piece(
        &mut b,
        PieceType::Pawn(Pawn {
            initial_pos: pos(4, 1),
            team: Team::White,
        }),
        pos(4, 2),
    );
    let r = pawn_movement(&b, pos(4, 2), Team::White, pos(4, 1));
    assert_eq!(r.len(), 1);
    assert!(has(&r, 4, 3));
    assert!(!has(&r, 4, 4));
}

#[test]
fn pawn_cannot_capture_straight_ahead() {
    let mut b = Board::new();
    white_pawn(&mut b, 4, 1);
    black_pawn(&mut b, 4, 2); // enemy directly ahead blocks, is not capturable
    let r = pawn_movement(&b, pos(4, 1), Team::White, pos(4, 1));
    assert_eq!(r.len(), 0);
}

#[test]
fn pawn_blocked_double_step_only() {
    let mut b = Board::new();
    white_pawn(&mut b, 4, 1);
    black_pawn(&mut b, 4, 3); // two ahead occupied: single step only
    let r = pawn_movement(&b, pos(4, 1), Team::White, pos(4, 1));
    assert_eq!(r.len(), 1);
    assert!(has(&r, 4, 2));
}

#[test]
fn pawn_diagonal_needs_enemy() {
    let mut b = Board::new();
    white_pawn(&mut b, 4, 1);
    white_pawn(&mut b, 3, 2); // friendly on the diagonal: no capture
    let r = pawn_movement(&b, pos(4, 1), Team::White, pos(4, 1));
    assert_eq!(r.len(), 2);
    assert!(!has(&r, 3, 2));
}

#[test]
fn black_pawn_walks_south() {
    let mut b = Board::new();
    black_pawn(&mut b, 4, 6);
    white_pawn(&mut b, 3, 5);
    let r = pawn_movement(&b, pos(4, 6), Team::Black, pos(4, 6));
    assert_eq!(r.len(), 3);
    assert!(has(&r, 4, 5));
    assert!(has(&r, 4, 4));
    assert!(has(&r, 3, 5));
}

#[test]
fn piece_methods_match_free_generators() {
    let mut b = Board::new();
    let pw = Pawn {
        initial_pos: pos(4, 1),
        team: Team::White,
    };
    spawn_piece(&mut b, PieceType::Pawn(pw), pos(4, 1));
    let via_method = pw.movement(&b, pos(4, 1));
    let via_free = pawn_movement(&b, pos(4, 1), Team::White, pos(4, 1));
    assert_eq!(via_method, via_free);

    let mut b2 = Board::new();
    let kn = Knight { team: Team::Black };
    spawn_piece(&mut b2, PieceType::Knight(kn), pos(7, 7));
    assert_eq!(kn.knight_movement(&b2, pos(7, 7)), knight_movement(&b2, pos(7, 7), Team::Black));

    let mut b3 = Board::new();
    let bi = Bishop { team: Team::White };
    spawn_piece(&mut b3, PieceType::Bishop(bi), pos(2, 2));
    let dirs = bishop_directions_vec();
    assert_eq!(bi.movement(&b3, pos(2, 2)), sequencial_pieces(&b3, pos(2, 2), Team::White, &dirs));
}

#[test]
fn get_team_reads_every_kind() {
    assert_eq!(
        PieceType::Pawn(Pawn {
            initial_pos: pos(0, 1),
            team: Team::White
        })
        .get_team(),
        Team::White
    );
    assert_eq!(PieceType::Rock(Rock { team: Team::Black }).get_team(), Team::Black);
    assert_eq!(PieceType::Bishop(Bishop { team: Team::White }).get_team(), Team::White);
    assert_eq!(PieceType::Knight(Knight { team: Team::Black }).get_team(), Team::Black);
    assert_eq!(PieceType::Queen(Queen { team: Team::White }).get_team(), Team::White);
    assert_eq!(
        PieceType::King(chess_core::piece::King { team: Team::Black }).get_team(),
        Team::Black
    );
}
