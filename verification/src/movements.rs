//! Move generation for the six piece kinds.
//!
//! Each generator is a pure function of a board snapshot, the moving piece's
//! position and team (and, for pawns, the pawn's initial position). It
//! returns the candidate target set: the positions the piece may legally
//! move to under its movement rule. Sliding pieces (rook, bishop, queen) are
//! generated by `sequencial_pieces`, a ray walk over a direction list; the
//! knight and king enumerate fixed offsets; the pawn combines forward empty
//! moves with diagonal captures.

use vstd::prelude::*;

use crate::board::{
    dir_dx, dir_dy, in_bounds, neighbor, Board, Direction, Position,
};
use crate::piece::{piece_team, PieceType, Team};

verus! {

/// Whether the tile at `q` can be entered by a piece of team `t`: it is
/// empty or holds an enemy piece (a capture).
pub open spec fn square_open_for(b: Board, q: Position, t: Team) -> bool {
    match b.piece_at(q) {
        Option::None => true,
        Option::Some(pc) => piece_team(pc) != t,
    }
}

/// The file coordinate reached after `k` steps from `p` in direction `d`.
pub open spec fn ray_x(p: Position, d: Direction, k: int) -> int {
    p.x + k * dir_dx(d)
}

/// The rank coordinate reached after `k` steps from `p` in direction `d`.
pub open spec fn ray_y(p: Position, d: Direction, k: int) -> int {
    p.y + k * dir_dy(d)
}

/// Whether the tile `k` steps from `p` in direction `d` is on the board.
pub open spec fn ray_on_board(p: Position, d: Direction, k: int) -> bool {
    0 <= ray_x(p, d, k) < 8 && 0 <= ray_y(p, d, k) < 8
}

/// The position `k` steps from `p` in direction `d` (meaningful only when
/// that tile is on the board).
pub open spec fn ray_pos(p: Position, d: Direction, k: int) -> Position {
    Position { x: ray_x(p, d, k) as u8, y: ray_y(p, d, k) as u8 }
}

/// Whether every tile strictly between `p` and the tile `k` steps away is
/// empty: the ray has not met a piece before its `k`-th step.
pub open spec fn ray_clear(b: Board, p: Position, d: Direction, k: int) -> bool {
    forall|j: int| 1 <= j < k ==> b.piece_at(#[trigger] ray_pos(p, d, j)) is None
}

/// Whether `q` is a legal target of a ray walk from `p` in direction `d`
/// for team `t`: `q` is some on-board step of the ray, every tile before it
/// is empty, and `q` itself is empty or enemy-occupied. This makes the walk
/// stop at the first occupied tile, including it only on a capture.
pub open spec fn is_ray_target(b: Board, p: Position, d: Direction, t: Team, q: Position) -> bool {
    exists|k: int|
        1 <= k && #[trigger] ray_on_board(p, d, k) && q == ray_pos(p, d, k) && ray_clear(b, p, d, k)
            && square_open_for(b, q, t)
}

/// Multiplying by a unit factor keeps, zeroes, or negates the other factor.
proof fn lemma_unit_mul(k: int, c: int)
    requires
        c == -1 || c == 0 || c == 1,
    ensures
        c == 1 ==> k * c == k,
        c == 0 ==> k * c == 0,
        c == -1 ==> k * c == -k,
{
    assert(k * 1 == k) by (nonlinear_arith);
    assert(k * 0 == 0) by (nonlinear_arith);
    assert(k * -1 == -k) by (nonlinear_arith);
}

/// Step `k + 1` of a ray is one direction step past step `k`.
pub proof fn lemma_ray_step(p: Position, d: Direction, k: int)
    ensures
        ray_x(p, d, k + 1) == ray_x(p, d, k) + dir_dx(d),
        ray_y(p, d, k + 1) == ray_y(p, d, k) + dir_dy(d),
{
    assert((k + 1) * dir_dx(d) == k * dir_dx(d) + dir_dx(d)) by (nonlinear_arith);
    assert((k + 1) * dir_dy(d) == k * dir_dy(d) + dir_dy(d)) by (nonlinear_arith);
}

/// Step 0 of a ray is its starting position.
pub proof fn lemma_ray_zero(p: Position, d: Direction)
    ensures
        ray_pos(p, d, 0) == p,
        ray_on_board(p, d, 0) <==> in_bounds(p),
{
    lemma_unit_mul(0, dir_dx(d));
    lemma_unit_mul(0, dir_dy(d));
}

/// From an on-board start, a ray leaves the board within 7 steps.
pub proof fn lemma_ray_k_bound(p: Position, d: Direction, k: int)
    requires
        in_bounds(p),
        k >= 0,
        ray_on_board(p, d, k),
    ensures
        k <= 7,
{
    lemma_unit_mul(k, dir_dx(d));
    lemma_unit_mul(k, dir_dy(d));
}

/// Every step between an on-board start and an on-board step is on board.
pub proof fn lemma_ray_convex(p: Position, d: Direction, j: int, k: int)
    requires
        in_bounds(p),
        0 <= j <= k,
        ray_on_board(p, d, k),
    ensures
        ray_on_board(p, d, j),
{
    lemma_unit_mul(k, dir_dx(d));
    lemma_unit_mul(k, dir_dy(d));
    lemma_unit_mul(j, dir_dx(d));
    lemma_unit_mul(j, dir_dy(d));
}

/// Distinct on-board steps of one ray are distinct positions.
pub proof fn lemma_ray_pos_injective(p: Position, d: Direction, j: int, k: int)
    requires
        ray_on_board(p, d, j),
        ray_on_board(p, d, k),
        j != k,
    ensures
        ray_pos(p, d, j) != ray_pos(p, d, k),
{
    lemma_unit_mul(k, dir_dx(d));
    lemma_unit_mul(k, dir_dy(d));
    lemma_unit_mul(j, dir_dx(d));
    lemma_unit_mul(j, dir_dy(d));
}

/// Rays cast in two distinct directions from one start never share an
/// on-board step.
pub proof fn lemma_rays_distinct(p: Position, d1: Direction, d2: Direction, k1: int, k2: int)
    requires
        d1 != d2,
        k1 >= 1,
        k2 >= 1,
        ray_on_board(p, d1, k1),
        ray_on_board(p, d2, k2),
    ensures
        ray_pos(p, d1, k1) != ray_pos(p, d2, k2),
{
    lemma_unit_mul(k1, dir_dx(d1));
    lemma_unit_mul(k1, dir_dy(d1));
    lemma_unit_mul(k2, dir_dx(d2));
    lemma_unit_mul(k2, dir_dy(d2));
    if ray_pos(p, d1, k1) == ray_pos(p, d2, k2) {
        assert(ray_x(p, d1, k1) == ray_x(p, d2, k2));
        assert(ray_y(p, d1, k1) == ray_y(p, d2, k2));
        assert(k1 * dir_dx(d1) == k2 * dir_dx(d2));
        assert(k1 * dir_dy(d1) == k2 * dir_dy(d2));
        // unit factors of one sign each: the directions would coincide
        assert(false);
    }
}

/// An on-board ray step is an in-bounds position.
pub proof fn lemma_ray_pos_in_bounds(p: Position, d: Direction, k: int)
    requires
        ray_on_board(p, d, k),
    ensures
        in_bounds(ray_pos(p, d, k)),
{
}

/// Walks the ray from `start` in direction `dir` and collects the legal
/// targets for `team`: every empty tile up to the first occupied one, which
/// is included exactly when it holds an enemy piece.
pub fn ray_walk(board: &Board, start: Position, dir: Direction, team: Team) -> (r: Vec<Position>)
    requires
        board.wf(),
        in_bounds(start),
    ensures
        forall|q: Position|
            #[trigger] r@.contains(q) <==> is_ray_target(*board, start, dir, team, q),
        r@.no_duplicates(),
{
    let mut r: Vec<Position> = Vec::new();
    let mut cur: Position = start;
    let mut stopped: bool = false;
    let ghost mut k: int = 0;
    proof {
        lemma_ray_zero(start, dir);
    }
    while !stopped
        invariant
            board.wf(),
            in_bounds(start),
            0 <= k <= 7,
            !stopped ==> ray_on_board(start, dir, k),
            !stopped ==> cur == ray_pos(start, dir, k),
            !stopped ==> r@.len() == k,
            !stopped ==> (forall|j: int|
                1 <= j <= k ==> board.piece_at(#[trigger] ray_pos(start, dir, j)) is None),
            !stopped ==> (forall|i: int| 0 <= i < k ==> r@[i] == ray_pos(start, dir, i + 1)),
            stopped ==> (forall|q: Position|
                #[trigger] r@.contains(q) <==> is_ray_target(*board, start, dir, team, q)),
            stopped ==> r@.no_duplicates(),
        decreases 8 - k, (if stopped {
            0int
        } else {
            1int
        }),
    {
        proof {
            lemma_ray_step(start, dir, k);
        }
        match neighbor(cur, dir) {
            Option::None => {
                proof {
                    assert(!ray_on_board(start, dir, k + 1));
                    assert forall|q: Position|
                        #[trigger] r@.contains(q) <==> is_ray_target(
                            *board,
                            start,
                            dir,
                            team,
                            q,
                        ) by {
                        if r@.contains(q) {
                            let i = choose|i: int| 0 <= i < r@.len() && r@[i] == q;
                            lemma_ray_convex(start, dir, i + 1, k);
                            assert(board.piece_at(ray_pos(start, dir, i + 1)) is None);
                            assert(is_ray_target(*board, start, dir, team, q));
                        }
                        if is_ray_target(*board, start, dir, team, q) {
                            let kk = choose|kk: int|
                                1 <= kk && #[trigger] ray_on_board(start, dir, kk) && q == ray_pos(
                                    start,
                                    dir,
                                    kk,
                                ) && ray_clear(*board, start, dir, kk) && square_open_for(
                                    *board,
                                    q,
                                    team,
                                );
                            if kk > k {
                                lemma_ray_convex(start, dir, k + 1, kk);
                                assert(false);
                            }
                            assert(r@[kk - 1] == q);
                            assert(r@.contains(q));
                        }
                    }
                    assert forall|i1: int, i2: int|
                        0 <= i1 < r@.len() && 0 <= i2 < r@.len() && i1 != i2 implies r@[i1]
                        != r@[i2] by {
                        lemma_ray_convex(start, dir, i1 + 1, k);
                        lemma_ray_convex(start, dir, i2 + 1, k);
                        lemma_ray_pos_injective(start, dir, i1 + 1, i2 + 1);
                    }
                }
                stopped = true;
            },
            Option::Some(next) => {
                proof {
                    assert(next == ray_pos(start, dir, k + 1));
                    assert(ray_on_board(start, dir, k + 1));
                    lemma_ray_pos_in_bounds(start, dir, k + 1);
                    lemma_ray_k_bound(start, dir, k + 1);
                }
                let ts = board.tile_at(next).unwrap();
                match ts.piece {
                    Option::None => {
                        r.push(next);
                        cur = next;
                        proof {
                            k = k + 1;
                        }
                    },
                    Option::Some(pc) => {
                        let ghost prefix = r@;
                        if pc.get_team() != team {
                            r.push(next);
                        }
                        proof {
                            assert forall|q: Position|
                                #[trigger] r@.contains(q) <==> is_ray_target(
                                    *board,
                                    start,
                                    dir,
                                    team,
                                    q,
                                ) by {
                                if r@.contains(q) {
                                    let i = choose|i: int| 0 <= i < r@.len() && r@[i] == q;
                                    if i < k {
                                        lemma_ray_convex(start, dir, i + 1, k);
                                        assert(board.piece_at(ray_pos(start, dir, i + 1)) is None);
                                        assert(is_ray_target(*board, start, dir, team, q));
                                    } else {
                                        // the pushed blocker tile: an enemy capture
                                        assert(q == ray_pos(start, dir, k + 1));
                                        assert(square_open_for(*board, q, team));
                                        assert(is_ray_target(*board, start, dir, team, q));
                                    }
                                }
                                if is_ray_target(*board, start, dir, team, q) {
                                    let kk = choose|kk: int|
                                        1 <= kk && #[trigger] ray_on_board(start, dir, kk) && q
                                            == ray_pos(start, dir, kk) && ray_clear(
                                            *board,
                                            start,
                                            dir,
                                            kk,
                                        ) && square_open_for(*board, q, team);
                                    if kk <= k {
                                        assert(r@[kk - 1] == q);
                                        assert(r@.contains(q));
                                    } else if kk == k + 1 {
                                        // the blocker itself: open, so it was pushed
                                        assert(piece_team(pc) != team);
                                        assert(r@[k as int] == q);
                                        assert(r@.contains(q));
                                    } else {
                                        // beyond the blocker: the ray is not clear
                                        assert(board.piece_at(ray_pos(start, dir, k + 1)) is None);
                                        assert(false);
                                    }
                                }
                            }
                            assert forall|i1: int, i2: int|
                                0 <= i1 < r@.len() && 0 <= i2 < r@.len() && i1 != i2 implies r@[i1]
                                != r@[i2] by {
                                lemma_ray_convex(start, dir, i1 + 1, k + 1);
                                lemma_ray_convex(start, dir, i2 + 1, k + 1);
                                lemma_ray_pos_injective(start, dir, i1 + 1, i2 + 1);
                            }
                        }
                        stopped = true;
                    },
                }
            },
        }
    }
    r
}

/// Whether `q` is a ray target of `p` for `t` along any direction in `dirs`.
pub open spec fn is_dirs_target(
    b: Board,
    p: Position,
    t: Team,
    dirs: Seq<Direction>,
    q: Position,
) -> bool {
    exists|i: int| 0 <= i < dirs.len() && is_ray_target(b, p, #[trigger] dirs[i], t, q)
}

/// The directions a rook slides in.
pub open spec fn rook_directions() -> Seq<Direction> {
    seq![Direction::North, Direction::South, Direction::East, Direction::West]
}

/// The directions a bishop slides in.
pub open spec fn bishop_directions() -> Seq<Direction> {
    seq![Direction::NorthEast, Direction::NorthWest, Direction::SouthEast, Direction::SouthWest]
}

/// The directions a queen slides in.
pub open spec fn queen_directions() -> Seq<Direction> {
    rook_directions() + bishop_directions()
}

/// The rook's directions as an executable list.
pub fn rook_directions_vec() -> (v: Vec<Direction>)
    ensures
        v@ == rook_directions(),
        v@.no_duplicates(),
{
    let mut v: Vec<Direction> = Vec::new();
    v.push(Direction::North);
    v.push(Direction::South);
    v.push(Direction::East);
    v.push(Direction::West);
    proof {
        assert(v@ =~= rook_directions());
        assert(v@.no_duplicates());
    }
    v
}

/// The bishop's directions as an executable list.
pub fn bishop_directions_vec() -> (v: Vec<Direction>)
    ensures
        v@ == bishop_directions(),
        v@.no_duplicates(),
{
    let mut v: Vec<Direction> = Vec::new();
    v.push(Direction::NorthEast);
    v.push(Direction::NorthWest);
    v.push(Direction::SouthEast);
    v.push(Direction::SouthWest);
    proof {
        assert(v@ =~= bishop_directions());
        assert(v@.no_duplicates());
    }
    v
}

/// The queen's directions as an executable list.
pub fn queen_directions_vec() -> (v: Vec<Direction>)
    ensures
        v@ == queen_directions(),
        v@.no_duplicates(),
{
    let mut v: Vec<Direction> = Vec::new();
    v.push(Direction::North);
    v.push(Direction::South);
    v.push(Direction::East);
    v.push(Direction::West);
    v.push(Direction::NorthEast);
    v.push(Direction::NorthWest);
    v.push(Direction::SouthEast);
    v.push(Direction::SouthWest);
    proof {
        assert(v@ =~= queen_directions());
        assert(v@.no_duplicates());
    }
    v
}

/// Generates the candidate targets of a sliding piece (rook, bishop or
/// queen): the union of the ray walks along each given direction.
pub fn sequencial_pieces(
    board: &Board,
    pos: Position,
    team: Team,
    directions: &Vec<Direction>,
) -> (r: Vec<Position>)
    requires
        board.wf(),
        in_bounds(pos),
    ensures
        forall|q: Position|
            #[trigger] r@.contains(q) <==> is_dirs_target(*board, pos, team, directions@, q),
        directions@.no_duplicates() ==> r@.no_duplicates(),
{
    let mut r: Vec<Position> = Vec::new();
    let mut i: usize = 0;
    while i < directions.len()
        invariant
            board.wf(),
            in_bounds(pos),
            i <= directions.len(),
            forall|q: Position|
                #[trigger] r@.contains(q) <==> (exists|j: int|
                    0 <= j < i && is_ray_target(*board, pos, #[trigger] directions@[j], team, q)),
            directions@.no_duplicates() ==> r@.no_duplicates(),
        decreases directions.len() - i,
    {
        let mut ray = ray_walk(board, pos, directions[i], team);
        let ghost prefix = r@;
        let ghost ray_seq = ray@;
        r.append(&mut ray);
        proof {
            assert forall|q: Position|
                #[trigger] r@.contains(q) <==> (exists|j: int|
                    0 <= j < i + 1 && is_ray_target(
                        *board,
                        pos,
                        #[trigger] directions@[j],
                        team,
                        q,
                    )) by {
                if r@.contains(q) {
                    let idx = choose|idx: int| 0 <= idx < r@.len() && r@[idx] == q;
                    if idx < prefix.len() {
                        assert(prefix[idx] == q);
                        assert(prefix.contains(q));
                    } else {
                        assert(ray_seq[idx - prefix.len()] == q);
                        assert(ray_seq.contains(q));
                        assert(is_ray_target(*board, pos, directions@[i as int], team, q));
                    }
                }
                if exists|j: int|
                    0 <= j < i + 1 && is_ray_target(*board, pos, #[trigger] directions@[j], team, q) {
                    let j = choose|j: int|
                        0 <= j < i + 1 && is_ray_target(
                            *board,
                            pos,
                            #[trigger] directions@[j],
                            team,
                            q,
                        );
                    if j < i {
                        assert(prefix.contains(q));
                        let idx = choose|idx: int| 0 <= idx < prefix.len() && prefix[idx] == q;
                        assert(r@[idx] == q);
                        assert(r@.contains(q));
                    } else {
                        assert(ray_seq.contains(q));
                        let idx = choose|idx: int| 0 <= idx < ray_seq.len() && ray_seq[idx] == q;
                        assert(r@[prefix.len() + idx] == q);
                        assert(r@.contains(q));
                    }
                }
            }
            if directions@.no_duplicates() {
                assert forall|i1: int, i2: int|
                    0 <= i1 < r@.len() && 0 <= i2 < r@.len() && i1 != i2 implies r@[i1]
                    != r@[i2] by {
                    if i1 >= prefix.len() && i2 >= prefix.len() {
                        assert(ray_seq[i1 - prefix.len()] != ray_seq[i2 - prefix.len()]);
                    } else if i1 < prefix.len() && i2 < prefix.len() {
                        assert(prefix[i1] != prefix[i2]);
                    } else {
                        // one tile of an earlier ray and one of the new ray:
                        // rays in distinct directions never meet
                        let ip = if i1 < prefix.len() {
                            i1
                        } else {
                            i2
                        };
                        let ir = if i1 < prefix.len() {
                            i2
                        } else {
                            i1
                        };
                        let q1 = prefix[ip];
                        let q2 = ray_seq[ir - prefix.len()];
                        if q1 == q2 {
                            assert(prefix.contains(q1));
                            assert(ray_seq.contains(q2));
                            let j = choose|j: int|
                                0 <= j < i && is_ray_target(
                                    *board,
                                    pos,
                                    #[trigger] directions@[j],
                                    team,
                                    q1,
                                );
                            let dj = directions@[j];
                            let di = directions@[i as int];
                            assert(dj != di);
                            let kj = choose|kj: int|
                                1 <= kj && #[trigger] ray_on_board(pos, dj, kj) && q1 == ray_pos(
                                    pos,
                                    dj,
                                    kj,
                                ) && ray_clear(*board, pos, dj, kj) && square_open_for(
                                    *board,
                                    q1,
                                    team,
                                );
                            let ki = choose|ki: int|
                                1 <= ki && #[trigger] ray_on_board(pos, di, ki) && q2 == ray_pos(
                                    pos,
                                    di,
                                    ki,
                                ) && ray_clear(*board, pos, di, ki) && square_open_for(
                                    *board,
                                    q2,
                                    team,
                                );
                            lemma_rays_distinct(pos, dj, di, kj, ki);
                            assert(false);
                        }
                    }
                }
            }
        }
        i = i + 1;
    }
    r
}

/// Law: a ray walk stops at the first occupied tile it meets. With the
/// first `k - 1` steps from `p` empty and a piece `pc` standing on step `k`,
/// that tile is a target exactly when `pc` is an enemy, every empty tile
/// before it is a target, and no tile beyond it on the ray is a target.
pub proof fn lemma_ray_stops_at_first_occupied(
    b: Board,
    p: Position,
    d: Direction,
    t: Team,
    k: int,
    pc: PieceType,
)
    requires
        in_bounds(p),
        1 <= k,
        ray_on_board(p, d, k),
        forall|j: int| 1 <= j < k ==> b.piece_at(#[trigger] ray_pos(p, d, j)) is None,
        b.piece_at(ray_pos(p, d, k)) == Some(pc),
    ensures
        is_ray_target(b, p, d, t, ray_pos(p, d, k)) <==> piece_team(pc) != t,
        forall|j: int| 1 <= j < k ==> is_ray_target(b, p, d, t, #[trigger] ray_pos(p, d, j)),
        forall|k2: int|
            k2 > k && ray_on_board(p, d, k2) ==> !is_ray_target(b, p, d, t, ray_pos(p, d, k2)),
{
    // the blocking tile itself
    if piece_team(pc) != t {
        assert(square_open_for(b, ray_pos(p, d, k), t));
        assert(is_ray_target(b, p, d, t, ray_pos(p, d, k)));
    }
    if is_ray_target(b, p, d, t, ray_pos(p, d, k)) {
        let q = ray_pos(p, d, k);
        let kk = choose|kk: int|
            1 <= kk && #[trigger] ray_on_board(p, d, kk) && q == ray_pos(p, d, kk) && ray_clear(
                b,
                p,
                d,
                kk,
            ) && square_open_for(b, q, t);
        if kk != k {
            lemma_ray_pos_injective(p, d, kk, k);
        }
        assert(piece_team(pc) != t);
    }
    // the empty tiles before it
    assert forall|j: int| 1 <= j < k implies is_ray_target(b, p, d, t, #[trigger] ray_pos(
        p,
        d,
        j,
    )) by {
        lemma_ray_convex(p, d, j, k);
        assert(b.piece_at(ray_pos(p, d, j)) is None);
        assert(square_open_for(b, ray_pos(p, d, j), t));
    }
    // nothing beyond it
    assert forall|k2: int| k2 > k && ray_on_board(p, d, k2) implies !is_ray_target(
        b,
        p,
        d,
        t,
        ray_pos(p, d, k2),
    ) by {
        let q = ray_pos(p, d, k2);
        if is_ray_target(b, p, d, t, q) {
            let kk = choose|kk: int|
                1 <= kk && #[trigger] ray_on_board(p, d, kk) && q == ray_pos(p, d, kk) && ray_clear(
                    b,
                    p,
                    d,
                    kk,
                ) && square_open_for(b, q, t);
            if kk != k2 {
                lemma_ray_pos_injective(p, d, kk, k2);
            }
            assert(ray_clear(b, p, d, k2));
            assert(b.piece_at(ray_pos(p, d, k)) is None);
            assert(false);
        }
    }
}

/// Whether the tile offset from `p` by `(dx, dy)` is on the board.
pub open spec fn offset_on_board(p: Position, dx: int, dy: int) -> bool {
    0 <= p.x + dx < 8 && 0 <= p.y + dy < 8
}

/// The position offset from `p` by `(dx, dy)` (meaningful only when that
/// tile is on the board).
pub open spec fn offset_pos(p: Position, dx: int, dy: int) -> Position {
    Position { x: (p.x + dx) as u8, y: (p.y + dy) as u8 }
}

/// Pushing an element extends a sequence's contents by exactly it.
proof fn lemma_push_contains(s: Seq<Position>, v: Position)
    ensures
        forall|q: Position| #[trigger] s.push(v).contains(q) <==> (s.contains(q) || q == v),
{
    assert forall|q: Position| #[trigger] s.push(v).contains(q) <==> (s.contains(q) || q == v) by {
        if s.push(v).contains(q) {
            let i = choose|i: int| 0 <= i < s.push(v).len() && s.push(v)[i] == q;
            if i < s.len() {
                assert(s[i] == q);
                assert(s.contains(q));
            }
        }
        if s.contains(q) {
            let i = choose|i: int| 0 <= i < s.len() && s[i] == q;
            assert(s.push(v)[i] == q);
            assert(s.push(v).contains(q));
        }
        if q == v {
            assert(s.push(v)[s.len() as int] == q);
            assert(s.push(v).contains(q));
        }
    }
}

/// Pushing a fresh element keeps a sequence duplicate-free.
proof fn lemma_push_no_dup(s: Seq<Position>, v: Position)
    requires
        s.no_duplicates(),
        !s.contains(v),
    ensures
        s.push(v).no_duplicates(),
{
    assert forall|i: int, j: int|
        0 <= i < s.push(v).len() && 0 <= j < s.push(v).len() && i != j implies s.push(v)[i]
        != s.push(v)[j] by {
        if i < s.len() && j < s.len() {
        } else if i < s.len() {
            assert(s[i] != v);
        } else if j < s.len() {
            assert(s[j] != v);
        }
    }
}

/// Appends the tile offset from `p` by `(dx, dy)` to `r` when it is on the
/// board and enterable by `team` (empty, or an enemy capture).
fn probe_step(board: &Board, p: Position, dx: i8, dy: i8, team: Team, r: &mut Vec<Position>)
    requires
        board.wf(),
        -2 <= dx <= 2,
        -2 <= dy <= 2,
    ensures
        forall|q: Position|
            #[trigger] final(r)@.contains(q) <==> (old(r)@.contains(q) || (q == offset_pos(
                p,
                dx as int,
                dy as int,
            ) && offset_on_board(p, dx as int, dy as int) && square_open_for(*board, q, team))),
        old(r)@.len() <= final(r)@.len() <= old(r)@.len() + 1,
        old(r)@.no_duplicates() && (offset_on_board(p, dx as int, dy as int)
            ==> !old(r)@.contains(offset_pos(p, dx as int, dy as int)))
            ==> final(r)@.no_duplicates(),
{
    let nx: i16 = p.x as i16 + dx as i16;
    let ny: i16 = p.y as i16 + dy as i16;
    if 0 <= nx && nx < 8 && 0 <= ny && ny < 8 {
        let np = Position { x: nx as u8, y: ny as u8 };
        let ts = board.tile_at(np).unwrap();
        let push = match ts.piece {
            Option::None => true,
            Option::Some(pc) => pc.get_team() != team,
        };
        let ghost prefix = r@;
        if push {
            r.push(np);
            proof {
                lemma_push_contains(prefix, np);
                if prefix.no_duplicates() && !prefix.contains(np) {
                    lemma_push_no_dup(prefix, np);
                }
            }
        }
    }
}

/// Whether `q` differs from `p` by one of the knight's eight fixed offsets.
pub open spec fn is_knight_offset(p: Position, q: Position) -> bool {
    let dx = q.x - p.x;
    let dy = q.y - p.y;
    ||| dx == 1 && dy == 2
    ||| dx == -1 && dy == 2
    ||| dx == 1 && dy == -2
    ||| dx == -1 && dy == -2
    ||| dx == 2 && dy == 1
    ||| dx == 2 && dy == -1
    ||| dx == -2 && dy == 1
    ||| dx == -2 && dy == -1
}

/// Whether `q` is a legal knight move target from `p` for team `t`.
pub open spec fn is_knight_target(b: Board, p: Position, t: Team, q: Position) -> bool {
    in_bounds(q) && is_knight_offset(p, q) && square_open_for(b, q, t)
}

/// Generates the knight's candidate targets: the on-board tiles one fixed
/// offset away that are empty or enemy-occupied. The candidate set never
/// exceeds 8, and holds at least 2 positions whenever no reachable offset
/// tile is blocked by a friendly piece.
pub fn knight_movement(board: &Board, pos: Position, team: Team) -> (r: Vec<Position>)
    requires
        board.wf(),
        in_bounds(pos),
    ensures
        forall|q: Position| #[trigger] r@.contains(q) <==> is_knight_target(*board, pos, team, q),
        r@.no_duplicates(),
        r@.len() <= 8,
        (forall|q: Position|
            in_bounds(q) && is_knight_offset(pos, q) ==> square_open_for(*board, q, team))
            ==> r@.len() >= 2,
{
    let mut r: Vec<Position> = Vec::new();
    probe_step(board, pos, 1, 2, team, &mut r);
    proof {
        assert(r@.no_duplicates());
    }
    probe_step(board, pos, -1, 2, team, &mut r);
    proof {
        assert(r@.no_duplicates());
    }
    probe_step(board, pos, 1, -2, team, &mut r);
    proof {
        assert(r@.no_duplicates());
    }
    probe_step(board, pos, -1, -2, team, &mut r);
    proof {
        assert(r@.no_duplicates());
    }
    probe_step(board, pos, 2, 1, team, &mut r);
    proof {
        assert(r@.no_duplicates());
    }
    probe_step(board, pos, 2, -1, team, &mut r);
    proof {
        assert(r@.no_duplicates());
    }
    probe_step(board, pos, -2, 1, team, &mut r);
    proof {
        assert(r@.no_duplicates());
    }
    probe_step(board, pos, -2, -1, team, &mut r);
    proof {
        assert(r@.no_duplicates());
    }
    proof {
        if forall|q: Position|
            in_bounds(q) && is_knight_offset(pos, q) ==> square_open_for(*board, q, team) {
            let ax: int = if pos.x <= 5 {
                pos.x + 2
            } else {
                pos.x - 2
            };
            let ay: int = if pos.y <= 6 {
                pos.y + 1
            } else {
                pos.y - 1
            };
            let bx: int = if pos.x <= 6 {
                pos.x + 1
            } else {
                pos.x - 1
            };
            let by: int = if pos.y <= 5 {
                pos.y + 2
            } else {
                pos.y - 2
            };
            let q1 = Position { x: ax as u8, y: ay as u8 };
            let q2 = Position { x: bx as u8, y: by as u8 };
            assert(in_bounds(q1) && is_knight_offset(pos, q1));
            assert(in_bounds(q2) && is_knight_offset(pos, q2));
            assert(q1.x != q2.x);
            assert(r@.contains(q1) && r@.contains(q2));
            let i1 = choose|i: int| 0 <= i < r@.len() && r@[i] == q1;
            let i2 = choose|i: int| 0 <= i < r@.len() && r@[i] == q2;
            assert(i1 != i2);
        }
    }
    r
}

/// Whether `q` is one of the eight compass-adjacent tiles of `p`.
pub open spec fn is_king_offset(p: Position, q: Position) -> bool {
    let dx = q.x - p.x;
    let dy = q.y - p.y;
    -1 <= dx <= 1 && -1 <= dy <= 1 && !(dx == 0 && dy == 0)
}

/// Whether `q` is a legal king move target from `p` for team `t`.
pub open spec fn is_king_target(b: Board, p: Position, t: Team, q: Position) -> bool {
    in_bounds(q) && is_king_offset(p, q) && square_open_for(b, q, t)
}

/// Generates the king's candidate targets: the on-board adjacent tiles
/// that are empty or enemy-occupied.
pub fn king_movement(board: &Board, pos: Position, team: Team) -> (r: Vec<Position>)
    requires
        board.wf(),
        in_bounds(pos),
    ensures
        forall|q: Position| #[trigger] r@.contains(q) <==> is_king_target(*board, pos, team, q),
        r@.no_duplicates(),
{
    let mut r: Vec<Position> = Vec::new();
    probe_step(board, pos, 1, 0, team, &mut r);
    proof {
        assert(r@.no_duplicates());
    }
    probe_step(board, pos, -1, 0, team, &mut r);
    proof {
        assert(r@.no_duplicates());
    }
    probe_step(board, pos, 0, 1, team, &mut r);
    proof {
        assert(r@.no_duplicates());
    }
    probe_step(board, pos, 0, -1, team, &mut r);
    proof {
        assert(r@.no_duplicates());
    }
    probe_step(board, pos, 1, 1, team, &mut r);
    proof {
        assert(r@.no_duplicates());
    }
    probe_step(board, pos, 1, -1, team, &mut r);
    proof {
        assert(r@.no_duplicates());
    }
    probe_step(board, pos, -1, 1, team, &mut r);
    proof {
        assert(r@.no_duplicates());
    }
    probe_step(board, pos, -1, -1, team, &mut r);
    proof {
        assert(r@.no_duplicates());
    }
    r
}

/// The rank direction a team's pawns walk in: White toward increasing
/// ranks, Black toward decreasing ranks.
pub open spec fn pawn_dy(t: Team) -> int {
    match t {
        Team::White => 1,
        Team::Black => -1,
    }
}

/// Whether `q` is a forward (non-capturing) pawn target from `p`: the tile
/// straight ahead when empty, or — while the pawn still stands on its
/// initial tile `origin` — the tile two ahead when both are empty.
pub open spec fn is_pawn_forward_target(
    b: Board,
    p: Position,
    t: Team,
    origin: Position,
    q: Position,
) -> bool {
    ||| (q == offset_pos(p, 0, pawn_dy(t)) && offset_on_board(p, 0, pawn_dy(t)) && b.piece_at(q)
        is None)
    ||| (q == offset_pos(p, 0, 2 * pawn_dy(t)) && offset_on_board(p, 0, 2 * pawn_dy(t)) && p
        == origin && b.piece_at(offset_pos(p, 0, pawn_dy(t))) is None && b.piece_at(q) is None)
}

/// Whether `q` is a diagonal pawn capture target from `p`: one tile
/// diagonally ahead, holding an enemy piece. Empty diagonals are never
/// legal.
pub open spec fn is_pawn_capture_target(b: Board, p: Position, t: Team, q: Position) -> bool {
    ||| (q == offset_pos(p, -1, pawn_dy(t)) && offset_on_board(p, -1, pawn_dy(t)) && (b.piece_at(q)
        matches Some(pc) && piece_team(pc) != t))
    ||| (q == offset_pos(p, 1, pawn_dy(t)) && offset_on_board(p, 1, pawn_dy(t)) && (b.piece_at(q)
        matches Some(pc) && piece_team(pc) != t))
}

/// Whether `q` is a legal pawn move target from `p` for team `t` with
/// initial tile `origin`.
pub open spec fn is_pawn_target(
    b: Board,
    p: Position,
    t: Team,
    origin: Position,
    q: Position,
) -> bool {
    is_pawn_forward_target(b, p, t, origin, q) || is_pawn_capture_target(b, p, t, q)
}

/// Appends the tile offset from `p` by `(dx, dy)` to `r` when it is on the
/// board and holds an enemy piece (a pawn's diagonal capture).
fn probe_capture(board: &Board, p: Position, dx: i8, dy: i8, team: Team, r: &mut Vec<Position>)
    requires
        board.wf(),
        -1 <= dx <= 1,
        -1 <= dy <= 1,
    ensures
        forall|q: Position|
            #[trigger] final(r)@.contains(q) <==> (old(r)@.contains(q) || (q == offset_pos(
                p,
                dx as int,
                dy as int,
            ) && offset_on_board(p, dx as int, dy as int) && (board.piece_at(q) matches Some(pc)
                && piece_team(pc) != team))),
        old(r)@.no_duplicates() && (offset_on_board(p, dx as int, dy as int)
            ==> !old(r)@.contains(offset_pos(p, dx as int, dy as int)))
            ==> final(r)@.no_duplicates(),
{
    let nx: i16 = p.x as i16 + dx as i16;
    let ny: i16 = p.y as i16 + dy as i16;
    if 0 <= nx && nx < 8 && 0 <= ny && ny < 8 {
        let np = Position { x: nx as u8, y: ny as u8 };
        let ts = board.tile_at(np).unwrap();
        let push = match ts.piece {
            Option::None => false,
            Option::Some(pc) => pc.get_team() != team,
        };
        let ghost prefix = r@;
        if push {
            r.push(np);
            proof {
                lemma_push_contains(prefix, np);
                if prefix.no_duplicates() && !prefix.contains(np) {
                    lemma_push_no_dup(prefix, np);
                }
            }
        }
    }
}

/// Generates the pawn's candidate targets: the empty tile straight ahead
/// (two tiles while the pawn stands on `initial_pos` and both are empty),
/// plus the diagonally-ahead tiles that hold an enemy piece.
pub fn pawn_movement(board: &Board, pos: Position, team: Team, initial_pos: Position) -> (r: Vec<
    Position,
>)
    requires
        board.wf(),
        in_bounds(pos),
    ensures
        forall|q: Position|
            #[trigger] r@.contains(q) <==> is_pawn_target(*board, pos, team, initial_pos, q),
        r@.no_duplicates(),
{
    let dy: i8 = match team {
        Team::White => 1,
        Team::Black => -1,
    };
    let mut r: Vec<Position> = Vec::new();
    let fy: i16 = pos.y as i16 + dy as i16;
    if 0 <= fy && fy < 8 {
        let q1 = Position { x: pos.x, y: fy as u8 };
        let ts1 = board.tile_at(q1).unwrap();
        if ts1.piece.is_none() {
            let ghost prefix = r@;
            r.push(q1);
            proof {
                lemma_push_contains(prefix, q1);
            }
            if pos == initial_pos {
                let fy2: i16 = pos.y as i16 + 2 * (dy as i16);
                if 0 <= fy2 && fy2 < 8 {
                    let q2 = Position { x: pos.x, y: fy2 as u8 };
                    let ts2 = board.tile_at(q2).unwrap();
                    if ts2.piece.is_none() {
                        let ghost prefix2 = r@;
                        r.push(q2);
                        proof {
                            lemma_push_contains(prefix2, q2);
                            assert(!prefix2.contains(q2));
                            lemma_push_no_dup(prefix2, q2);
                        }
                    }
                }
            }
        }
    }
    proof {
        assert(r@.no_duplicates());
    }
    probe_capture(board, pos, -1, dy, team, &mut r);
    proof {
        assert(r@.no_duplicates());
    }
    probe_capture(board, pos, 1, dy, team, &mut r);
    proof {
        assert(r@.no_duplicates());
    }
    r
}

/// Law: a pawn still on its initial tile, with both tiles straight ahead on
/// the board and empty, has exactly those two tiles as forward candidates.
pub proof fn lemma_pawn_origin_double_step(b: Board, p: Position, t: Team)
    requires
        in_bounds(p),
        offset_on_board(p, 0, 2 * pawn_dy(t)),
        b.piece_at(offset_pos(p, 0, pawn_dy(t))) is None,
        b.piece_at(offset_pos(p, 0, 2 * pawn_dy(t))) is None,
    ensures
        forall|q: Position|
            #[trigger] is_pawn_forward_target(b, p, t, p, q) <==> (q == offset_pos(
                p,
                0,
                pawn_dy(t),
            ) || q == offset_pos(p, 0, 2 * pawn_dy(t))),
{
}

/// Law: a pawn away from its initial tile has at most one forward
/// candidate — any forward target is the single tile straight ahead.
pub proof fn lemma_pawn_single_step(b: Board, p: Position, t: Team, origin: Position, q: Position)
    requires
        p != origin,
        is_pawn_forward_target(b, p, t, origin, q),
    ensures
        q == offset_pos(p, 0, pawn_dy(t)),
{
}

/// Ray targets depend only on board occupancy, not on highlights.
pub proof fn lemma_ray_target_occupancy(
    b1: Board,
    b2: Board,
    p: Position,
    d: Direction,
    t: Team,
    q: Position,
)
    requires
        forall|s: Position| b1.piece_at(s) == b2.piece_at(s),
    ensures
        is_ray_target(b1, p, d, t, q) == is_ray_target(b2, p, d, t, q),
{
    assert(b1.piece_at(q) == b2.piece_at(q));
    if is_ray_target(b1, p, d, t, q) {
        let k = choose|k: int|
            1 <= k && #[trigger] ray_on_board(p, d, k) && q == ray_pos(p, d, k) && ray_clear(
                b1,
                p,
                d,
                k,
            ) && square_open_for(b1, q, t);
        assert forall|j: int| 1 <= j < k implies b2.piece_at(#[trigger] ray_pos(p, d, j))
            is None by {
            assert(b1.piece_at(ray_pos(p, d, j)) == b2.piece_at(ray_pos(p, d, j)));
        }
        assert(is_ray_target(b2, p, d, t, q));
    }
    if is_ray_target(b2, p, d, t, q) {
        let k = choose|k: int|
            1 <= k && #[trigger] ray_on_board(p, d, k) && q == ray_pos(p, d, k) && ray_clear(
                b2,
                p,
                d,
                k,
            ) && square_open_for(b2, q, t);
        assert forall|j: int| 1 <= j < k implies b1.piece_at(#[trigger] ray_pos(p, d, j))
            is None by {
            assert(b1.piece_at(ray_pos(p, d, j)) == b2.piece_at(ray_pos(p, d, j)));
        }
        assert(is_ray_target(b1, p, d, t, q));
    }
}

/// Targets along a direction list depend only on board occupancy.
pub proof fn lemma_dirs_target_occupancy(
    b1: Board,
    b2: Board,
    p: Position,
    t: Team,
    dirs: Seq<Direction>,
    q: Position,
)
    requires
        forall|s: Position| b1.piece_at(s) == b2.piece_at(s),
    ensures
        is_dirs_target(b1, p, t, dirs, q) == is_dirs_target(b2, p, t, dirs, q),
{
    if is_dirs_target(b1, p, t, dirs, q) {
        let i = choose|i: int| 0 <= i < dirs.len() && is_ray_target(b1, p, #[trigger] dirs[i], t, q);
        lemma_ray_target_occupancy(b1, b2, p, dirs[i], t, q);
        assert(is_dirs_target(b2, p, t, dirs, q));
    }
    if is_dirs_target(b2, p, t, dirs, q) {
        let i = choose|i: int| 0 <= i < dirs.len() && is_ray_target(b2, p, #[trigger] dirs[i], t, q);
        lemma_ray_target_occupancy(b1, b2, p, dirs[i], t, q);
        assert(is_dirs_target(b1, p, t, dirs, q));
    }
}

impl crate::piece::Pawn {
    /// This pawn's candidate targets from `pos` on `board`.
    pub fn movement(self, board: &Board, pos: Position) -> (r: Vec<Position>)
        requires
            board.wf(),
            in_bounds(pos),
        ensures
            forall|q: Position|
                #[trigger] r@.contains(q) <==> is_pawn_target(
                    *board,
                    pos,
                    self.team,
                    self.initial_pos,
                    q,
                ),
            r@.no_duplicates(),
    {
        pawn_movement(board, pos, self.team, self.initial_pos)
    }
}

impl crate::piece::Bishop {
    /// This bishop's candidate targets from `pos` on `board`.
    pub fn movement(self, board: &Board, pos: Position) -> (r: Vec<Position>)
        requires
            board.wf(),
            in_bounds(pos),
        ensures
            forall|q: Position|
                #[trigger] r@.contains(q) <==> is_dirs_target(
                    *board,
                    pos,
                    self.team,
                    bishop_directions(),
                    q,
                ),
            r@.no_duplicates(),
    {
        let dirs = bishop_directions_vec();
        sequencial_pieces(board, pos, self.team, &dirs)
    }
}

impl crate::piece::Knight {
    /// This knight's candidate targets from `pos` on `board`.
    pub fn knight_movement(self, board: &Board, pos: Position) -> (r: Vec<Position>)
        requires
            board.wf(),
            in_bounds(pos),
        ensures
            forall|q: Position|
                #[trigger] r@.contains(q) <==> is_knight_target(*board, pos, self.team, q),
            r@.no_duplicates(),
    {
        knight_movement(board, pos, self.team)
    }
}

} // verus!
