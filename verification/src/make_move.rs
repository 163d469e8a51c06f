//! Making and taking back moves, with the model of what a move does to a position.
use vstd::prelude::*;
use crate::board::{
    Board, UnmakeInfo, rank_coords, spec_coords_index,
    lemma_coords_index_inverse,
};
use crate::geometry::{coords_of, index_of, in_bounds, lemma_index_of_bound};
use crate::inline::CoordVals;
use crate::models::{Coordinate, Move, Piece, PieceType, Player};
use crate::pieces::{CellBits, NO_KING, empty_bits, piece_bits, with_piece, decode, lemma_piece_bits};
use crate::representation::{cell_count, lemma_cell_count_monotone};
use crate::zobrist::piece_key_offset;

verus! {

/// The distance between two axis values.
pub open spec fn axis_dist(a: u8, b: u8) -> int {
    if a >= b {
        a - b
    } else {
        b - a
    }
}

/// The cell of the coordinate on the board `b` (meaningful when it is on the board).
pub open spec fn sq(b: Board, v: Seq<u8>) -> int {
    index_of(v, b.geo.side as nat) as int
}

/// Both squares of the move are on the board and the first holds a piece.
pub open spec fn move_ok(b: Board, mv: Move) -> bool {
    &&& in_bounds(mv.from@, b.geo.side as nat)
    &&& in_bounds(mv.to@, b.geo.side as nat)
    &&& b.piece_at(sq(b, mv.from@)) is Some
}

/// The message of a refused move.
pub open spec fn move_error(b: Board, mv: Move) -> Seq<char> {
    if !in_bounds(mv.from@, b.geo.side as nat) {
        "Invalid from"@
    } else if !in_bounds(mv.to@, b.geo.side as nat) {
        "Invalid to"@
    } else {
        "No piece at from"@
    }
}

/// The piece that moves.
pub open spec fn moving(b: Board, mv: Move) -> Piece {
    b.piece_at(sq(b, mv.from@))->0
}

/// The piece that ends on the target square: the promotion kind if any, else the mover.
pub open spec fn placed_piece(b: Board, mv: Move) -> Piece {
    match mv.promotion {
        Some(pt) => Piece { piece_type: pt, owner: moving(b, mv).owner },
        None => moving(b, mv),
    }
}

/// A rook of `owner`.
pub open spec fn rook_of(owner: Player) -> Piece {
    Piece { piece_type: PieceType::Rook, owner }
}

/// Two squares along axis 1 and no movement on any other axis.
pub open spec fn castle_geometry(from: Seq<u8>, to: Seq<u8>, dim: nat) -> bool {
    &&& axis_dist(from[1], to[1]) == 2
    &&& forall|i: int| 0 <= i < dim && i != 1 ==> #[trigger] from[i] == to[i]
}

/// The rook's square before castling: file 7 towards higher files, else file 0.
pub open spec fn rook_from_coords(from: Seq<u8>, to: Seq<u8>) -> Seq<u8> {
    from.update(1, if to[1] > from[1] { 7u8 } else { 0u8 })
}

/// The rook's square after castling: file 5 towards higher files, else file 3.
pub open spec fn rook_to_coords(from: Seq<u8>, to: Seq<u8>) -> Seq<u8> {
    from.update(1, if to[1] > from[1] { 5u8 } else { 3u8 })
}

/// The rook's squares when the move castles: a king moving as `castle_geometry` says with
/// both rook squares on the board.
pub open spec fn castle_rook(b: Board, mv: Move) -> Option<(int, int)> {
    let side = b.geo.side as nat;
    if moving(b, mv).piece_type == PieceType::King && castle_geometry(
        mv.from@,
        mv.to@,
        b.geo.dimension as nat,
    ) && in_bounds(rook_from_coords(mv.from@, mv.to@), side) && in_bounds(
        rook_to_coords(mv.from@, mv.to@),
        side,
    ) {
        Some((sq(b, rook_from_coords(mv.from@, mv.to@)), sq(b, rook_to_coords(mv.from@, mv.to@))))
    } else {
        None
    }
}

/// The cell of the pawn taken en passant: a pawn moving onto the en-passant target.
pub open spec fn ep_capture(b: Board, mv: Move) -> Option<int> {
    match b.state.en_passant_target {
        Some((t, v)) => if moving(b, mv).piece_type == PieceType::Pawn && sq(b, mv.to@) == t {
            Some(v as int)
        } else {
            None
        },
        None => None,
    }
}

/// The axis of a double step: two squares along it and none along any other axis.
pub open spec fn is_double_step_axis(from: Seq<u8>, to: Seq<u8>, dim: nat, a: int) -> bool {
    &&& 0 <= a < dim
    &&& axis_dist(from[a], to[a]) == 2
    &&& forall|i: int| 0 <= i < dim && i != a ==> #[trigger] from[i] == to[i]
}

/// The axis of a double step, if the move is one.
pub open spec fn double_step(from: Seq<u8>, to: Seq<u8>, dim: nat) -> Option<int> {
    if exists|a: int| is_double_step_axis(from, to, dim, a) {
        Some(choose|a: int| is_double_step_axis(from, to, dim, a))
    } else {
        None
    }
}

/// The square passed over by a double step along axis `a`.
pub open spec fn passed_coords(from: Seq<u8>, to: Seq<u8>, a: int) -> Seq<u8> {
    from.update(a, (if to[a] > from[a] { from[a] + 1 } else { from[a] - 1 }) as u8)
}

/// The en-passant target after the move: the passed square and the pawn's new cell, after
/// a pawn's double step.
pub open spec fn new_ep(b: Board, mv: Move) -> Option<(usize, usize)> {
    if moving(b, mv).piece_type == PieceType::Pawn {
        match double_step(mv.from@, mv.to@, b.geo.dimension as nat) {
            Some(a) => Some(
                (sq(b, passed_coords(mv.from@, mv.to@, a)) as usize, sq(b, mv.to@) as usize),
            ),
            None => None,
        }
    } else {
        None
    }
}

/// The castling rights after a move touches cell `idx` of an 8-square board: the right
/// whose rook corner it is goes.
pub open spec fn rights_step(b: Board, r: u8, idx: int) -> u8 {
    let dim = b.geo.dimension as nat;
    if idx == sq(b, rank_coords(dim, 0, 0, 0)) {
        r & !2u8
    } else if idx == sq(b, rank_coords(dim, 0, 7, 0)) {
        r & !1u8
    } else if idx == sq(b, rank_coords(dim, 7, 0, 7)) {
        r & !8u8
    } else if idx == sq(b, rank_coords(dim, 7, 7, 7)) {
        r & !4u8
    } else {
        r
    }
}

/// The castling rights after the move: a king move drops both of its side's rights; on an
/// 8-square board a move from or to a rook corner drops that corner's right.
pub open spec fn rights_after(b: Board, mv: Move) -> u8 {
    let r0 = b.state.castling_rights;
    let p = moving(b, mv);
    let r1 = if p.piece_type == PieceType::King {
        match p.owner {
            Player::White => r0 & !3u8,
            Player::Black => r0 & !12u8,
        }
    } else {
        r0
    };
    if b.geo.side == 8 {
        rights_step(b, rights_step(b, r1, sq(b, mv.from@)), sq(b, mv.to@))
    } else {
        r1
    }
}

/// Clearing one right's bit leaves the other three.
proof fn lemma_right_bits(x: u8)
    by (bit_vector)
    ensures
        (x & !1u8) & 1u8 == 0u8,
        (x & !1u8) & 2u8 == x & 2u8,
        (x & !1u8) & 4u8 == x & 4u8,
        (x & !1u8) & 8u8 == x & 8u8,
        (x & !2u8) & 1u8 == x & 1u8,
        (x & !2u8) & 2u8 == 0u8,
        (x & !2u8) & 4u8 == x & 4u8,
        (x & !2u8) & 8u8 == x & 8u8,
        (x & !4u8) & 1u8 == x & 1u8,
        (x & !4u8) & 2u8 == x & 2u8,
        (x & !4u8) & 4u8 == 0u8,
        (x & !4u8) & 8u8 == x & 8u8,
        (x & !8u8) & 1u8 == x & 1u8,
        (x & !8u8) & 2u8 == x & 2u8,
        (x & !8u8) & 4u8 == x & 4u8,
        (x & !8u8) & 8u8 == 0u8,
        (x & !3u8) & 1u8 == 0u8,
        (x & !3u8) & 2u8 == 0u8,
        (x & !3u8) & 4u8 == x & 4u8,
        (x & !3u8) & 8u8 == x & 8u8,
        (x & !12u8) & 1u8 == x & 1u8,
        (x & !12u8) & 2u8 == x & 2u8,
        (x & !12u8) & 4u8 == 0u8,
        (x & !12u8) & 8u8 == 0u8,
{
}

/// Two squares on the board with as many coordinates are the same cell exactly when they
/// are the same square.
proof fn lemma_sq_same(b: Board, v1: Seq<u8>, v2: Seq<u8>)
    requires
        1 <= b.geo.side <= 256,
        in_bounds(v1, b.geo.side as nat),
        in_bounds(v2, b.geo.side as nat),
        v1.len() == v2.len(),
    ensures
        (sq(b, v1) == sq(b, v2)) == (v1 == v2),
{
    crate::geometry::lemma_coords_of_index(v1, b.geo.side as nat);
    crate::geometry::lemma_coords_of_index(v2, b.geo.side as nat);
}

/// A rook corner of an 8-square board is on the board.
proof fn lemma_corner_in_bounds(dim: nat, first: int, file: int)
    requires
        first == 0 || first == 7,
        file == 0 || file == 7,
    ensures
        in_bounds(rank_coords(dim, first, file, first), 8),
        rank_coords(dim, first, file, first).len() == dim,
{
}

/// What one corner step does to each right: the corner's own bit goes, the others stay.
proof fn lemma_step_bits(b: Board, x: u8, i: int)
    requires
        b.geo.side == 8,
        b.geo.dimension >= 2,
    ensures
        ({
            let dim = b.geo.dimension as nat;
            let r = rights_step(b, x, i);
            &&& r & 1u8 == (if i == sq(b, rank_coords(dim, 0, 7, 0)) { 0u8 } else { x & 1u8 })
            &&& r & 2u8 == (if i == sq(b, rank_coords(dim, 0, 0, 0)) { 0u8 } else { x & 2u8 })
            &&& r & 4u8 == (if i == sq(b, rank_coords(dim, 7, 7, 7)) { 0u8 } else { x & 4u8 })
            &&& r & 8u8 == (if i == sq(b, rank_coords(dim, 7, 0, 7)) { 0u8 } else { x & 8u8 })
        }),
{
    let dim = b.geo.dimension as nat;
    let a1 = rank_coords(dim, 0, 0, 0);
    let h1 = rank_coords(dim, 0, 7, 0);
    let a8 = rank_coords(dim, 7, 0, 7);
    let h8 = rank_coords(dim, 7, 7, 7);
    lemma_corner_in_bounds(dim, 0, 0);
    lemma_corner_in_bounds(dim, 0, 7);
    lemma_corner_in_bounds(dim, 7, 0);
    lemma_corner_in_bounds(dim, 7, 7);
    assert(a1[1] != h1[1] && a1[0] != a8[0] && a1[0] != h8[0] && h1[0] != a8[0] && h1[0] != h8[0]
        && a8[1] != h8[1]);
    lemma_sq_same(b, a1, h1);
    lemma_sq_same(b, a1, a8);
    lemma_sq_same(b, a1, h8);
    lemma_sq_same(b, h1, a8);
    lemma_sq_same(b, h1, h8);
    lemma_sq_same(b, a8, h8);
    lemma_right_bits(x);
}

/// The castling rights after a move on an 8-square board, bit by bit: white kingside
/// (1) goes when the move starts or ends on h1 or moves the white king, white queenside
/// (2) on a1 or a white king move, black kingside (4) on h8 or a black king move, black
/// queenside (8) on a8 or a black king move; every other right stays as it was.
pub proof fn lemma_rights_after_bits(b: Board, mv: Move)
    requires
        b.geo.side == 8,
        b.geo.dimension >= 2,
        mv.from@.len() == b.geo.dimension,
        mv.to@.len() == b.geo.dimension,
        in_bounds(mv.from@, 8),
        in_bounds(mv.to@, 8),
    ensures
        ({
            let dim = b.geo.dimension as nat;
            let r0 = b.state.castling_rights;
            let r = rights_after(b, mv);
            let wk = moving(b, mv) == Piece { piece_type: PieceType::King, owner: Player::White };
            let bk = moving(b, mv) == Piece { piece_type: PieceType::King, owner: Player::Black };
            let h1 = rank_coords(dim, 0, 7, 0);
            let a1 = rank_coords(dim, 0, 0, 0);
            let h8 = rank_coords(dim, 7, 7, 7);
            let a8 = rank_coords(dim, 7, 0, 7);
            &&& r & 1u8 == (if mv.from@ == h1 || mv.to@ == h1 || wk { 0u8 } else { r0 & 1u8 })
            &&& r & 2u8 == (if mv.from@ == a1 || mv.to@ == a1 || wk { 0u8 } else { r0 & 2u8 })
            &&& r & 4u8 == (if mv.from@ == h8 || mv.to@ == h8 || bk { 0u8 } else { r0 & 4u8 })
            &&& r & 8u8 == (if mv.from@ == a8 || mv.to@ == a8 || bk { 0u8 } else { r0 & 8u8 })
        }),
{
    let dim = b.geo.dimension as nat;
    let r0 = b.state.castling_rights;
    let p = moving(b, mv);
    let r1 = if p.piece_type == PieceType::King {
        match p.owner {
            Player::White => r0 & !3u8,
            Player::Black => r0 & !12u8,
        }
    } else {
        r0
    };
    lemma_right_bits(r0);
    let f = sq(b, mv.from@);
    let t = sq(b, mv.to@);
    lemma_step_bits(b, r1, f);
    lemma_step_bits(b, rights_step(b, r1, f), t);
    let h1 = rank_coords(dim, 0, 7, 0);
    let a1 = rank_coords(dim, 0, 0, 0);
    let h8 = rank_coords(dim, 7, 7, 7);
    let a8 = rank_coords(dim, 7, 0, 7);
    lemma_corner_in_bounds(dim, 0, 0);
    lemma_corner_in_bounds(dim, 0, 7);
    lemma_corner_in_bounds(dim, 7, 0);
    lemma_corner_in_bounds(dim, 7, 7);
    lemma_sq_same(b, mv.from@, h1);
    lemma_sq_same(b, mv.from@, a1);
    lemma_sq_same(b, mv.from@, h8);
    lemma_sq_same(b, mv.from@, a8);
    lemma_sq_same(b, mv.to@, h1);
    lemma_sq_same(b, mv.to@, a1);
    lemma_sq_same(b, mv.to@, h8);
    lemma_sq_same(b, mv.to@, a8);
}

/// The bits of cell `j` after the move: the captured en-passant pawn goes, the source and
/// target are emptied, the placed piece lands on the target, and a castling rook moves.
pub open spec fn applied_bits(b: Board, mv: Move, j: int) -> CellBits {
    let f = sq(b, mv.from@);
    let t = sq(b, mv.to@);
    let b1 = bits_ep_taken(b, mv, j);
    let b2 = if j == f || j == t {
        empty_bits()
    } else {
        b1
    };
    let b3 = if j == t {
        with_piece(b2, placed_piece(b, mv))
    } else {
        b2
    };
    match castle_rook(b, mv) {
        Some((rf, rt)) => {
            let b4 = if j == rf {
                empty_bits()
            } else {
                b3
            };
            if j == rt {
                with_piece(b4, rook_of(moving(b, mv).owner))
            } else {
                b4
            }
        },
        None => b3,
    }
}

/// The key of piece `p` on cell `i`.
pub open spec fn pk(b: Board, i: int, p: Piece) -> u64 {
    b.zobrist.piece_keys@[piece_key_offset(p) * b.total() + i]
}

/// The hash once the previous hash is recorded: side to move, the old castling and
/// en-passant keys, the mover leaving its square and the piece on the target.
pub open spec fn hash_start(b: Board, mv: Move) -> u64 {
    let zk = b.zobrist;
    let t = sq(b, mv.to@);
    let h1 = b.state.hash ^ zk.black_to_move;
    let h2 = if b.state.castling_rights > 0 {
        h1 ^ zk.castling_keys@[b.state.castling_rights as int]
    } else {
        h1
    };
    let h3 = match b.state.en_passant_target {
        Some((e, _)) => if e < zk.en_passant_keys.len() {
            h2 ^ zk.en_passant_keys@[e as int]
        } else {
            h2
        },
        None => h2,
    };
    let h4 = h3 ^ pk(b, sq(b, mv.from@), moving(b, mv));
    match b.piece_at(t) {
        Some(tp) => h4 ^ pk(b, t, tp),
        None => h4,
    }
}

/// `h` with the key of a pawn taken en passant.
pub open spec fn hash_ep_taken(b: Board, mv: Move, h: u64) -> u64 {
    match ep_capture(b, mv) {
        Some(v) => match b.piece_at(v) {
            Some(vp) => h ^ pk(b, v, vp),
            None => h,
        },
        None => h,
    }
}

/// `h` with the key of the new en-passant target.
pub open spec fn hash_new_ep(b: Board, mv: Move, h: u64) -> u64 {
    match new_ep(b, mv) {
        Some((ti, _)) => h ^ b.zobrist.en_passant_keys@[ti as int],
        None => h,
    }
}

/// `h` with the placed piece on the target and a castling rook's move.
pub open spec fn hash_placed(b: Board, mv: Move, h: u64) -> u64 {
    let h8 = h ^ pk(b, sq(b, mv.to@), placed_piece(b, mv));
    match castle_rook(b, mv) {
        Some((rf, rt)) => h8 ^ pk(b, rf, rook_of(moving(b, mv).owner)) ^ pk(
            b,
            rt,
            rook_of(moving(b, mv).owner),
        ),
        None => h8,
    }
}

/// `h` with the key of the new castling rights.
pub open spec fn hash_rights(b: Board, mv: Move, h: u64) -> u64 {
    let r2 = rights_after(b, mv);
    if r2 > 0 {
        h ^ b.zobrist.castling_keys@[r2 as int]
    } else {
        h
    }
}

/// The hash after the move: side to move, old castling and en-passant keys, the mover
/// leaving, the captured pieces, the new en-passant key, the placed piece, a castling rook,
/// and the new castling key.
pub open spec fn applied_hash(b: Board, mv: Move) -> u64 {
    hash_rights(b, mv, hash_placed(b, mv, hash_new_ep(b, mv, hash_ep_taken(b, mv, hash_start(b, mv)))))
}

/// The piece on the target, recorded as captured.
pub open spec fn target_capture(b: Board, mv: Move) -> Option<(usize, Piece)> {
    let t = sq(b, mv.to@);
    match b.piece_at(t) {
        Some(tp) => Some((t as usize, tp)),
        None => None,
    }
}

/// The cells' bits once a pawn taken en passant is gone.
pub open spec fn bits_ep_taken(b: Board, mv: Move, j: int) -> CellBits {
    if ep_capture(b, mv) == Some(j) {
        empty_bits()
    } else {
        b.pieces.bits(j)
    }
}

/// The position state other than hash, history, en-passant target and castling rights, and
/// the shared tables, are the same.
pub open spec fn keeps_rest(a: Board, b: Board) -> bool {
    &&& a.geo == b.geo
    &&& a.zobrist == b.zobrist
    &&& a.state.halfmove_clock == b.state.halfmove_clock
    &&& a.state.fullmove_number == b.state.fullmove_number
    &&& a.state.start_phase == b.state.start_phase
}

/// What the move records for its undoing: the piece on the target (or the pawn taken en
/// passant), and the en-passant target and castling rights before the move.
pub open spec fn applied_info(b: Board, mv: Move) -> UnmakeInfo {
    let c1 = target_capture(b, mv);
    let c2 = match ep_capture(b, mv) {
        Some(v) => match b.piece_at(v) {
            Some(vp) => Some((v as usize, vp)),
            None => c1,
        },
        None => c1,
    };
    UnmakeInfo {
        captured: c2,
        en_passant_target: b.state.en_passant_target,
        castling_rights: b.state.castling_rights,
    }
}

/// The cached king cells `(white, black)` of a board.
pub open spec fn cache_of(b: Board) -> (u16, u16) {
    (b.pieces.white_king_idx, b.pieces.black_king_idx)
}

/// The cached king cells after cell `i` is cleared: the white one is forgotten when it is
/// `i` (as 16 bits), else the black one when it is.
pub open spec fn cache_removed(c: (u16, u16), i: usize) -> (u16, u16) {
    if c.0 == i as u16 {
        (NO_KING, c.1)
    } else if c.1 == i as u16 {
        (c.0, NO_KING)
    } else {
        c
    }
}

/// The cached king cells after `p` is put on cell `i`: a king's side now caches `i`.
pub open spec fn cache_placed(c: (u16, u16), i: usize, p: Piece) -> (u16, u16) {
    if p.piece_type == PieceType::King {
        match p.owner {
            Player::White => (i as u16, c.1),
            Player::Black => (c.0, i as u16),
        }
    } else {
        c
    }
}

/// The cached king cells after `mv` is made on `b`: the pawn taken en passant is cleared,
/// then the source and target, the placed piece lands, and a castling rook leaves its
/// corner for its new square.
pub open spec fn applied_cache(b: Board, mv: Move) -> (u16, u16) {
    let f = sq(b, mv.from@) as usize;
    let t = sq(b, mv.to@) as usize;
    let c1 = match ep_capture(b, mv) {
        Some(v) => cache_removed(cache_of(b), v as usize),
        None => cache_of(b),
    };
    let c3 = cache_placed(cache_removed(cache_removed(c1, f), t), t, placed_piece(b, mv));
    match castle_rook(b, mv) {
        Some((rf, rt)) => cache_placed(cache_removed(c3, rf as usize), rt as usize, rook_of(moving(b, mv).owner)),
        None => c3,
    }
}

/// `n` is the position after `mv` is made on `b`.
pub open spec fn applied(b: Board, mv: Move, n: Board) -> bool {
    &&& forall|j: int| #[trigger] n.pieces.bits(j) == applied_bits(b, mv, j)
    &&& n.state.hash == applied_hash(b, mv)
    &&& n.state.history@ == b.state.history@.push(b.state.hash)
    &&& n.state.en_passant_target == new_ep(b, mv)
    &&& n.state.castling_rights == rights_after(b, mv)
    &&& keeps_rest(n, b)
}

/// The piece put back on the source when a move is taken back: a pawn if the move promoted.
pub open spec fn restored_piece(moved: Piece, mv: Move) -> Piece {
    if mv.promotion is Some {
        Piece { piece_type: PieceType::Pawn, owner: moved.owner }
    } else {
        moved
    }
}

/// Taking the move back also moves a castling rook back: the piece on the target is a king
/// that went two squares along axis 1 and nowhere else.
pub open spec fn unmake_castles(b: Board, mv: Move) -> bool {
    &&& b.piece_at(sq(b, mv.to@)) matches Some(m) && m.piece_type == PieceType::King
    &&& castle_geometry(mv.from@, mv.to@, b.geo.dimension as nat)
}

/// The squares of the move are on the board, the target holds a piece, and a castling
/// rook is where it went.
pub open spec fn unmake_squares_ok(b: Board, mv: Move) -> bool {
    let side = b.geo.side as nat;
    &&& in_bounds(mv.from@, side)
    &&& in_bounds(mv.to@, side)
    &&& b.piece_at(sq(b, mv.to@)) is Some
    &&& unmake_castles(b, mv) ==> {
        &&& in_bounds(rook_from_coords(mv.from@, mv.to@), side)
        &&& in_bounds(rook_to_coords(mv.from@, mv.to@), side)
        &&& b.piece_at(sq(b, rook_to_coords(mv.from@, mv.to@))) is Some
    }
}

/// The move can be taken back on `b` with `info`: its squares are fit for it, and the
/// recorded values index the board.
pub open spec fn unmake_ready(b: Board, mv: Move, info: UnmakeInfo) -> bool {
    &&& unmake_squares_ok(b, mv)
    &&& info.captured matches Some((i, _)) ==> i < b.total()
    &&& info.castling_rights < 16
    &&& info.en_passant_target matches Some((t, v)) ==> t < b.total() && v < b.total()
}

/// The bits of cell `j` once a castling rook is back on its corner.
pub open spec fn bits_rook_back(b: Board, mv: Move, j: int) -> CellBits {
    let c0 = b.pieces.bits(j);
    if unmake_castles(b, mv) {
        let rf = sq(b, rook_from_coords(mv.from@, mv.to@));
        let rt = sq(b, rook_to_coords(mv.from@, mv.to@));
        let rook = b.piece_at(rt)->0;
        let c1 = if j == rt {
            empty_bits()
        } else {
            c0
        };
        if j == rf {
            with_piece(c1, rook)
        } else {
            c1
        }
    } else {
        c0
    }
}

/// The bits of cell `j` after taking the move back: a castling rook returns, the target is
/// emptied, the source gets the restored piece and the captured piece returns to its cell.
pub open spec fn unmade_bits(b: Board, mv: Move, info: UnmakeInfo, j: int) -> CellBits {
    let f = sq(b, mv.from@);
    let t = sq(b, mv.to@);
    let moved = b.piece_at(t)->0;
    let c2 = bits_rook_back(b, mv, j);
    let c3 = if j == t {
        empty_bits()
    } else {
        c2
    };
    let c4 = if j == f {
        with_piece(c3, restored_piece(moved, mv))
    } else {
        c3
    };
    match info.captured {
        Some((i, q)) => if j == i {
            with_piece(c4, q)
        } else {
            c4
        },
        None => c4,
    }
}

/// The cached king cells after taking `mv` back on `b` with `info`: a castling rook goes
/// back to its corner, the target is cleared, the restored piece returns to the source and
/// the captured piece to its cell.
pub open spec fn unmade_cache(b: Board, mv: Move, info: UnmakeInfo) -> (u16, u16) {
    let f = sq(b, mv.from@) as usize;
    let t = sq(b, mv.to@) as usize;
    let moved = b.piece_at(t as int)->0;
    let c1 = if unmake_castles(b, mv) {
        let rf = sq(b, rook_from_coords(mv.from@, mv.to@)) as usize;
        let rt = sq(b, rook_to_coords(mv.from@, mv.to@)) as usize;
        cache_placed(cache_removed(cache_of(b), rt), rf, b.piece_at(rt as int)->0)
    } else {
        cache_of(b)
    };
    let c3 = cache_placed(cache_removed(c1, t), f, restored_piece(moved, mv));
    match info.captured {
        Some((i, q)) => cache_placed(c3, i, q),
        None => c3,
    }
}

/// `n` is the position after taking `mv` back on `b` with `info`.
pub open spec fn unmade(b: Board, mv: Move, info: UnmakeInfo, n: Board) -> bool {
    &&& forall|j: int| #[trigger] n.pieces.bits(j) == unmade_bits(b, mv, info, j)
    &&& b.state.history@.len() > 0 ==> n.state.hash == b.state.history@.last()
        && n.state.history@ == b.state.history@.drop_last()
    &&& b.state.history@.len() == 0 ==> n.state.hash == b.state.hash && n.state.history@
        == b.state.history@
    &&& n.state.en_passant_target == info.en_passant_target
    &&& n.state.castling_rights == info.castling_rights
    &&& keeps_rest(n, b)
}

/// Every cell holds exactly the bits of the piece read from it, or none.
pub open spec fn clean(b: Board) -> bool {
    forall|j: int| #[trigger] b.pieces.bits(j) == match b.piece_at(j) {
        Some(p) => piece_bits(p),
        None => empty_bits(),
    }
}

/// The move can be made and taken back to the same position: a promotion is made by a pawn
/// (and is not to a king on a castling path); a castling king's rook stands on its corner,
/// the rook's destination is empty and neither rook square is the target; and a pawn taken
/// en passant from another cell than the target leaves the target empty.
pub open spec fn undoable(b: Board, mv: Move) -> bool {
    let p = moving(b, mv);
    let t = sq(b, mv.to@);
    let side = b.geo.side as nat;
    let geometry = castle_geometry(mv.from@, mv.to@, b.geo.dimension as nat);
    let rfc = rook_from_coords(mv.from@, mv.to@);
    let rtc = rook_to_coords(mv.from@, mv.to@);
    &&& mv.promotion matches Some(pt) ==> p.piece_type == PieceType::Pawn && !(pt
        == PieceType::King && geometry)
    &&& p.piece_type == PieceType::King && geometry ==> {
        &&& in_bounds(rfc, side)
        &&& in_bounds(rtc, side)
        &&& b.piece_at(sq(b, rfc)) == Some(rook_of(p.owner))
        &&& b.pieces.bits(sq(b, rtc)) == empty_bits()
        &&& sq(b, rfc) != t
        &&& sq(b, rtc) != t
    }
    &&& ep_capture(b, mv) matches Some(v) ==> (b.piece_at(v) is Some && v != t ==> b.piece_at(
        t,
    ) is None)
}

/// What making an undoable move leaves on the target and the rook squares.
pub(crate) proof fn lemma_mid_facts(b: Board, mv: Move, mid: Board)
    requires
        b.wf(),
        mv.from@.len() == b.geo.dimension,
        mv.to@.len() == b.geo.dimension,
        move_ok(b, mv),
        undoable(b, mv),
        applied(b, mv, mid),
    ensures
        unmake_ready(mid, mv, applied_info(b, mv)),
        mid.piece_at(sq(b, mv.to@)) == Some(placed_piece(b, mv)),
        unmake_castles(mid, mv) == castle_rook(b, mv) is Some,
        castle_rook(b, mv) matches Some((rf, rt)) ==> rf != rt && rt != sq(b, mv.from@) && rf
            != sq(b, mv.from@) && mid.piece_at(rt) == Some(rook_of(moving(b, mv).owner)),
        b.pieces.bits(sq(b, mv.from@)) != empty_bits(),
{
    let side = b.geo.side as nat;
    let dim = b.geo.dimension as nat;
    let f = sq(b, mv.from@);
    let t = sq(b, mv.to@);
    let p = moving(b, mv);
    let pp = placed_piece(b, mv);
    lemma_index_of_bound(mv.from@, side);
    lemma_index_of_bound(mv.to@, side);
    lemma_piece_bits(pp);
    lemma_piece_bits(p);
    assert(b.pieces.bits(f) != empty_bits());
    match castle_rook(b, mv) {
        Some((rf, rt)) => {
            let rfc = rook_from_coords(mv.from@, mv.to@);
            let rtc = rook_to_coords(mv.from@, mv.to@);
            lemma_coords_index_inverse(dim, side, 0, rfc);
            lemma_coords_index_inverse(dim, side, 0, rtc);
            assert(rfc[1] != rtc[1]);
            assert(rf != rt);
            assert(rt != f);
            assert(rf != f);
            lemma_piece_bits(rook_of(p.owner));
            assert(mid.pieces.bits(rt) == piece_bits(rook_of(p.owner)));
            assert(mid.piece_at(rt) == Some(rook_of(p.owner)));
        },
        None => {},
    }
    assert(mid.pieces.bits(t) == piece_bits(pp));
    assert(mid.piece_at(t) == Some(pp));
    assert(unmake_castles(mid, mv) == castle_rook(b, mv) is Some);
}

/// Taking back a move with what making it recorded gives back the position: the piece on
/// every cell, the hash, the history of hashes, the en-passant target and the castling
/// rights; and the recorded values are fit for taking the move back.
pub proof fn lemma_unmake_undoes_apply(b: Board, mv: Move, mid: Board, after: Board)
    requires
        b.wf(),
        mv.from@.len() == b.geo.dimension,
        mv.to@.len() == b.geo.dimension,
        move_ok(b, mv),
        undoable(b, mv),
        applied(b, mv, mid),
        unmade(mid, mv, applied_info(b, mv), after),
    ensures
        unmake_ready(mid, mv, applied_info(b, mv)),
        forall|j: int| #[trigger] after.piece_at(j) == b.piece_at(j),
        after.state.hash == b.state.hash,
        after.state.history@ == b.state.history@,
        after.state.en_passant_target == b.state.en_passant_target,
        after.state.castling_rights == b.state.castling_rights,
{
    let info = applied_info(b, mv);
    let t = sq(b, mv.to@);
    let pp = placed_piece(b, mv);
    lemma_mid_facts(b, mv, mid);
    assert forall|j: int| #[trigger] after.piece_at(j) == b.piece_at(j) by {
        assert(after.pieces.bits(j) == unmade_bits(mid, mv, info, j));
        assert(mid.pieces.bits(j) == applied_bits(b, mv, j));
        match castle_rook(b, mv) {
            Some((rf, rt)) => {
                assert(mid.pieces.bits(rt) == applied_bits(b, mv, rt));
                assert(mid.pieces.bits(rf) == applied_bits(b, mv, rf));
            },
            None => {},
        }
        match ep_capture(b, mv) {
            Some(v) => {
                lemma_piece_bits(b.piece_at(v)->0);
            },
            None => {},
        }
        lemma_piece_bits(restored_piece(pp, mv));
        match b.piece_at(t) {
            Some(tp) => {
                lemma_piece_bits(tp);
            },
            None => {},
        }
    }
}

/// A king of `player`.
pub open spec fn king_of(player: Player) -> Piece {
    Piece { piece_type: PieceType::King, owner: player }
}

/// The cached cell `idx` names the one cell holding a king of `player`, or is `NO_KING`
/// when no cell holds one.
pub open spec fn cache_names(b: Board, idx: u16, player: Player) -> bool {
    if idx == NO_KING {
        forall|j: int| 0 <= j < b.total() ==> #[trigger] b.piece_at(j) != Some(king_of(player))
    } else {
        &&& (idx as int) < b.total()
        &&& b.piece_at(idx as int) == Some(king_of(player))
        &&& forall|j: int|
            0 <= j < b.total() && j != idx as int ==> #[trigger] b.piece_at(j) != Some(king_of(player))
    }
}

/// Both cached king cells name their side's king (see `cache_names`).
pub open spec fn kings_cached(b: Board) -> bool {
    &&& cache_names(b, b.pieces.white_king_idx, Player::White)
    &&& cache_names(b, b.pieces.black_king_idx, Player::Black)
}

/// Taking back a move with what making it recorded gives back the cached king cells, when
/// they named the kings, every cell fits in 16 bits below `NO_KING`, and the move does not
/// promote to a king.
pub proof fn lemma_unmake_restores_kings(b: Board, mv: Move, mid: Board, after: Board)
    requires
        b.wf(),
        kings_cached(b),
        b.total() < 65535,
        mv.from@.len() == b.geo.dimension,
        mv.to@.len() == b.geo.dimension,
        move_ok(b, mv),
        undoable(b, mv),
        mv.promotion != Some(PieceType::King),
        applied(b, mv, mid),
        cache_of(mid) == applied_cache(b, mv),
        unmade(mid, mv, applied_info(b, mv), after),
        cache_of(after) == unmade_cache(mid, mv, applied_info(b, mv)),
    ensures
        cache_of(after) == cache_of(b),
{
    let f = sq(b, mv.from@);
    let t = sq(b, mv.to@);
    let p = moving(b, mv);
    let side = b.geo.side as nat;
    lemma_index_of_bound(mv.from@, side);
    lemma_index_of_bound(mv.to@, side);
    lemma_mid_facts(b, mv, mid);
    let w = b.pieces.white_king_idx;
    let k = b.pieces.black_king_idx;
    assert(b.piece_at(f) == Some(p));
    assert(mid.piece_at(t) == Some(placed_piece(b, mv)));
    match castle_rook(b, mv) {
        Some((rf, rt)) => {
            lemma_index_of_bound(rook_from_coords(mv.from@, mv.to@), side);
            lemma_index_of_bound(rook_to_coords(mv.from@, mv.to@), side);
            assert(rt != t && rf != t);
            assert(b.piece_at(rf) == Some(rook_of(p.owner)));
            assert(b.pieces.bits(rt) == empty_bits());
            assert(b.piece_at(rt) is None);
            assert(0 <= rf < b.total() && 0 <= rt < b.total());
        },
        None => {},
    }
    match ep_capture(b, mv) {
        Some(v) => {
            assert(0 <= v < b.total());
        },
        None => {},
    }
}

/// On a board where every cell holds exactly its piece's bits, taking back a move with
/// what making it recorded gives back every bit of every cell.
pub proof fn lemma_unmake_restores_bits(b: Board, mv: Move, mid: Board, after: Board)
    requires
        b.wf(),
        clean(b),
        mv.from@.len() == b.geo.dimension,
        mv.to@.len() == b.geo.dimension,
        move_ok(b, mv),
        undoable(b, mv),
        applied(b, mv, mid),
        unmade(mid, mv, applied_info(b, mv), after),
    ensures
        forall|j: int| #[trigger] after.pieces.bits(j) == b.pieces.bits(j),
{
    let info = applied_info(b, mv);
    let f = sq(b, mv.from@);
    let t = sq(b, mv.to@);
    let p = moving(b, mv);
    let pp = placed_piece(b, mv);
    lemma_mid_facts(b, mv, mid);
    assert forall|j: int| #[trigger] after.pieces.bits(j) == b.pieces.bits(j) by {
        assert(after.pieces.bits(j) == unmade_bits(mid, mv, info, j));
        assert(mid.pieces.bits(j) == applied_bits(b, mv, j));
        assert(b.pieces.bits(j) == match b.piece_at(j) {
            Some(q) => piece_bits(q),
            None => empty_bits(),
        });
        match castle_rook(b, mv) {
            Some((rf, rt)) => {
                assert(mid.pieces.bits(rt) == applied_bits(b, mv, rt));
                assert(mid.pieces.bits(rf) == applied_bits(b, mv, rf));
                assert(b.pieces.bits(rf) == match b.piece_at(rf) {
                    Some(q) => piece_bits(q),
                    None => empty_bits(),
                });
            },
            None => {},
        }
        match ep_capture(b, mv) {
            Some(v) => {
                lemma_piece_bits(b.piece_at(v)->0);
                assert(b.pieces.bits(v) == match b.piece_at(v) {
                    Some(q) => piece_bits(q),
                    None => empty_bits(),
                });
            },
            None => {},
        }
        lemma_piece_bits(p);
        assert(b.pieces.bits(f) == piece_bits(p));
        assert(b.pieces.bits(t) == match b.piece_at(t) {
            Some(q) => piece_bits(q),
            None => empty_bits(),
        });
        lemma_piece_bits(restored_piece(pp, mv));
        match b.piece_at(t) {
            Some(tp) => {
                lemma_piece_bits(tp);
            },
            None => {},
        }
    }
}

impl Board {
    /// Whether the move goes two squares along axis 1 and nowhere else.
    fn is_castle_geometry(&self, from: &Coordinate, to: &Coordinate) -> (r: bool)
        requires
            2 <= self.geo.dimension,
            from@.len() == self.geo.dimension,
            to@.len() == self.geo.dimension,
        ensures
            r == castle_geometry(from@, to@, self.geo.dimension as nat),
    {
        let f1 = from.values.get(1);
        let t1 = to.values.get(1);
        let dist: u8 = if f1 >= t1 {
            f1 - t1
        } else {
            t1 - f1
        };
        if dist != 2 {
            return false;
        }
        let dim = self.geo.dimension;
        let mut i: usize = 0;
        while i < dim
            invariant
                dim == self.geo.dimension,
                from@.len() == dim,
                to@.len() == dim,
                i <= dim,
                forall|k: int| 0 <= k < i && k != 1 ==> #[trigger] from@[k] == to@[k],
            decreases dim - i,
        {
            if i != 1 && from.values.get(i) != to.values.get(i) {
                return false;
            }
            i = i + 1;
        }
        true
    }

    /// The rook's squares when the move castles (see `castle_rook`).
    fn castle_squares(&self, mv: &Move, mover: Piece) -> (r: Option<(usize, usize)>)
        requires
            self.wf(),
            mv.from@.len() == self.geo.dimension,
            mv.to@.len() == self.geo.dimension,
            mover == moving(*self, *mv),
        ensures
            r == match castle_rook(*self, *mv) {
                Some((rf, rt)) => Some((rf as usize, rt as usize)),
                None => None::<(usize, usize)>,
            },
            r matches Some((rf, rt)) ==> rf < self.total() && rt < self.total(),
            castle_rook(*self, *mv) matches Some((rf, rt)) ==> 0 <= rf < self.total() && 0 <= rt
                < self.total(),
    {
        proof {
            let rfc = rook_from_coords(mv.from@, mv.to@);
            let rtc = rook_to_coords(mv.from@, mv.to@);
            if in_bounds(rfc, self.geo.side as nat) {
                lemma_index_of_bound(rfc, self.geo.side as nat);
            }
            if in_bounds(rtc, self.geo.side as nat) {
                lemma_index_of_bound(rtc, self.geo.side as nat);
            }
        }
        if mover.piece_type != PieceType::King {
            return None;
        }
        if !self.is_castle_geometry(&mv.from, &mv.to) {
            return None;
        }
        let is_kingside = mv.to.values.get(1) > mv.from.values.get(1);
        let mut rook_from = mv.from.values.duplicate();
        rook_from.set(1, if is_kingside { 7 } else { 0 });
        let mut rook_to = mv.from.values.duplicate();
        rook_to.set(1, if is_kingside { 5 } else { 3 });
        proof {
            assert(rook_from@ =~= rook_from_coords(mv.from@, mv.to@));
            assert(rook_to@ =~= rook_to_coords(mv.from@, mv.to@));
            lemma_cell_count_monotone(self.geo.side as nat, rook_from@.len(), self.geo.dimension as nat);
        }
        match self.coords_to_index(rook_from.as_slice()) {
            Some(rf) => match self.coords_to_index(rook_to.as_slice()) {
                Some(rt) => Some((rf, rt)),
                None => None,
            },
            None => None,
        }
    }

    /// The axis of a double step, if the move is one (see `double_step`).
    fn double_step_axis(&self, from: &Coordinate, to: &Coordinate) -> (r: Option<usize>)
        requires
            from@.len() == self.geo.dimension,
            to@.len() == self.geo.dimension,
        ensures
            r == match double_step(from@, to@, self.geo.dimension as nat) {
                Some(a) => Some(a as usize),
                None => None::<usize>,
            },
    {
        let dim = self.geo.dimension;
        let mut axis: usize = dim;
        let mut i: usize = 0;
        while i < dim
            invariant
                dim == self.geo.dimension,
                from@.len() == dim,
                to@.len() == dim,
                i <= dim,
                axis == dim || (axis < i && axis_dist(from@[axis as int], to@[axis as int]) == 2),
                axis == dim ==> forall|k: int| 0 <= k < i ==> axis_dist(#[trigger] from@[k], to@[k]) != 2,
            decreases dim - i,
        {
            let f = from.values.get(i);
            let t = to.values.get(i);
            if (f >= t && f - t == 2) || (t > f && t - f == 2) {
                if axis == dim {
                    axis = i;
                }
            }
            i = i + 1;
        }
        if axis == dim {
            proof {
                assert(!exists|a: int| is_double_step_axis(from@, to@, dim as nat, a));
            }
            return None;
        }
        let mut k: usize = 0;
        while k < dim
            invariant
                dim == self.geo.dimension,
                from@.len() == dim,
                to@.len() == dim,
                axis < dim,
                k <= dim,
                axis_dist(from@[axis as int], to@[axis as int]) == 2,
                forall|j: int| 0 <= j < k && j != axis ==> #[trigger] from@[j] == to@[j],
            decreases dim - k,
        {
            if k != axis && from.values.get(k) != to.values.get(k) {
                proof {
                    assert forall|a: int| !is_double_step_axis(from@, to@, dim as nat, a) by {
                        if is_double_step_axis(from@, to@, dim as nat, a) {
                            if a != axis {
                                assert(from@[axis as int] == to@[axis as int]);
                            } else {
                                assert(from@[k as int] == to@[k as int]);
                            }
                        }
                    }
                }
                return None;
            }
            k = k + 1;
        }
        proof {
            assert(is_double_step_axis(from@, to@, dim as nat, axis as int));
            let c = choose|a: int| is_double_step_axis(from@, to@, dim as nat, a);
            if c != axis {
                assert(from@[axis as int] == to@[axis as int]);
            }
        }
        Some(axis)
    }

    /// The cell of `rank_coords(dim, first, file, rest)`, if it is on the board.
    fn corner_index(&self, first: u8, file: u8, rest: u8) -> (r: Option<usize>)
        requires
            self.wf(),
        ensures
            r == self.spec_index(rank_coords(self.geo.dimension as nat, first as int, file as int, rest as int)),
    {
        let mut c = CoordVals::filled(rest, self.geo.dimension);
        c.set(0, first);
        c.set(1, file);
        proof {
            assert(c@ =~= rank_coords(self.geo.dimension as nat, first as int, file as int, rest as int));
            lemma_cell_count_monotone(self.geo.side as nat, c@.len(), self.geo.dimension as nat);
        }
        self.coords_to_index(c.as_slice())
    }
}

/// Clearing bits keeps a value below 16.
proof fn lemma_clear_keeps_small(r: u8, m: u8)
    requires
        r < 16,
    ensures
        r & m < 16,
        r & m <= r,
{
    assert(r < 16 ==> r & m < 16 && r & m <= r) by (bit_vector);
}

/// Whether the optional cell is `idx`.
fn is_cell(o: Option<usize>, idx: usize) -> (r: bool)
    ensures
        r == (o == Some(idx)),
{
    match o {
        Some(x) => x == idx,
        None => false,
    }
}

impl Board {
    /// One step of `rights_step`, with the four rook corners already read.
    fn clear_corner_right(
        &self,
        r: u8,
        idx: usize,
        wqs: Option<usize>,
        wks: Option<usize>,
        bqs: Option<usize>,
        bks: Option<usize>,
    ) -> (out: u8)
        requires
            self.wf(),
            self.geo.side == 8,
            r < 16,
            idx < self.total(),
            wqs == self.spec_index(rank_coords(self.geo.dimension as nat, 0, 0, 0)),
            wks == self.spec_index(rank_coords(self.geo.dimension as nat, 0, 7, 0)),
            bqs == self.spec_index(rank_coords(self.geo.dimension as nat, 7, 0, 7)),
            bks == self.spec_index(rank_coords(self.geo.dimension as nat, 7, 7, 7)),
        ensures
            out == rights_step(*self, r, idx as int),
            out < 16,
    {
        let ghost dim = self.geo.dimension as nat;
        proof {
            assert forall|first: int, file: int, rest: int|
                0 <= first < 8 && 0 <= file < 8 && 0 <= rest < 8 implies #[trigger] self.spec_index(
                rank_coords(dim, first, file, rest),
            ) == Some(sq(*self, rank_coords(dim, first, file, rest)) as usize) && sq(
                *self,
                rank_coords(dim, first, file, rest),
            ) < cell_count(8, dim) by {
                let c = rank_coords(dim, first, file, rest);
                assert(in_bounds(c, 8));
                lemma_index_of_bound(c, 8);
            }
            assert(self.spec_index(rank_coords(dim, 0, 0, 0)) == Some(sq(*self, rank_coords(dim, 0, 0, 0)) as usize));
            assert(self.spec_index(rank_coords(dim, 0, 7, 0)) == Some(sq(*self, rank_coords(dim, 0, 7, 0)) as usize));
            assert(self.spec_index(rank_coords(dim, 7, 0, 7)) == Some(sq(*self, rank_coords(dim, 7, 0, 7)) as usize));
            assert(self.spec_index(rank_coords(dim, 7, 7, 7)) == Some(sq(*self, rank_coords(dim, 7, 7, 7)) as usize));
            lemma_clear_keeps_small(r, !2u8);
            lemma_clear_keeps_small(r, !1u8);
            lemma_clear_keeps_small(r, !8u8);
            lemma_clear_keeps_small(r, !4u8);
        }
        if is_cell(wqs, idx) {
            r & !2u8
        } else if is_cell(wks, idx) {
            r & !1u8
        } else if is_cell(bqs, idx) {
            r & !8u8
        } else if is_cell(bks, idx) {
            r & !4u8
        } else {
            r
        }
    }

    /// The castling rights after the move (see `rights_after`).
    fn next_rights(&self, mv: &Move, mover: Piece, from_idx: usize, to_idx: usize) -> (r: u8)
        requires
            self.wf(),
            move_ok(*self, *mv),
            mover == moving(*self, *mv),
            from_idx == sq(*self, mv.from@),
            to_idx == sq(*self, mv.to@),
            from_idx < self.total(),
            to_idx < self.total(),
        ensures
            r == rights_after(*self, *mv),
            r < 16,
    {
        let mut rights = self.state.castling_rights;
        proof {
            lemma_clear_keeps_small(rights, !3u8);
            lemma_clear_keeps_small(rights, !12u8);
        }
        if mover.piece_type == PieceType::King {
            match mover.owner {
                Player::White => rights = rights & !3u8,
                Player::Black => rights = rights & !12u8,
            }
        }
        if self.geo.side == 8 {
            let wqs = self.corner_index(0, 0, 0);
            let wks = self.corner_index(0, 7, 0);
            let bqs = self.corner_index(7, 0, 7);
            let bks = self.corner_index(7, 7, 7);
            rights = self.clear_corner_right(rights, from_idx, wqs, wks, bqs, bks);
            rights = self.clear_corner_right(rights, to_idx, wqs, wks, bqs, bks);
        }
        rights
    }

    /// Records the hash and starts the incremental update: side to move, old castling and
    /// en-passant keys, the mover leaving and the piece on the target.
    fn start_move_hash(&mut self, Ghost(b0): Ghost<Board>, mv: &Move, from_idx: usize, to_idx: usize, mover: Piece) -> (c: Option<(usize, Piece)>)
        requires
            *old(self) == b0,
            b0.wf(),
            move_ok(b0, *mv),
            mover == moving(b0, *mv),
            from_idx == sq(b0, mv.from@),
            to_idx == sq(b0, mv.to@),
            from_idx < b0.total(),
            to_idx < b0.total(),
        ensures
            final(self).wf(),
            c == target_capture(b0, *mv),
            final(self).pieces == b0.pieces,
            final(self).state.hash == hash_start(b0, *mv),
            final(self).state.history@ == b0.state.history@.push(b0.state.hash),
            final(self).state.en_passant_target == b0.state.en_passant_target,
            final(self).state.castling_rights == b0.state.castling_rights,
            keeps_rest(*final(self), b0),
    {
        let h0 = self.state.hash;
        self.state.history.push(h0);
        self.state.hash = self.state.hash ^ self.zobrist.black_to_move;
        if self.state.castling_rights > 0 {
            self.state.hash = self.state.hash ^ self.zobrist.castling_keys[self.state.castling_rights as usize];
        }
        match self.state.en_passant_target {
            Some((ep, _)) => {
                if ep < self.zobrist.en_passant_keys.len() {
                    self.state.hash = self.state.hash ^ self.zobrist.en_passant_keys[ep];
                }
            },
            None => {},
        }
        self.hash_xor_piece(from_idx, mover);
        match self.get_piece_at_index(to_idx) {
            Some(target_p) => {
                self.hash_xor_piece(to_idx, target_p);
                Some((to_idx, target_p))
            },
            None => None,
        }
    }

    /// Takes a pawn en passant when the move does so.
    fn take_en_passant(&mut self, Ghost(b0): Ghost<Board>, mv: &Move, to_idx: usize, mover: Piece, captured: Option<(usize, Piece)>) -> (c: Option<(usize, Piece)>)
        requires
            old(self).wf(),
            b0.wf(),
            old(self).pieces == b0.pieces,
            old(self).state.en_passant_target == b0.state.en_passant_target,
            old(self).geo == b0.geo,
            old(self).zobrist == b0.zobrist,
            move_ok(b0, *mv),
            mover == moving(b0, *mv),
            to_idx == sq(b0, mv.to@),
            captured == target_capture(b0, *mv),
        ensures
            final(self).wf(),
            c == applied_info(b0, *mv).captured,
            forall|j: int| #[trigger] final(self).pieces.bits(j) == bits_ep_taken(b0, *mv, j),
            final(self).state.hash == hash_ep_taken(b0, *mv, old(self).state.hash),
            final(self).state.history == old(self).state.history,
            final(self).state.en_passant_target == old(self).state.en_passant_target,
            final(self).state.castling_rights == old(self).state.castling_rights,
            cache_of(*final(self)) == match ep_capture(b0, *mv) {
                Some(v) => cache_removed(cache_of(*old(self)), v as usize),
                None => cache_of(*old(self)),
            },
            keeps_rest(*final(self), *old(self)),
    {
        let mut captured = captured;
        if mover.piece_type == PieceType::Pawn {
            match self.state.en_passant_target {
                Some((target, victim)) => {
                    if to_idx == target {
                        match self.get_piece_at_index(victim) {
                            Some(victim_p) => {
                                captured = Some((victim, victim_p));
                                self.hash_xor_piece(victim, victim_p);
                            },
                            None => {},
                        }
                        self.pieces.remove_piece_at_index(victim);
                    }
                },
                None => {},
            }
        }
        captured
    }

    /// Sets the en-passant target after a pawn's double step (and clears it otherwise).
    fn set_en_passant(&mut self, Ghost(b0): Ghost<Board>, mv: &Move, to_idx: usize, mover: Piece)
        requires
            old(self).wf(),
            b0.wf(),
            old(self).geo == b0.geo,
            old(self).zobrist == b0.zobrist,
            move_ok(b0, *mv),
            mv.from@.len() == b0.geo.dimension,
            mv.to@.len() == b0.geo.dimension,
            mover == moving(b0, *mv),
            to_idx == sq(b0, mv.to@),
            to_idx < b0.total(),
        ensures
            final(self).wf(),
            final(self).pieces == old(self).pieces,
            final(self).state.en_passant_target == new_ep(b0, *mv),
            final(self).state.hash == hash_new_ep(b0, *mv, old(self).state.hash),
            final(self).state.history == old(self).state.history,
            final(self).state.castling_rights == old(self).state.castling_rights,
            keeps_rest(*final(self), *old(self)),
    {
        let side = self.geo.side;
        self.state.en_passant_target = None;
        if mover.piece_type == PieceType::Pawn {
            match self.double_step_axis(&mv.from, &mv.to) {
                Some(axis) => {
                    let fa = mv.from.values.get(axis);
                    let ta = mv.to.values.get(axis);
                    let passed: u8 = if ta > fa {
                        fa + 1
                    } else {
                        fa - 1
                    };
                    let mut target_vals = mv.from.values.duplicate();
                    target_vals.set(axis, passed);
                    proof {
                        assert(target_vals@ =~= passed_coords(mv.from@, mv.to@, axis as int));
                        assert(in_bounds(target_vals@, side as nat)) by {
                            assert forall|d: int| 0 <= d < target_vals@.len() implies (
                            #[trigger] target_vals@[d] as nat) < side by {
                                if d != axis {
                                    assert(target_vals@[d] == mv.from@[d]);
                                } else {
                                    assert((mv.to@[d] as nat) < side);
                                    assert((mv.from@[d] as nat) < side);
                                }
                            }
                        }
                        lemma_cell_count_monotone(side as nat, target_vals@.len(), self.geo.dimension as nat);
                        lemma_index_of_bound(target_vals@, side as nat);
                        lemma_index_of_bound(mv.to@, side as nat);
                    }
                    match self.coords_to_index(target_vals.as_slice()) {
                        Some(target_idx) => {
                            self.state.en_passant_target = Some((target_idx, to_idx));
                            if target_idx < self.zobrist.en_passant_keys.len() {
                                self.state.hash = self.state.hash ^ self.zobrist.en_passant_keys[target_idx];
                            }
                        },
                        None => {},
                    }
                },
                None => {},
            }
        }
    }

    /// Moves the pieces: the source and target are emptied, the placed piece lands on the
    /// target, and a castling rook moves.
    fn move_pieces(&mut self, Ghost(b0): Ghost<Board>, mv: &Move, from_idx: usize, to_idx: usize, mover: Piece, castle: Option<(usize, usize)>)
        requires
            old(self).wf(),
            b0.wf(),
            old(self).geo == b0.geo,
            old(self).zobrist == b0.zobrist,
            move_ok(b0, *mv),
            mover == moving(b0, *mv),
            from_idx == sq(b0, mv.from@),
            to_idx == sq(b0, mv.to@),
            from_idx < b0.total(),
            to_idx < b0.total(),
            castle == match castle_rook(b0, *mv) {
                Some((rf, rt)) => Some((rf as usize, rt as usize)),
                None => None::<(usize, usize)>,
            },
            castle matches Some((rf, rt)) ==> rf < b0.total() && rt < b0.total(),
            castle_rook(b0, *mv) matches Some((rf, rt)) ==> 0 <= rf < b0.total() && 0 <= rt
                < b0.total(),
            forall|j: int| #[trigger] old(self).pieces.bits(j) == bits_ep_taken(b0, *mv, j),
        ensures
            final(self).wf(),
            forall|j: int| #[trigger] final(self).pieces.bits(j) == applied_bits(b0, *mv, j),
            final(self).state.hash == hash_placed(b0, *mv, old(self).state.hash),
            final(self).state.history == old(self).state.history,
            final(self).state.en_passant_target == old(self).state.en_passant_target,
            final(self).state.castling_rights == old(self).state.castling_rights,
            cache_of(*final(self)) == {
                let c3 = cache_placed(
                    cache_removed(cache_removed(cache_of(*old(self)), from_idx), to_idx),
                    to_idx,
                    placed_piece(b0, *mv),
                );
                match castle {
                    Some((rf, rt)) => cache_placed(cache_removed(c3, rf), rt, rook_of(mover.owner)),
                    None => c3,
                }
            },
            keeps_rest(*final(self), *old(self)),
    {
        let ghost p1 = self.pieces;
        self.pieces.remove_piece_at_index(from_idx);
        self.pieces.remove_piece_at_index(to_idx);
        let piece_to_place = match mv.promotion {
            Some(promo_type) => Piece { piece_type: promo_type, owner: mover.owner },
            None => mover,
        };
        self.pieces.place_piece_at_index(to_idx, piece_to_place);
        self.hash_xor_piece(to_idx, piece_to_place);
        let ghost p3 = self.pieces;
        assert forall|j: int| #[trigger] p3.bits(j) == {
            let b2 = if j == from_idx || j == to_idx {
                empty_bits()
            } else {
                bits_ep_taken(b0, *mv, j)
            };
            if j == to_idx {
                with_piece(b2, placed_piece(b0, *mv))
            } else {
                b2
            }
        } by {
            assert(p1.bits(j) == bits_ep_taken(b0, *mv, j));
        }
        match castle {
            Some((r_from, r_to)) => {
                let rook_piece = Piece { piece_type: PieceType::Rook, owner: mover.owner };
                self.hash_xor_piece(r_from, rook_piece);
                self.pieces.remove_piece_at_index(r_from);
                self.hash_xor_piece(r_to, rook_piece);
                self.pieces.place_piece_at_index(r_to, rook_piece);
            },
            None => {},
        }
        proof {
            match castle_rook(b0, *mv) {
                Some((rf, rt)) => {
                    assert(castle == Some((rf as usize, rt as usize)));
                },
                None => {},
            }
        }
        assert forall|j: int| #[trigger] self.pieces.bits(j) == applied_bits(b0, *mv, j) by {
            assert(p3.bits(j) == p3.bits(j));
        }
    }

    /// Moves a castling rook back to its corner when the move being taken back castled.
    fn undo_castle_rook(&mut self, Ghost(b0): Ghost<Board>, mv: &Move, moved_piece: Piece)
        requires
            old(self).wf(),
            b0.wf(),
            old(self).pieces == b0.pieces,
            old(self).geo == b0.geo,
            mv.from@.len() == b0.geo.dimension,
            mv.to@.len() == b0.geo.dimension,
            unmake_squares_ok(b0, *mv),
            Some(moved_piece) == b0.piece_at(sq(b0, mv.to@)),
        ensures
            final(self).wf(),
            forall|j: int| #[trigger] final(self).pieces.bits(j) == bits_rook_back(b0, *mv, j),
            cache_of(*final(self)) == if unmake_castles(b0, *mv) {
                cache_placed(
                    cache_removed(cache_of(b0), sq(b0, rook_to_coords(mv.from@, mv.to@)) as usize),
                    sq(b0, rook_from_coords(mv.from@, mv.to@)) as usize,
                    b0.piece_at(sq(b0, rook_to_coords(mv.from@, mv.to@)))->0,
                )
            } else {
                cache_of(b0)
            },
            final(self).state == old(self).state,
            final(self).geo == old(self).geo,
            final(self).zobrist == old(self).zobrist,
    {
        let side = self.geo.side;
        if moved_piece.piece_type == PieceType::King && self.is_castle_geometry(&mv.from, &mv.to) {
            let is_kingside = mv.to.values.get(1) > mv.from.values.get(1);
            let mut rook_from = mv.from.values.duplicate();
            rook_from.set(1, if is_kingside { 7 } else { 0 });
            let mut rook_to = mv.from.values.duplicate();
            rook_to.set(1, if is_kingside { 5 } else { 3 });
            proof {
                assert(rook_from@ =~= rook_from_coords(mv.from@, mv.to@));
                assert(rook_to@ =~= rook_to_coords(mv.from@, mv.to@));
                lemma_cell_count_monotone(side as nat, self.geo.dimension as nat, self.geo.dimension as nat);
                lemma_index_of_bound(rook_from@, side as nat);
                lemma_index_of_bound(rook_to@, side as nat);
            }
            let r_from = match self.coords_to_index(rook_from.as_slice()) {
                Some(i) => i,
                None => {
                    return;
                },
            };
            let r_to = match self.coords_to_index(rook_to.as_slice()) {
                Some(i) => i,
                None => {
                    return;
                },
            };
            let rook_piece = match self.get_piece_at_index(r_to) {
                Some(p) => p,
                None => {
                    return;
                },
            };
            self.pieces.remove_piece_at_index(r_to);
            self.pieces.place_piece_at_index(r_from, rook_piece);
        }
    }

    /// Takes a move back with what `apply_move` recorded: restores the previous hash, the
    /// en-passant target and castling rights, moves a castling rook back, and puts the
    /// moved piece (a pawn if it promoted) and the captured piece back.
    #[verifier::spinoff_prover]
    #[verifier::rlimit(40)]
    pub fn unmake_move(&mut self, mv: &Move, info: UnmakeInfo)
        requires
            old(self).wf(),
            mv.from@.len() == old(self).geo.dimension,
            mv.to@.len() == old(self).geo.dimension,
            unmake_ready(*old(self), *mv, info),
        ensures
            final(self).wf(),
            unmade(*old(self), *mv, info, *final(self)),
            cache_of(*final(self)) == unmade_cache(*old(self), *mv, info),
    {
        let ghost b0 = *self;
        let dim = self.geo.dimension;
        let side = self.geo.side;
        match self.state.history.pop() {
            Some(h) => {
                self.state.hash = h;
            },
            None => {},
        }
        self.state.en_passant_target = info.en_passant_target;
        self.state.castling_rights = info.castling_rights;
        proof {
            lemma_cell_count_monotone(side as nat, dim as nat, dim as nat);
            lemma_index_of_bound(mv.from@, side as nat);
            lemma_index_of_bound(mv.to@, side as nat);
        }
        let from_idx = match self.coords_to_index(mv.from.values.as_slice()) {
            Some(i) => i,
            None => {
                return;
            },
        };
        let to_idx = match self.coords_to_index(mv.to.values.as_slice()) {
            Some(i) => i,
            None => {
                return;
            },
        };
        let moved_piece = match self.get_piece_at_index(to_idx) {
            Some(p) => p,
            None => {
                return;
            },
        };
        self.undo_castle_rook(Ghost(b0), mv, moved_piece);
        let ghost p2 = self.pieces;
        self.pieces.remove_piece_at_index(to_idx);
        let original_piece = match mv.promotion {
            Some(_) => Piece { piece_type: PieceType::Pawn, owner: moved_piece.owner },
            None => moved_piece,
        };
        self.pieces.place_piece_at_index(from_idx, original_piece);
        match info.captured {
            Some((idx, piece)) => {
                self.pieces.place_piece_at_index(idx, piece);
            },
            None => {},
        }
        proof {
            assert forall|j: int| #[trigger] self.pieces.bits(j) == unmade_bits(b0, *mv, info, j) by {
                assert(p2.bits(j) == bits_rook_back(b0, *mv, j));
            }
        }
    }

    /// Makes a move: the en-passant victim is taken, the source and target are emptied,
    /// the placed piece (the promotion kind if any) lands on the target, a castling king's
    /// rook moves, the en-passant target and castling rights are updated, the hash is
    /// updated incrementally and the previous hash is recorded. Fails, changing nothing,
    /// when a square is off the board or the source is empty.
    pub fn apply_move(&mut self, mv: &Move) -> (r: Result<UnmakeInfo, String>)
        requires
            old(self).wf(),
            mv.from@.len() == old(self).geo.dimension,
            mv.to@.len() == old(self).geo.dimension,
        ensures
            final(self).wf(),
            r is Ok <==> move_ok(*old(self), *mv),
            r matches Ok(info) ==> info == applied_info(*old(self), *mv) && applied(
                *old(self),
                *mv,
                *final(self),
            ),
            r matches Ok(_) ==> cache_of(*final(self)) == applied_cache(*old(self), *mv),
            r matches Err(e) ==> e@ == move_error(*old(self), *mv) && *final(self) == *old(self),
    {
        let ghost b0 = *self;
        let dim = self.geo.dimension;
        let side = self.geo.side;
        proof {
            lemma_cell_count_monotone(side as nat, dim as nat, dim as nat);
        }
        let from_idx = match self.coords_to_index(mv.from.values.as_slice()) {
            Some(i) => i,
            None => {
                return Err("Invalid from".to_owned());
            },
        };
        let to_idx = match self.coords_to_index(mv.to.values.as_slice()) {
            Some(i) => i,
            None => {
                return Err("Invalid to".to_owned());
            },
        };
        let moving_piece = match self.get_piece_at_index(from_idx) {
            Some(p) => p,
            None => {
                return Err("No piece at from".to_owned());
            },
        };
        proof {
            lemma_index_of_bound(mv.from@, side as nat);
            lemma_index_of_bound(mv.to@, side as nat);
        }
        assert(move_ok(b0, *mv));
        let saved_ep = self.state.en_passant_target;
        let saved_castling = self.state.castling_rights;
        let new_rights = self.next_rights(mv, moving_piece, from_idx, to_idx);
        let castle = self.castle_squares(mv, moving_piece);
        let c1 = self.start_move_hash(Ghost(b0), mv, from_idx, to_idx, moving_piece);
        let captured = self.take_en_passant(Ghost(b0), mv, to_idx, moving_piece, c1);
        self.set_en_passant(Ghost(b0), mv, to_idx, moving_piece);
        self.move_pieces(Ghost(b0), mv, from_idx, to_idx, moving_piece, castle);
        self.state.castling_rights = new_rights;
        if self.state.castling_rights > 0 {
            self.state.hash = self.state.hash ^ self.zobrist.castling_keys[self.state.castling_rights as usize];
        }
        Ok(UnmakeInfo { captured, en_passant_target: saved_ep, castling_rights: saved_castling })
    }
}
impl Board {
    /// Whether all nine bits of cell `j` are clear.
    fn cell_bare(&self, j: usize) -> (r: bool)
        requires
            self.wf(),
        ensures
            r == (self.pieces.bits(j as int) == empty_bits()),
    {
        let p = &self.pieces;
        !p.white_occupancy.get_bit(j) && !p.black_occupancy.get_bit(j) && !p.all_occupancy.get_bit(j)
            && !p.pawns.get_bit(j) && !p.rooks.get_bit(j) && !p.knights.get_bit(j) && !p.bishops.get_bit(j)
            && !p.queens.get_bit(j) && !p.kings.get_bit(j)
    }

    /// Whether making `mv` here can be taken back to the same position: true only when the
    /// move cannot be made, or it is `undoable`. It answers false for a promotion to a king
    /// whatever its path, a stricter test than `undoable` needs.
    pub(crate) fn takeback_safe(&self, mv: &Move) -> (r: bool)
        requires
            self.wf(),
            mv.from@.len() == self.geo.dimension,
            mv.to@.len() == self.geo.dimension,
        ensures
            r ==> (move_ok(*self, *mv) ==> undoable(*self, *mv)),
            r ==> (move_ok(*self, *mv) ==> mv.promotion != Some(PieceType::King)),
            !r ==> !(move_ok(*self, *mv) && undoable(*self, *mv) && mv.promotion != Some(PieceType::King)),
    {
        let ghost b = *self;
        let dim = self.geo.dimension;
        let side = self.geo.side;
        proof {
            lemma_cell_count_monotone(side as nat, dim as nat, dim as nat);
        }
        let f = match self.coords_to_index(mv.from.values.as_slice()) {
            Some(i) => i,
            None => {
                return true;
            },
        };
        let t = match self.coords_to_index(mv.to.values.as_slice()) {
            Some(i) => i,
            None => {
                return true;
            },
        };
        let p = match self.get_piece_at_index(f) {
            Some(p) => p,
            None => {
                return true;
            },
        };
        proof {
            lemma_index_of_bound(mv.from@, side as nat);
            lemma_index_of_bound(mv.to@, side as nat);
        }
        assert(f == sq(b, mv.from@) && t == sq(b, mv.to@));
        assert(p == moving(b, *mv));
        match mv.promotion {
            Some(pt) => {
                if p.piece_type != PieceType::Pawn || pt == PieceType::King {
                    return false;
                }
            },
            None => {},
        }
        if p.piece_type == PieceType::King && self.is_castle_geometry(&mv.from, &mv.to) {
            match self.castle_squares(mv, p) {
                None => {
                    return false;
                },
                Some((rf, rt)) => {
                    if rf == t || rt == t {
                        return false;
                    }
                    let rook_ok = match self.get_piece_at_index(rf) {
                        Some(q) => q.piece_type == PieceType::Rook && q.owner == p.owner,
                        None => false,
                    };
                    if !rook_ok || !self.cell_bare(rt) {
                        return false;
                    }
                },
            }
        }
        match self.state.en_passant_target {
            Some((e, v)) => {
                if p.piece_type == PieceType::Pawn && t == e {
                    if v >= self.geo.total_cells {
                        return false;
                    }
                    if v != t && self.get_piece_at_index(v).is_some() && self.get_piece_at_index(t).is_some() {
                        return false;
                    }
                }
            },
            None => {},
        }
        true
    }
}

} // verus!
