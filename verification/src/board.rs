//! The board: shared geometry and keys, piece placement and position state, with the
//! operations that read and change a position.
use vstd::prelude::*;
use std::sync::Arc;
use crate::bitboard_large::BitBoardLarge;
use crate::geometry::{
    BoardGeometry, coords_of, index_of, in_bounds, shape_ok, lemma_cell_count_pos,
    lemma_index_of_coords, lemma_coords_of_index, lemma_index_of_bound,
};
use crate::inline::CoordVals;
use crate::models::{Coordinate, GameResult, Piece, PieceType, Player};
use crate::pieces::{CellBits, PieceMap, empty_bits, piece_bits, with_piece, decode, lemma_piece_bits};
use crate::position::PositionState;
use crate::representation::{BoardRepresentation, cell_count, lemma_cell_count_monotone};
use crate::zobrist::{ZobristKeys, piece_key_offset};

verus! {

/// The cell of a coordinate on a board with `side` squares per axis, when every value is
/// on the board.
pub open spec fn spec_coords_index(vals: Seq<u8>, side: nat) -> Option<usize> {
    if in_bounds(vals, side) {
        Some(index_of(vals, side) as usize)
    } else {
        None
    }
}

/// Reading the cell of a coordinate and the coordinates of a cell are inverse: the
/// coordinates of every cell are on the board and lead back to that cell, and the
/// coordinates of the cell of an on-board coordinate with one value per axis are that
/// coordinate.
pub proof fn lemma_coords_index_inverse(dim: nat, side: nat, i: nat, v: Seq<u8>)
    requires
        1 <= side <= 256,
        i < cell_count(side, dim),
        v.len() == dim,
        in_bounds(v, side),
    ensures
        in_bounds(coords_of(i, dim, side), side),
        index_of(coords_of(i, dim, side), side) == i,
        coords_of(index_of(v, side), dim, side) == v,
{
    let c = coords_of(i, dim, side);
    assert forall|d: int| 0 <= d < c.len() implies (#[trigger] c[d] as nat) < side by {
        lemma_cell_count_pos(side, d as nat);
        assert((i / cell_count(side, d as nat)) % side < side);
    }
    lemma_index_of_coords(i, dim, side);
    vstd::arithmetic::div_mod::lemma_small_mod(i, cell_count(side, dim));
    lemma_coords_of_index(v, side);
}

/// The piece on file `f` of the back rank.
pub open spec fn backrank_piece(dim: nat, side: nat, f: nat) -> PieceType {
    if dim == 2 && side == 8 {
        if f == 0 || f == 7 {
            PieceType::Rook
        } else if f == 1 || f == 6 {
            PieceType::Knight
        } else if f == 2 || f == 5 {
            PieceType::Bishop
        } else if f == 3 {
            PieceType::Queen
        } else if f == 4 {
            PieceType::King
        } else {
            PieceType::Pawn
        }
    } else {
        let k = side / 2;
        if f == k {
            PieceType::King
        } else if f + 1 == k {
            PieceType::Queen
        } else if f == 0 || f == side - 1 {
            PieceType::Rook
        } else if f == 1 || f == side - 2 {
            PieceType::Knight
        } else {
            PieceType::Bishop
        }
    }
}

/// The coordinates with `first` on axis 0, `file` on axis 1 and `rest` on every other axis.
pub open spec fn rank_coords(dim: nat, first: int, file: int, rest: int) -> Seq<u8> {
    Seq::new(
        dim,
        |d: int|
            if d == 1 {
                file as u8
            } else if d == 0 {
                first as u8
            } else {
                rest as u8
            },
    )
}

/// The bits `b` of the cell with coordinates `c` after the standard setup: a white pawn on
/// `(1, f, 1, ..)`, the white back-rank piece on `(0, f, 0, ..)`, a black pawn on
/// `(side - 2, f, side - 2, ..)` when `side > 3` and the black back-rank piece on
/// `(side - 1, f, side - 1, ..)`.
pub open spec fn setup_cell(b: CellBits, dim: nat, side: nat, c: Seq<u8>) -> CellBits {
    let f = c[1] as int;
    let b1 = if c == rank_coords(dim, 1, f, 1) {
        with_piece(b, Piece { piece_type: PieceType::Pawn, owner: Player::White })
    } else {
        b
    };
    let b2 = if c == rank_coords(dim, 0, f, 0) {
        with_piece(b1, Piece { piece_type: backrank_piece(dim, side, f as nat), owner: Player::White })
    } else {
        b1
    };
    let b3 = if side > 3 && c == rank_coords(dim, side - 2, f, side - 2) {
        with_piece(b2, Piece { piece_type: PieceType::Pawn, owner: Player::Black })
    } else {
        b2
    };
    if c == rank_coords(dim, side - 1, f, side - 1) {
        with_piece(b3, Piece { piece_type: backrank_piece(dim, side, f as nat), owner: Player::Black })
    } else {
        b3
    }
}

/// `n` is `b` after passing the turn, and `r` is what was recorded: the hash is recorded,
/// the en-passant target cleared, and the side-to-move key and the key of the cleared target
/// toggled.
pub open spec fn null_made(b: Board, n: Board, r: UnmakeInfo) -> bool {
    &&& r.captured is None
    &&& r.en_passant_target == b.state.en_passant_target
    &&& r.castling_rights == b.state.castling_rights
    &&& n.state.history@ == b.state.history@.push(b.state.hash)
    &&& n.state.en_passant_target is None
    &&& n.state.hash == match b.state.en_passant_target {
        Some((ep, _)) => b.state.hash ^ b.zobrist.black_to_move ^ b.zobrist.en_passant_keys@[ep as int],
        None => b.state.hash ^ b.zobrist.black_to_move,
    }
    &&& n.geo == b.geo
    &&& n.zobrist == b.zobrist
    &&& n.pieces == b.pieces
    &&& n.state.castling_rights == b.state.castling_rights
    &&& n.state.halfmove_clock == b.state.halfmove_clock
    &&& n.state.fullmove_number == b.state.fullmove_number
    &&& n.state.start_phase == b.state.start_phase
}

/// `n` is `b` after taking a null move back with `info`: the last recorded hash is
/// restored and the en-passant target and castling rights come from `info`.
pub open spec fn null_unmade(b: Board, info: UnmakeInfo, n: Board) -> bool {
    &&& b.state.history@.len() > 0 ==> n.state.hash == b.state.history@.last()
        && n.state.history@ == b.state.history@.drop_last()
    &&& b.state.history@.len() == 0 ==> n.state.hash == b.state.hash && n.state.history@
        == b.state.history@
    &&& n.state.en_passant_target == info.en_passant_target
    &&& n.state.castling_rights == info.castling_rights
    &&& n.geo == b.geo
    &&& n.zobrist == b.zobrist
    &&& n.pieces == b.pieces
    &&& n.state.halfmove_clock == b.state.halfmove_clock
    &&& n.state.fullmove_number == b.state.fullmove_number
    &&& n.state.start_phase == b.state.start_phase
}

/// Taking back a null move with what it recorded gives back the position exactly.
pub proof fn lemma_null_move_undone(b: Board, mid: Board, info: UnmakeInfo, after: Board)
    requires
        b.wf(),
        null_made(b, mid, info),
        null_unmade(mid, info, after),
    ensures
        after.pieces == b.pieces,
        after.state.hash == b.state.hash,
        after.state.history@ == b.state.history@,
        after.state.en_passant_target == b.state.en_passant_target,
        after.state.castling_rights == b.state.castling_rights,
        info.castling_rights < 16,
{
}

/// The weight of a cell in the game phase: knight or bishop 1, rook 2, queen 4.
pub open spec fn cell_phase(b: CellBits) -> int {
    if !(b.white || b.black) {
        0
    } else if b.knight {
        1
    } else if b.bishop {
        1
    } else if b.rook {
        2
    } else if b.queen {
        4
    } else {
        0
    }
}

/// Phase weight summed over cells `0..n`.
pub open spec fn phase_sum<R: BoardRepresentation>(pieces: PieceMap<R>, n: nat) -> int
    decreases n,
{
    if n == 0 {
        0
    } else {
        phase_sum(pieces, (n - 1) as nat) + cell_phase(pieces.bits(n - 1))
    }
}

/// What a move changes and must be given back to undo it.
pub struct UnmakeInfo {
    /// The captured piece and the cell it stood on.
    pub captured: Option<(usize, Piece)>,
    /// The en-passant target before the move.
    pub en_passant_target: Option<(usize, usize)>,
    /// The castling rights before the move.
    pub castling_rights: u8,
}

/// A position on an N-dimensional board.
pub struct Board {
    pub geo: Arc<BoardGeometry>,
    pub zobrist: Arc<ZobristKeys>,
    pub pieces: PieceMap<BitBoardLarge>,
    pub state: PositionState,
}

impl Board {
    /// Number of cells of the board.
    pub open spec fn total(&self) -> nat {
        self.geo.total_cells as nat
    }

    /// No bitboard holds a cell past the board.
    pub open spec fn within(&self) -> bool {
        forall|i: int| !(0 <= i < self.total()) ==> #[trigger] self.pieces.bits(i) == empty_bits()
    }

    /// Geometry, keys and bitboards agree in size; the position state holds values that
    /// index the tables.
    pub open spec fn wf(&self) -> bool {
        &&& self.geo.wf()
        &&& self.zobrist.sized_for(self.geo.total_cells as int)
        &&& self.pieces.wf()
        &&& self.pieces.cells() >= self.total()
        &&& self.pieces.cells() < self.total() + 64
        &&& self.within()
        &&& self.state.castling_rights < 16
        &&& (self.state.en_passant_target matches Some((t, v)) ==> t < self.total() && v
            < self.total())
    }

    /// The piece on cell `i`.
    pub open spec fn piece_at(&self, i: int) -> Option<Piece> {
        self.pieces.piece_at(i)
    }

    /// The cell of a coordinate of this board, if it is on the board.
    pub open spec fn spec_index(&self, vals: Seq<u8>) -> Option<usize> {
        spec_coords_index(vals, self.geo.side as nat)
    }

    /// An empty board with `dimension` axes of `side` squares.
    pub fn new_empty(dimension: usize, side: usize) -> (r: Board)
        requires
            shape_ok(dimension as nat, side as nat),
        ensures
            r.wf(),
            r.geo.dimension == dimension,
            r.geo.side == side,
            forall|i: int| #[trigger] r.pieces.bits(i) == empty_bits(),
            r.state.hash == 0,
            r.state.history@ == Seq::<u64>::empty(),
            r.state.en_passant_target is None,
            r.state.castling_rights == 0,
            r.state.halfmove_clock == 0,
            r.state.fullmove_number == 0,
            r.state.start_phase == 0,
    {
        let geometry = BoardGeometry::new(dimension, side);
        let total_cells = geometry.total_cells;
        let geo = Arc::new(geometry);
        let zobrist = Arc::new(ZobristKeys::new(total_cells));
        let pieces = PieceMap::<BitBoardLarge>::new_empty(dimension, side);
        let state = PositionState::new();
        Board { geo, zobrist, pieces, state }
    }

    /// Number of axes.
    pub fn dimension(&self) -> (r: usize)
        ensures
            r == self.geo.dimension,
    {
        self.geo.dimension
    }

    /// Squares per axis.
    pub fn side(&self) -> (r: usize)
        ensures
            r == self.geo.side,
    {
        self.geo.side
    }

    /// Number of cells.
    pub fn total_cells(&self) -> (r: usize)
        ensures
            r == self.geo.total_cells,
    {
        self.geo.total_cells
    }

    /// Whether the current position occurred before.
    pub fn is_repetition(&self) -> (r: bool)
        ensures
            r == self.state.history@.contains(self.state.hash),
    {
        self.state.is_repetition()
    }

    /// The cell of a coordinate: `sum of coords[d] * side^d`, or `None` when a value is
    /// off the board.
    pub fn coords_to_index(&self, coords: &[u8]) -> (r: Option<usize>)
        requires
            self.geo.side >= 1,
            cell_count(self.geo.side as nat, coords@.len()) <= usize::MAX,
        ensures
            r == self.spec_index(coords@),
            r matches Some(i) ==> i < cell_count(self.geo.side as nat, coords@.len()),
    {
        let side = self.geo.side;
        let n = coords.len();
        let mut index: usize = 0;
        let mut multiplier: usize = 1;
        let mut i: usize = 0;
        while i < n
            invariant
                n == coords@.len(),
                side == self.geo.side,
                side >= 1,
                i <= n,
                cell_count(side as nat, n as nat) <= usize::MAX,
                multiplier == cell_count(side as nat, i as nat),
                in_bounds(coords@.take(i as int), side as nat),
                index == index_of(coords@.take(i as int), side as nat),
            decreases n - i,
        {
            let c = coords[i];
            if c as usize >= side {
                proof {
                    assert(coords@[i as int] as nat >= side);
                    assert(!in_bounds(coords@, side as nat));
                }
                return None;
            }
            proof {
                let t = coords@.take(i as int);
                let t1 = coords@.take(i + 1);
                assert(t1.drop_last() =~= t);
                assert(t1.last() == c);
                lemma_index_of_bound(t, side as nat);
                lemma_cell_count_monotone(side as nat, (i + 1) as nat, n as nat);
                assert(cell_count(side as nat, (i + 1) as nat) == side * multiplier);
                assert(index + c * multiplier < side * multiplier) by (nonlinear_arith)
                    requires
                        index < multiplier,
                        (c as nat) < side,
                ;
                assert(in_bounds(t1, side as nat)) by {
                    assert forall|d: int| 0 <= d < t1.len() implies (#[trigger] t1[d] as nat) < side by {
                        if d < i {
                            assert(t1[d] == t[d]);
                        }
                    }
                }
            }
            index = index + (c as usize) * multiplier;
            if i + 1 < n {
                proof {
                    lemma_cell_count_monotone(side as nat, (i + 2) as nat, n as nat);
                    assert(cell_count(side as nat, (i + 2) as nat) == side * cell_count(
                        side as nat,
                        (i + 1) as nat,
                    ));
                    assert(cell_count(side as nat, (i + 1) as nat) <= cell_count(side as nat, (i + 2) as nat)) by (nonlinear_arith)
                        requires
                            side >= 1,
                            cell_count(side as nat, (i + 2) as nat) == side * cell_count(side as nat, (i + 1) as nat),
                    ;
                }
            } else {
                proof {
                    lemma_cell_count_monotone(side as nat, (i + 1) as nat, n as nat);
                }
            }
            assert(multiplier * side == side * multiplier) by (nonlinear_arith);
            multiplier = multiplier * side;
            i = i + 1;
        }
        proof {
            assert(coords@.take(n as int) =~= coords@);
            lemma_index_of_bound(coords@, side as nat);
        }
        Some(index)
    }

    /// The coordinates of cell `index`.
    pub fn index_to_coords(&self, index: usize) -> (r: CoordVals)
        requires
            self.wf(),
            index < self.total(),
        ensures
            r@ == coords_of(index as nat, self.geo.dimension as nat, self.geo.side as nat),
    {
        self.geo.cache.index_to_coords[index].duplicate()
    }

    /// The piece on cell `index`, if any.
    pub fn get_piece_at_index(&self, index: usize) -> (r: Option<Piece>)
        requires
            self.wf(),
        ensures
            r == self.piece_at(index as int),
    {
        if index < self.pieces.white_occupancy.num_words() * 64 {
            self.pieces.get_piece_at_index(index)
        } else {
            None
        }
    }

    /// The piece on a square, if the square is on the board and occupied.
    pub fn get_piece(&self, coord: &Coordinate) -> (r: Option<Piece>)
        requires
            self.wf(),
            cell_count(self.geo.side as nat, coord@.len()) <= usize::MAX,
        ensures
            r == match self.spec_index(coord@) {
                Some(i) => self.piece_at(i as int),
                None => None,
            },
    {
        match self.coords_to_index(coord.values.as_slice()) {
            Some(index) => self.get_piece_at_index(index),
            None => None,
        }
    }

    /// Toggles the key of `piece` on cell `index` in the hash.
    pub(crate) fn hash_xor_piece(&mut self, index: usize, piece: Piece)
        requires
            old(self).wf(),
            index < old(self).total(),
        ensures
            final(self).state.hash == old(self).state.hash ^ old(self).zobrist.piece_keys@[
                piece_key_offset(piece) * old(self).total() + index],
            final(self).geo == old(self).geo,
            final(self).zobrist == old(self).zobrist,
            final(self).pieces == old(self).pieces,
            final(self).state.history == old(self).state.history,
            final(self).state.en_passant_target == old(self).state.en_passant_target,
            final(self).state.castling_rights == old(self).state.castling_rights,
            final(self).state.halfmove_clock == old(self).state.halfmove_clock,
            final(self).state.fullmove_number == old(self).state.fullmove_number,
            final(self).state.start_phase == old(self).state.start_phase,
    {
        let offset: usize = match (piece.owner, piece.piece_type) {
            (Player::White, PieceType::Pawn) => 0,
            (Player::White, PieceType::Knight) => 1,
            (Player::White, PieceType::Bishop) => 2,
            (Player::White, PieceType::Rook) => 3,
            (Player::White, PieceType::Queen) => 4,
            (Player::White, PieceType::King) => 5,
            (Player::Black, PieceType::Pawn) => 6,
            (Player::Black, PieceType::Knight) => 7,
            (Player::Black, PieceType::Bishop) => 8,
            (Player::Black, PieceType::Rook) => 9,
            (Player::Black, PieceType::Queen) => 10,
            (Player::Black, PieceType::King) => 11,
        };
        let total = self.geo.total_cells;
        proof {
            assert(offset * total + index < 12 * total) by (nonlinear_arith)
                requires
                    offset < 12,
                    index < total,
            ;
        }
        let key = self.zobrist.piece_keys[offset * total + index];
        self.state.hash = self.state.hash ^ key;
    }

    /// Sum of the phase weights of the pieces on the board.
    pub fn compute_phase(&self) -> (r: i32)
        requires
            self.wf(),
        ensures
            r == phase_sum(self.pieces, self.total()),
    {
        let mut phase: i32 = 0;
        let total = self.geo.total_cells;
        let mut idx: usize = 0;
        while idx < total
            invariant
                self.wf(),
                total == self.total(),
                idx <= total,
                phase == phase_sum(self.pieces, idx as nat),
                0 <= phase <= 4 * idx,
                total <= 64 * 65536,
            decreases total - idx,
        {
            let occupied = self.pieces.white_occupancy.get_bit(idx)
                || self.pieces.black_occupancy.get_bit(idx);
            if occupied {
                if self.pieces.knights.get_bit(idx) {
                    phase = phase + 1;
                } else if self.pieces.bishops.get_bit(idx) {
                    phase = phase + 1;
                } else if self.pieces.rooks.get_bit(idx) {
                    phase = phase + 2;
                } else if self.pieces.queens.get_bit(idx) {
                    phase = phase + 4;
                }
            }
            idx = idx + 1;
        }
        phase
    }

    /// Sets the hash to that of the position with `player_to_move` to move.
    pub fn update_hash(&mut self, player_to_move: Player)
        requires
            old(self).wf(),
        ensures
            final(self).wf(),
            final(self).state.hash == old(self).zobrist.spec_hash(
                old(self).pieces,
                old(self).state,
                old(self).total() as int,
                player_to_move,
            ),
            final(self).geo == old(self).geo,
            final(self).zobrist == old(self).zobrist,
            final(self).pieces == old(self).pieces,
            final(self).state.history == old(self).state.history,
            final(self).state.en_passant_target == old(self).state.en_passant_target,
            final(self).state.castling_rights == old(self).state.castling_rights,
            final(self).state.halfmove_clock == old(self).state.halfmove_clock,
            final(self).state.fullmove_number == old(self).state.fullmove_number,
            final(self).state.start_phase == old(self).state.start_phase,
    {
        let h = self.zobrist.get_hash_with_player(
            &self.pieces,
            &self.state,
            self.geo.total_cells,
            player_to_move,
        );
        self.state.hash = h;
    }

    /// Passes the turn: records the hash, clears the en-passant target and toggles the
    /// side-to-move key (and the key of the cleared target).
    pub fn make_null_move(&mut self) -> (r: UnmakeInfo)
        requires
            old(self).wf(),
        ensures
            final(self).wf(),
            null_made(*old(self), *final(self), r),
    {
        let saved_ep = self.state.en_passant_target;
        let saved_castling = self.state.castling_rights;
        let h = self.state.hash;
        self.state.history.push(h);
        self.state.en_passant_target = None;
        self.state.hash = self.state.hash ^ self.zobrist.black_to_move;
        match saved_ep {
            Some((ep, _)) => {
                if ep < self.zobrist.en_passant_keys.len() {
                    self.state.hash = self.state.hash ^ self.zobrist.en_passant_keys[ep];
                }
            },
            None => {},
        }
        UnmakeInfo { captured: None, en_passant_target: saved_ep, castling_rights: saved_castling }
    }

    /// Takes back a null move: restores the last recorded hash, the en-passant target and
    /// the castling rights.
    pub fn unmake_null_move(&mut self, info: UnmakeInfo)
        requires
            old(self).wf(),
            info.castling_rights < 16,
            info.en_passant_target matches Some((t, v)) ==> t < old(self).total() && v
                < old(self).total(),
        ensures
            final(self).wf(),
            null_unmade(*old(self), info, *final(self)),
    {
        match self.state.history.pop() {
            Some(h) => {
                self.state.hash = h;
            },
            None => {},
        }
        self.state.en_passant_target = info.en_passant_target;
        self.state.castling_rights = info.castling_rights;
    }

    /// The square of `player`'s king: the lowest cell holding a king of that owner.
    pub fn get_king_coordinate(&self, player: Player) -> (r: Option<Coordinate>)
        requires
            self.wf(),
        ensures
            r is None <==> forall|k: int|
                0 <= k < self.total() ==> !(#[trigger] self.pieces.kings.has(k) && self.owned_by(
                    k,
                    player,
                )),
            r matches Some(c) ==> exists|k: int|
                0 <= k < self.total() && #[trigger] self.pieces.kings.has(k) && self.owned_by(
                    k,
                    player,
                ) && c@ == coords_of(k as nat, self.geo.dimension as nat, self.geo.side as nat)
                    && forall|j: int|
                    0 <= j < k ==> !(#[trigger] self.pieces.kings.has(j) && self.owned_by(
                        j,
                        player,
                    )),
    {
        let kings = self.pieces.kings.iter_indices();
        let n = kings.len();
        let mut t: usize = 0;
        while t < n
            invariant
                self.wf(),
                n == kings.len(),
                t <= n,
                forall|j: int| 0 <= j < n ==> #[trigger] self.pieces.kings.spec_has(kings@[j] as int),
                forall|j: int, k: int| 0 <= j < k < n ==> kings@[j] < kings@[k],
                forall|i: int|
                    0 <= i < self.pieces.kings.words().len() * 64 && #[trigger] self.pieces.kings.spec_has(i)
                        ==> kings@.contains(i as usize),
                forall|j: int| 0 <= j < t ==> !self.owned_by(#[trigger] kings@[j] as int, player),
            decreases n - t,
        {
            let idx = kings[t];
            let owned = match player {
                Player::White => self.pieces.white_occupancy.get_bit(idx),
                Player::Black => self.pieces.black_occupancy.get_bit(idx),
            };
            if owned {
                proof {
                    assert(self.pieces.kings.has(idx as int));
                    assert(self.pieces.bits(idx as int) != empty_bits());
                    assert forall|j: int| 0 <= j < idx implies !(#[trigger] self.pieces.kings.has(j)
                        && self.owned_by(j, player)) by {
                        if self.pieces.kings.has(j) && self.owned_by(j, player) {
                            let p = choose|p: int| 0 <= p < n && kings@[p] == j as usize;
                            assert(kings@[p] < kings@[t as int]);
                        }
                    }
                }
                return Some(Coordinate::from_vals(self.index_to_coords(idx)));
            }
            t = t + 1;
        }
        proof {
            assert forall|k: int| 0 <= k < self.total() implies !(#[trigger] self.pieces.kings.has(k)
                && self.owned_by(k, player)) by {
                if self.pieces.kings.has(k) && self.owned_by(k, player) {
                    let p = choose|p: int| 0 <= p < n && kings@[p] == k as usize;
                }
            }
        }
        None
    }

    /// Places `piece` on the cell with coordinates `vals`, if it is on the board.
    fn place_at_coords(&mut self, vals: &CoordVals, piece: Piece)
        requires
            old(self).wf(),
            vals@.len() == old(self).geo.dimension,
        ensures
            final(self).wf(),
            forall|j: int| #[trigger] final(self).pieces.bits(j) == if 0 <= j < old(self).total()
                && coords_of(j as nat, old(self).geo.dimension as nat, old(self).geo.side as nat)
                == vals@ {
                with_piece(old(self).pieces.bits(j), piece)
            } else {
                old(self).pieces.bits(j)
            },
            final(self).geo == old(self).geo,
            final(self).zobrist == old(self).zobrist,
            final(self).state == old(self).state,
    {
        let dim = self.geo.dimension;
        let side = self.geo.side;
        proof {
            lemma_cell_count_monotone(side as nat, vals@.len(), dim as nat);
        }
        match self.coords_to_index(vals.as_slice()) {
            Some(idx) => {
                self.pieces.place_piece_at_index(idx, piece);
                proof {
                    assert forall|j: int| 0 <= j < self.total() implies (#[trigger] coords_of(
                        j as nat,
                        dim as nat,
                        side as nat,
                    ) == vals@) == (j == idx) by {
                        lemma_index_of_bound(vals@, side as nat);
                        assert(index_of(vals@, side as nat) == idx);
                        lemma_coords_index_inverse(dim as nat, side as nat, j as nat, vals@);
                    }
                }
            },
            None => {
                proof {
                    assert forall|j: int| 0 <= j < self.total() implies #[trigger] coords_of(
                        j as nat,
                        dim as nat,
                        side as nat,
                    ) != vals@ by {
                        lemma_coords_index_inverse(dim as nat, side as nat, j as nat, coords_of(j as nat, dim as nat, side as nat));
                    }
                }
            },
        }
    }

    /// The back-rank piece of file `file_idx` out of `total_files`: the classic order on
    /// the 8x8 board, otherwise the king in the middle, the queen to its left, rooks in the
    /// corners, knights beside them and bishops elsewhere.
    fn determine_backrank_piece(&self, file_idx: usize, total_files: usize) -> (r: PieceType)
        requires
            file_idx < total_files,
        ensures
            r == backrank_piece(self.geo.dimension as nat, total_files as nat, file_idx as nat),
    {
        if self.geo.dimension == 2 && total_files == 8 {
            return match file_idx {
                0 | 7 => PieceType::Rook,
                1 | 6 => PieceType::Knight,
                2 | 5 => PieceType::Bishop,
                3 => PieceType::Queen,
                4 => PieceType::King,
                _ => PieceType::Pawn,
            };
        }
        let king_pos = total_files / 2;
        if file_idx == king_pos {
            return PieceType::King;
        }
        if file_idx + 1 == king_pos {
            return PieceType::Queen;
        }
        if file_idx == 0 || file_idx == total_files - 1 {
            return PieceType::Rook;
        }
        if file_idx == 1 || file_idx == total_files - 2 {
            return PieceType::Knight;
        }
        PieceType::Bishop
    }

    /// Adds the standard pieces to every file (see `setup_cell`), then sets the hash (White
    /// to move) and the starting phase.
    pub fn setup_standard_chess(&mut self)
        requires
            old(self).wf(),
        ensures
            final(self).wf(),
            forall|j: int| #[trigger] final(self).pieces.bits(j) == if 0 <= j < old(self).total() {
                setup_cell(
                    old(self).pieces.bits(j),
                    old(self).geo.dimension as nat,
                    old(self).geo.side as nat,
                    coords_of(j as nat, old(self).geo.dimension as nat, old(self).geo.side as nat),
                )
            } else {
                old(self).pieces.bits(j)
            },
            final(self).state.hash == old(self).zobrist.spec_hash(
                final(self).pieces,
                old(self).state,
                old(self).total() as int,
                Player::White,
            ),
            final(self).state.start_phase == phase_sum(final(self).pieces, old(self).total()),
            final(self).geo == old(self).geo,
            final(self).zobrist == old(self).zobrist,
            final(self).state.history == old(self).state.history,
            final(self).state.en_passant_target == old(self).state.en_passant_target,
            final(self).state.castling_rights == old(self).state.castling_rights,
            final(self).state.halfmove_clock == old(self).state.halfmove_clock,
            final(self).state.fullmove_number == old(self).state.fullmove_number,
    {
        let dim = self.geo.dimension;
        let side = self.geo.side;
        let ghost old_bits = |j: int| old(self).pieces.bits(j);
        let ghost total = self.total();
        let mut file_y: usize = 0;
        while file_y < side
            invariant
                self.wf(),
                dim == self.geo.dimension,
                side == self.geo.side,
                total == self.total(),
                self.geo == old(self).geo,
                self.zobrist == old(self).zobrist,
                self.state == old(self).state,
                2 <= dim,
                1 <= side <= 256,
                file_y <= side,
                forall|j: int| #[trigger] self.pieces.bits(j) == if 0 <= j < total && coords_of(
                    j as nat,
                    dim as nat,
                    side as nat,
                )[1] < file_y {
                    setup_cell(
                        old_bits(j),
                        dim as nat,
                        side as nat,
                        coords_of(j as nat, dim as nat, side as nat),
                    )
                } else {
                    old_bits(j)
                },
            decreases side - file_y,
        {
            let ghost before = self.pieces;
            let mut white_coords = CoordVals::filled(1, dim);
            white_coords.set(1, file_y as u8);
            proof {
                assert(white_coords@ =~= rank_coords(dim as nat, 1, file_y as int, 1));
            }
            self.place_at_coords(
                &white_coords,
                Piece { piece_type: PieceType::Pawn, owner: Player::White },
            );
            let ghost after_wp = self.pieces;
            let mut white_back = CoordVals::filled(0, dim);
            white_back.set(1, file_y as u8);
            proof {
                assert(white_back@ =~= rank_coords(dim as nat, 0, file_y as int, 0));
            }
            let piece_type = self.determine_backrank_piece(file_y, side);
            self.place_at_coords(&white_back, Piece { piece_type, owner: Player::White });
            let ghost after_wb = self.pieces;
            let ghost bp_placed = side > 3;
            if side > 3 {
                let mut black_coords = CoordVals::filled((side - 2) as u8, dim);
                black_coords.set(1, file_y as u8);
                proof {
                    assert(black_coords@ =~= rank_coords(
                        dim as nat,
                        side - 2,
                        file_y as int,
                        side - 2,
                    ));
                }
                self.place_at_coords(
                    &black_coords,
                    Piece { piece_type: PieceType::Pawn, owner: Player::Black },
                );
            }
            let ghost after_bp = self.pieces;
            let mut black_back = CoordVals::filled((side - 1) as u8, dim);
            black_back.set(1, file_y as u8);
            proof {
                assert(black_back@ =~= rank_coords(dim as nat, side - 1, file_y as int, side - 1));
            }
            self.place_at_coords(&black_back, Piece { piece_type, owner: Player::Black });
            proof {
                assert forall|j: int| #[trigger] self.pieces.bits(j) == if 0 <= j < total
                    && coords_of(j as nat, dim as nat, side as nat)[1] < file_y + 1 {
                    setup_cell(
                        old_bits(j),
                        dim as nat,
                        side as nat,
                        coords_of(j as nat, dim as nat, side as nat),
                    )
                } else {
                    old_bits(j)
                } by {
                    if 0 <= j < total {
                        let c = coords_of(j as nat, dim as nat, side as nat);
                        let f = c[1] as int;
                        if f == file_y {
                            assert(before.bits(j) == old_bits(j));
                        } else {
                            assert(c != rank_coords(dim as nat, 1, file_y as int, 1));
                            assert(c != rank_coords(dim as nat, 0, file_y as int, 0));
                            assert(c != rank_coords(dim as nat, side - 2, file_y as int, side - 2));
                            assert(c != rank_coords(dim as nat, side - 1, file_y as int, side - 1));
                        }
                    }
                }
            }
            file_y = file_y + 1;
        }
        proof {
            assert forall|j: int| 0 <= j < total implies #[trigger] coords_of(j as nat, dim as nat, side as nat)[1]
                < side by {
                lemma_coords_index_inverse(dim as nat, side as nat, j as nat, coords_of(j as nat, dim as nat, side as nat));
            }
        }
        let h = self.zobrist.get_hash(&self.pieces, &self.state, self.geo.total_cells);
        self.state.hash = h;
        let phase = self.compute_phase();
        self.state.start_phase = phase;
    }

    /// The standard starting position on a board with `dimension` axes of `side` squares,
    /// with every castling right.
    pub fn new(dimension: usize, side: usize) -> (r: Board)
        requires
            shape_ok(dimension as nat, side as nat),
        ensures
            r.wf(),
            r.geo.dimension == dimension,
            r.geo.side == side,
            forall|j: int| #[trigger] r.pieces.bits(j) == if 0 <= j < r.total() {
                setup_cell(
                    empty_bits(),
                    dimension as nat,
                    side as nat,
                    coords_of(j as nat, dimension as nat, side as nat),
                )
            } else {
                empty_bits()
            },
            r.state.castling_rights == 0xF,
            r.state.en_passant_target is None,
            r.state.history@ == Seq::<u64>::empty(),
            r.state.hash == r.zobrist.spec_hash(r.pieces, r.state, r.total() as int, Player::White),
            r.state.start_phase == phase_sum(r.pieces, r.total()),
            r.state.halfmove_clock == 0,
            r.state.fullmove_number == 0,
    {
        let mut board = Board::new_empty(dimension, side);
        board.state.castling_rights = 0xF;
        board.setup_standard_chess();
        board
    }

    /// Cell `k` holds a piece of `player` by the owner bitboards.
    pub open spec fn owned_by(&self, k: int, player: Player) -> bool {
        match player {
            Player::White => self.pieces.white_occupancy.has(k),
            Player::Black => self.pieces.black_occupancy.has(k),
        }
    }

    /// Puts `piece` on a square (replacing what was there) and recomputes the hash with
    /// White to move; fails when the square is off the board.
    pub fn set_piece(&mut self, coord: &Coordinate, piece: Piece) -> (r: Result<(), String>)
        requires
            old(self).wf(),
            coord@.len() <= old(self).geo.dimension,
        ensures
            final(self).wf(),
            r is Ok <==> old(self).spec_index(coord@) is Some,
            r matches Err(e) ==> e@ == "Invalid coord"@ && *final(self) == *old(self),
            r is Ok ==> {
                let i = old(self).spec_index(coord@)->0 as int;
                &&& forall|j: int| #[trigger] final(self).pieces.bits(j) == if j == i {
                    piece_bits(piece)
                } else {
                    old(self).pieces.bits(j)
                }
                &&& final(self).state.hash == old(self).zobrist.spec_hash(
                    final(self).pieces,
                    old(self).state,
                    old(self).total() as int,
                    Player::White,
                )
                &&& final(self).geo == old(self).geo
                &&& final(self).zobrist == old(self).zobrist
                &&& final(self).state.history == old(self).state.history
                &&& final(self).state.en_passant_target == old(self).state.en_passant_target
                &&& final(self).state.castling_rights == old(self).state.castling_rights
            },
    {
        proof {
            lemma_cell_count_monotone(self.geo.side as nat, coord@.len(), self.geo.dimension as nat);
        }
        let index = match self.coords_to_index(coord.values.as_slice()) {
            Some(i) => i,
            None => {
                return Err("Invalid coord".to_owned());
            },
        };
        self.pieces.remove_piece_at_index(index);
        self.pieces.place_piece_at_index(index, piece);
        let h = self.zobrist.get_hash(&self.pieces, &self.state, self.geo.total_cells);
        self.state.hash = h;
        Ok(())
    }

    /// Empties a square; nothing happens for a square off the board.
    pub fn clear_cell(&mut self, coord: &Coordinate)
        requires
            old(self).wf(),
            coord@.len() <= old(self).geo.dimension,
        ensures
            final(self).wf(),
            forall|j: int| #[trigger] final(self).pieces.bits(j) == if old(self).spec_index(coord@)
                == Some(j as usize) {
                empty_bits()
            } else {
                old(self).pieces.bits(j)
            },
            final(self).geo == old(self).geo,
            final(self).zobrist == old(self).zobrist,
            final(self).state == old(self).state,
    {
        proof {
            lemma_cell_count_monotone(self.geo.side as nat, coord@.len(), self.geo.dimension as nat);
        }
        match self.coords_to_index(coord.values.as_slice()) {
            Some(index) => {
                self.pieces.remove_piece_at_index(index);
            },
            None => {},
        }
    }

    /// The result of the game as far as the board alone tells: always in progress.
    pub fn check_status(&self, player_to_move: Player) -> (r: GameResult)
        ensures
            r == GameResult::InProgress,
    {
        GameResult::InProgress
    }
}

} // verus!
