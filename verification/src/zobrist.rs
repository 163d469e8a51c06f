//! Zobrist hashing of positions.
use vstd::prelude::*;
use crate::models::{Piece, PieceType, Player};
use crate::pieces::PieceMap;
use crate::position::PositionState;
use crate::representation::BoardRepresentation;

verus! {

/// A random 64-bit key, from `rand::random`.
#[verifier::external_body]
fn random_key() -> u64 {
    rand::random::<u64>()
}

/// The key table slot of a piece kind: white pawn, knight, bishop, rook, queen, king are
/// 0 to 5 and black ones 6 to 11.
pub open spec fn piece_key_offset(p: Piece) -> int {
    let base = match p.piece_type {
        PieceType::Pawn => 0int,
        PieceType::Knight => 1int,
        PieceType::Bishop => 2int,
        PieceType::Rook => 3int,
        PieceType::Queen => 4int,
        PieceType::King => 5int,
    };
    match p.owner {
        Player::White => base,
        Player::Black => base + 6,
    }
}

/// The key slot used for cell `i` when hashing: the owner decides white or black keys, then
/// the first kind found in the order pawn, knight, bishop, rook, queen, king.
pub open spec fn cell_key_offset<R: BoardRepresentation>(pieces: PieceMap<R>, i: int) -> Option<int> {
    let base: int = if pieces.white_occupancy.has(i) {
        0
    } else if pieces.black_occupancy.has(i) {
        6
    } else {
        -1
    };
    if base < 0 {
        None
    } else if pieces.pawns.has(i) {
        Some(base)
    } else if pieces.knights.has(i) {
        Some(base + 1)
    } else if pieces.bishops.has(i) {
        Some(base + 2)
    } else if pieces.rooks.has(i) {
        Some(base + 3)
    } else if pieces.queens.has(i) {
        Some(base + 4)
    } else if pieces.kings.has(i) {
        Some(base + 5)
    } else {
        None
    }
}

/// `init` XOR the keys of the pieces on cells `0..n`.
pub open spec fn cells_hash<R: BoardRepresentation>(
    init: u64,
    keys: Seq<u64>,
    pieces: PieceMap<R>,
    total: int,
    n: nat,
) -> u64
    decreases n,
{
    if n == 0 {
        init
    } else {
        let h = cells_hash(init, keys, pieces, total, (n - 1) as nat);
        match cell_key_offset(pieces, n - 1) {
            Some(o) => h ^ keys[o * total + (n - 1)],
            None => h,
        }
    }
}

/// Random keys for every (piece kind, cell), side to move, en-passant cell and castling
/// rights value.
pub struct ZobristKeys {
    pub piece_keys: Vec<u64>,
    pub black_to_move: u64,
    pub en_passant_keys: Vec<u64>,
    pub castling_keys: Vec<u64>,
}

impl ZobristKeys {
    /// The tables are sized for a board of `total` cells.
    pub open spec fn sized_for(&self, total: int) -> bool {
        &&& self.piece_keys.len() == 12 * total
        &&& self.en_passant_keys.len() == total
        &&& self.castling_keys.len() == 16
    }

    /// The hash of a position: the side-to-move key for black, the en-passant key of the
    /// target, the castling key of the rights, and the key of every piece.
    pub open spec fn spec_hash<R: BoardRepresentation>(
        &self,
        pieces: PieceMap<R>,
        state: PositionState,
        total: int,
        player: Player,
    ) -> u64 {
        let h0: u64 = if player == Player::Black {
            self.black_to_move
        } else {
            0
        };
        let h1: u64 = match state.en_passant_target {
            Some((t, _)) => if t < self.en_passant_keys.len() {
                h0 ^ self.en_passant_keys@[t as int]
            } else {
                h0
            },
            None => h0,
        };
        let h2: u64 = if (state.castling_rights as int) < self.castling_keys.len() {
            h1 ^ self.castling_keys@[state.castling_rights as int]
        } else {
            h1
        };
        cells_hash(h2, self.piece_keys@, pieces, total, total as nat)
    }

    /// Fresh random keys for a board of `total_cells` cells.
    pub fn new(total_cells: usize) -> (r: ZobristKeys)
        requires
            12 * total_cells <= usize::MAX,
        ensures
            r.sized_for(total_cells as int),
    {
        let size = 12 * total_cells;
        let mut piece_keys: Vec<u64> = Vec::new();
        let mut i: usize = 0;
        while i < size
            invariant
                i <= size,
                piece_keys.len() == i,
            decreases size - i,
        {
            piece_keys.push(random_key());
            i = i + 1;
        }
        let mut en_passant_keys: Vec<u64> = Vec::new();
        let mut j: usize = 0;
        while j < total_cells
            invariant
                j <= total_cells,
                en_passant_keys.len() == j,
            decreases total_cells - j,
        {
            en_passant_keys.push(random_key());
            j = j + 1;
        }
        let mut castling_keys: Vec<u64> = Vec::new();
        let mut k: usize = 0;
        while k < 16
            invariant
                k <= 16,
                castling_keys.len() == k,
            decreases 16 - k,
        {
            castling_keys.push(random_key());
            k = k + 1;
        }
        ZobristKeys { piece_keys, black_to_move: random_key(), en_passant_keys, castling_keys }
    }

    /// The hash of the position with White to move.
    pub fn get_hash<R: BoardRepresentation>(
        &self,
        pieces: &PieceMap<R>,
        state: &PositionState,
        total_cells: usize,
    ) -> (r: u64)
        requires
            pieces.wf(),
            total_cells <= pieces.cells(),
            self.piece_keys.len() >= 12 * total_cells,
        ensures
            r == self.spec_hash(*pieces, *state, total_cells as int, Player::White),
    {
        self.get_hash_with_player(pieces, state, total_cells, Player::White)
    }

    /// The hash of the position with `current_player` to move.
    pub fn get_hash_with_player<R: BoardRepresentation>(
        &self,
        pieces: &PieceMap<R>,
        state: &PositionState,
        total_cells: usize,
        current_player: Player,
    ) -> (r: u64)
        requires
            pieces.wf(),
            total_cells <= pieces.cells(),
            self.piece_keys.len() >= 12 * total_cells,
        ensures
            r == self.spec_hash(*pieces, *state, total_cells as int, current_player),
    {
        let mut hash: u64 = 0;
        if current_player == Player::Black {
            let k = self.black_to_move;
            assert(0u64 ^ k == k) by (bit_vector);
            hash = hash ^ k;
        }
        match state.en_passant_target {
            Some((ep_target, _)) => {
                if ep_target < self.en_passant_keys.len() {
                    hash = hash ^ self.en_passant_keys[ep_target];
                }
            },
            None => {},
        }
        let rights = state.castling_rights as usize;
        if rights < self.castling_keys.len() {
            hash = hash ^ self.castling_keys[rights];
        }
        let ghost h2 = hash;
        let mut i: usize = 0;
        while i < total_cells
            invariant
                i <= total_cells,
                pieces.wf(),
                total_cells <= pieces.cells(),
                self.piece_keys.len() >= 12 * total_cells,
                hash == cells_hash(h2, self.piece_keys@, *pieces, total_cells as int, i as nat),
            decreases total_cells - i,
        {
            let base: usize = if pieces.white_occupancy.get_bit(i) {
                0
            } else if pieces.black_occupancy.get_bit(i) {
                6
            } else {
                12
            };
            if base < 12 {
                let offset: usize = if pieces.pawns.get_bit(i) {
                    base
                } else if pieces.knights.get_bit(i) {
                    base + 1
                } else if pieces.bishops.get_bit(i) {
                    base + 2
                } else if pieces.rooks.get_bit(i) {
                    base + 3
                } else if pieces.queens.get_bit(i) {
                    base + 4
                } else if pieces.kings.get_bit(i) {
                    base + 5
                } else {
                    12
                };
                if offset < 12 {
                    proof {
                        assert(offset * total_cells + i < 12 * total_cells) by (nonlinear_arith)
                            requires
                                offset < 12,
                                i < total_cells,
                        ;
                    }
                    hash = hash ^ self.piece_keys[offset * total_cells + i];
                }
            }
            i = i + 1;
        }
        hash
    }
}

/// XOR-ing a key into the starting value of the cell hash XORs it into the result.
proof fn lemma_cells_hash_xor<R: BoardRepresentation>(
    init: u64,
    k: u64,
    keys: Seq<u64>,
    pieces: PieceMap<R>,
    total: int,
    n: nat,
)
    ensures
        cells_hash(init ^ k, keys, pieces, total, n) == cells_hash(init, keys, pieces, total, n) ^ k,
    decreases n,
{
    if n > 0 {
        lemma_cells_hash_xor(init, k, keys, pieces, total, (n - 1) as nat);
        let h = cells_hash(init, keys, pieces, total, (n - 1) as nat);
        match cell_key_offset(pieces, n - 1) {
            Some(o) => {
                let key = keys[o * total + (n - 1)];
                assert((h ^ k) ^ key == (h ^ key) ^ k) by (bit_vector);
            },
            None => {},
        }
    }
}

/// The hash with Black to move is the hash with White to move XOR the side-to-move key.
pub proof fn lemma_black_hash<R: BoardRepresentation>(
    keys: ZobristKeys,
    pieces: PieceMap<R>,
    state: PositionState,
    total: int,
)
    ensures
        keys.spec_hash(pieces, state, total, Player::Black) == keys.spec_hash(
            pieces,
            state,
            total,
            Player::White,
        ) ^ keys.black_to_move,
{
    let k = keys.black_to_move;
    let e: u64 = match state.en_passant_target {
        Some((t, _)) => if t < keys.en_passant_keys.len() {
            keys.en_passant_keys@[t as int]
        } else {
            0
        },
        None => 0,
    };
    let c: u64 = if (state.castling_rights as int) < keys.castling_keys.len() {
        keys.castling_keys@[state.castling_rights as int]
    } else {
        0
    };
    assert(0u64 ^ e == e && e ^ 0u64 == e && k ^ 0u64 == k) by (bit_vector);
    assert(0u64 ^ c == c) by (bit_vector);
    assert(((k ^ e) ^ c) == ((e ^ c) ^ k)) by (bit_vector);
    assert(((0u64 ^ e) ^ c) == (e ^ c)) by (bit_vector);
    assert((k ^ e) == (k ^ e) ^ 0u64) by (bit_vector);
    let hw = (0u64 ^ e) ^ c;
    lemma_cells_hash_xor(hw, k, keys.piece_keys@, pieces, total, total as nat);
    assert(hw ^ k == (k ^ e) ^ c) by (bit_vector)
        requires
            hw == (0u64 ^ e) ^ c,
    ;
}

} // verus!
