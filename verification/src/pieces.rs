//! Piece placement: one bitboard per owner and per piece kind.
use vstd::prelude::*;
use crate::models::{Piece, PieceType, Player};
use crate::representation::{BoardRepresentation, cell_count};

verus! {

/// The bits that the nine bitboards of a piece map hold for one cell.
pub struct CellBits {
    pub white: bool,
    pub black: bool,
    pub all: bool,
    pub pawn: bool,
    pub rook: bool,
    pub knight: bool,
    pub bishop: bool,
    pub queen: bool,
    pub king: bool,
}

/// No bit set.
pub open spec fn empty_bits() -> CellBits {
    CellBits {
        white: false,
        black: false,
        all: false,
        pawn: false,
        rook: false,
        knight: false,
        bishop: false,
        queen: false,
        king: false,
    }
}

/// The bits of `b` with those of piece `p` added: its owner, the occupancy and its kind.
pub open spec fn with_piece(b: CellBits, p: Piece) -> CellBits {
    CellBits {
        white: b.white || p.owner == Player::White,
        black: b.black || p.owner == Player::Black,
        all: true,
        pawn: b.pawn || p.piece_type == PieceType::Pawn,
        rook: b.rook || p.piece_type == PieceType::Rook,
        knight: b.knight || p.piece_type == PieceType::Knight,
        bishop: b.bishop || p.piece_type == PieceType::Bishop,
        queen: b.queen || p.piece_type == PieceType::Queen,
        king: b.king || p.piece_type == PieceType::King,
    }
}

/// The bits of piece `p` alone.
pub open spec fn piece_bits(p: Piece) -> CellBits {
    with_piece(empty_bits(), p)
}

/// The piece a cell's bits are read as: owner first (white before black), then kind
/// (pawn, rook, knight, bishop, queen, king).
pub open spec fn decode(b: CellBits) -> Option<Piece> {
    let owner = if b.white {
        Some(Player::White)
    } else if b.black {
        Some(Player::Black)
    } else {
        None
    };
    match owner {
        None => None,
        Some(o) => if b.pawn {
            Some(Piece { piece_type: PieceType::Pawn, owner: o })
        } else if b.rook {
            Some(Piece { piece_type: PieceType::Rook, owner: o })
        } else if b.knight {
            Some(Piece { piece_type: PieceType::Knight, owner: o })
        } else if b.bishop {
            Some(Piece { piece_type: PieceType::Bishop, owner: o })
        } else if b.queen {
            Some(Piece { piece_type: PieceType::Queen, owner: o })
        } else if b.king {
            Some(Piece { piece_type: PieceType::King, owner: o })
        } else {
            None
        },
    }
}

/// The bits of a piece are read back as that piece, and adding them again changes nothing.
pub proof fn lemma_piece_bits(p: Piece)
    ensures
        decode(piece_bits(p)) == Some(p),
        with_piece(piece_bits(p), p) == piece_bits(p),
        decode(empty_bits()) == None::<Piece>,
{
}

/// The absent-king marker of the cached king cells.
pub const NO_KING: u16 = 0xFFFF;

/// Hot-path mutable piece placement data.
pub struct PieceMap<R: BoardRepresentation> {
    pub white_occupancy: R,
    pub black_occupancy: R,
    /// Combined `white_occupancy | black_occupancy`, maintained incrementally.
    pub all_occupancy: R,
    pub pawns: R,
    pub rooks: R,
    pub knights: R,
    pub bishops: R,
    pub queens: R,
    pub kings: R,
    /// Cached king cell indices (avoids bitboard scan). `NO_KING` = absent.
    pub white_king_idx: u16,
    pub black_king_idx: u16,
}

impl<R: BoardRepresentation> PieceMap<R> {
    /// Number of addressable cells.
    pub open spec fn cells(&self) -> nat {
        self.white_occupancy.cells()
    }

    /// All nine bitboards are well formed and of the same size.
    pub open spec fn wf(&self) -> bool {
        &&& self.white_occupancy.wf()
        &&& self.black_occupancy.wf()
        &&& self.all_occupancy.wf()
        &&& self.pawns.wf()
        &&& self.rooks.wf()
        &&& self.knights.wf()
        &&& self.bishops.wf()
        &&& self.queens.wf()
        &&& self.kings.wf()
        &&& self.black_occupancy.cells() == self.cells()
        &&& self.all_occupancy.cells() == self.cells()
        &&& self.pawns.cells() == self.cells()
        &&& self.rooks.cells() == self.cells()
        &&& self.knights.cells() == self.cells()
        &&& self.bishops.cells() == self.cells()
        &&& self.queens.cells() == self.cells()
        &&& self.kings.cells() == self.cells()
    }

    /// The nine bits of cell `i`.
    pub open spec fn bits(&self, i: int) -> CellBits {
        CellBits {
            white: self.white_occupancy.has(i),
            black: self.black_occupancy.has(i),
            all: self.all_occupancy.has(i),
            pawn: self.pawns.has(i),
            rook: self.rooks.has(i),
            knight: self.knights.has(i),
            bishop: self.bishops.has(i),
            queen: self.queens.has(i),
            king: self.kings.has(i),
        }
    }

    /// The piece read from cell `i`.
    pub open spec fn piece_at(&self, i: int) -> Option<Piece> {
        decode(self.bits(i))
    }

    /// The cached king cell of `player`, if any.
    pub open spec fn spec_king_index(&self, player: Player) -> Option<usize> {
        let idx = match player {
            Player::White => self.white_king_idx,
            Player::Black => self.black_king_idx,
        };
        if idx == NO_KING {
            None
        } else {
            Some(idx as usize)
        }
    }

    /// An empty placement sized for a board with `dimension` axes of `side` squares.
    pub fn new_empty(dimension: usize, side: usize) -> (r: Self)
        requires
            R::supports(dimension as nat, side as nat),
        ensures
            r.wf(),
            r.cells() >= cell_count(side as nat, dimension as nat),
            r.cells() < cell_count(side as nat, dimension as nat) + 64,
            forall|i: int| #[trigger] r.bits(i) == empty_bits(),
            forall|i: int| #[trigger] r.piece_at(i) == None::<Piece>,
            r.white_king_idx == NO_KING,
            r.black_king_idx == NO_KING,
    {
        let empty = R::new_empty(dimension, side);
        PieceMap {
            white_occupancy: empty.zero_like(),
            black_occupancy: empty.zero_like(),
            all_occupancy: empty.zero_like(),
            pawns: empty.zero_like(),
            rooks: empty.zero_like(),
            knights: empty.zero_like(),
            bishops: empty.zero_like(),
            queens: empty.zero_like(),
            kings: empty,
            white_king_idx: NO_KING,
            black_king_idx: NO_KING,
        }
    }

    /// The piece on cell `index`, if any.
    pub fn get_piece_at_index(&self, index: usize) -> (r: Option<Piece>)
        requires
            self.wf(),
            index < self.cells(),
        ensures
            r == self.piece_at(index as int),
    {
        let owner = if self.white_occupancy.get_bit(index) {
            Player::White
        } else if self.black_occupancy.get_bit(index) {
            Player::Black
        } else {
            return None;
        };
        let piece_type = if self.pawns.get_bit(index) {
            PieceType::Pawn
        } else if self.rooks.get_bit(index) {
            PieceType::Rook
        } else if self.knights.get_bit(index) {
            PieceType::Knight
        } else if self.bishops.get_bit(index) {
            PieceType::Bishop
        } else if self.queens.get_bit(index) {
            PieceType::Queen
        } else if self.kings.get_bit(index) {
            PieceType::King
        } else {
            return None;
        };
        Some(Piece { piece_type, owner })
    }

    /// Sets the owner, occupancy and kind bits of `piece` on cell `index` (and caches a
    /// king's cell); bits already there are kept.
    pub fn place_piece_at_index(&mut self, index: usize, piece: Piece)
        requires
            old(self).wf(),
            index < old(self).cells(),
        ensures
            final(self).wf(),
            final(self).cells() == old(self).cells(),
            forall|j: int| #[trigger] final(self).bits(j) == if j == index {
                with_piece(old(self).bits(j), piece)
            } else {
                old(self).bits(j)
            },
            final(self).white_king_idx == if piece.piece_type == PieceType::King && piece.owner
                == Player::White {
                index as u16
            } else {
                old(self).white_king_idx
            },
            final(self).black_king_idx == if piece.piece_type == PieceType::King && piece.owner
                == Player::Black {
                index as u16
            } else {
                old(self).black_king_idx
            },
    {
        match piece.owner {
            Player::White => self.white_occupancy.set_bit(index),
            Player::Black => self.black_occupancy.set_bit(index),
        }
        self.all_occupancy.set_bit(index);
        match piece.piece_type {
            PieceType::Pawn => self.pawns.set_bit(index),
            PieceType::Rook => self.rooks.set_bit(index),
            PieceType::Knight => self.knights.set_bit(index),
            PieceType::Bishop => self.bishops.set_bit(index),
            PieceType::Queen => self.queens.set_bit(index),
            PieceType::King => {
                self.kings.set_bit(index);
                match piece.owner {
                    Player::White => self.white_king_idx = index as u16,
                    Player::Black => self.black_king_idx = index as u16,
                }
            },
        }
    }

    /// Clears cell `index` on every bitboard, and forgets a king cached there.
    pub fn remove_piece_at_index(&mut self, index: usize)
        requires
            old(self).wf(),
            index < old(self).cells(),
        ensures
            final(self).wf(),
            final(self).cells() == old(self).cells(),
            forall|j: int| #[trigger] final(self).bits(j) == if j == index {
                empty_bits()
            } else {
                old(self).bits(j)
            },
            final(self).white_king_idx == if old(self).white_king_idx == index as u16 {
                NO_KING
            } else {
                old(self).white_king_idx
            },
            final(self).black_king_idx == if old(self).white_king_idx != index as u16
                && old(self).black_king_idx == index as u16 {
                NO_KING
            } else {
                old(self).black_king_idx
            },
    {
        if self.white_king_idx == index as u16 {
            self.white_king_idx = NO_KING;
        } else if self.black_king_idx == index as u16 {
            self.black_king_idx = NO_KING;
        }
        self.white_occupancy.clear_bit(index);
        self.black_occupancy.clear_bit(index);
        self.all_occupancy.clear_bit(index);
        self.pawns.clear_bit(index);
        self.rooks.clear_bit(index);
        self.knights.clear_bit(index);
        self.bishops.clear_bit(index);
        self.queens.clear_bit(index);
        self.kings.clear_bit(index);
    }

    /// The cached king cell of `player`, if any.
    pub fn king_index(&self, player: Player) -> (r: Option<usize>)
        ensures
            r == self.spec_king_index(player),
    {
        let idx = match player {
            Player::White => self.white_king_idx,
            Player::Black => self.black_king_idx,
        };
        if idx == NO_KING {
            None
        } else {
            Some(idx as usize)
        }
    }
}

/// Every cell holds exactly the bits of the piece read from it, or none: what an empty
/// placement keeps while pieces are put on empty cells and cells are cleared.
pub open spec fn map_clean<R: BoardRepresentation>(m: PieceMap<R>) -> bool {
    forall|j: int| #[trigger] m.bits(j) == match m.piece_at(j) {
        Some(p) => piece_bits(p),
        None => empty_bits(),
    }
}

/// An empty placement is clean.
pub proof fn lemma_empty_map_clean<R: BoardRepresentation>(m: PieceMap<R>)
    requires
        forall|i: int| #[trigger] m.bits(i) == empty_bits(),
    ensures
        map_clean(m),
{
    lemma_piece_bits(Piece { piece_type: PieceType::Pawn, owner: Player::White });
}

/// On a clean placement, reading a cell after a piece was put on it, when the cell read
/// as empty before, gives that piece, and the placement stays clean.
pub proof fn lemma_get_after_place<R: BoardRepresentation>(before: PieceMap<R>, after: PieceMap<R>, i: int, p: Piece)
    requires
        map_clean(before),
        before.piece_at(i) is None,
        forall|j: int| #[trigger] after.bits(j) == if j == i {
            with_piece(before.bits(j), p)
        } else {
            before.bits(j)
        },
    ensures
        after.piece_at(i) == Some(p),
        map_clean(after),
{
    lemma_piece_bits(p);
    assert(before.bits(i) == empty_bits());
    assert forall|j: int| #[trigger] after.bits(j) == match after.piece_at(j) {
        Some(q) => piece_bits(q),
        None => empty_bits(),
    } by {
        if j != i {
            assert(before.bits(j) == match before.piece_at(j) {
                Some(q) => piece_bits(q),
                None => empty_bits(),
            });
            match before.piece_at(j) {
                Some(q) => {
                    lemma_piece_bits(q);
                },
                None => {},
            }
        }
    }
}

/// Clearing a cell of a clean placement keeps it clean.
pub proof fn lemma_remove_keeps_clean<R: BoardRepresentation>(before: PieceMap<R>, after: PieceMap<R>, i: int)
    requires
        map_clean(before),
        forall|j: int| #[trigger] after.bits(j) == if j == i {
            empty_bits()
        } else {
            before.bits(j)
        },
    ensures
        map_clean(after),
        after.piece_at(i) == None::<Piece>,
{
    lemma_piece_bits(Piece { piece_type: PieceType::Pawn, owner: Player::White });
    assert forall|j: int| #[trigger] after.bits(j) == match after.piece_at(j) {
        Some(q) => piece_bits(q),
        None => empty_bits(),
    } by {
        if j != i {
            assert(before.bits(j) == match before.piece_at(j) {
                Some(q) => piece_bits(q),
                None => empty_bits(),
            });
        }
    }
}



/// A side's king.
pub open spec fn king_of(p: Player) -> Piece {
    Piece { piece_type: PieceType::King, owner: p }
}

/// The placement is consistent: every cell holds exactly the bits of its piece (so a cell
/// is occupied exactly when it holds a white or a black piece), a side has at most one
/// king, and the cached king cell of each side is where its king stands, none exactly
/// when it has no king.
pub open spec fn map_consistent<R: BoardRepresentation>(m: PieceMap<R>) -> bool {
    &&& map_clean(m)
    &&& forall|p: Player, j: int, k: int|
        #![trigger m.piece_at(j), m.piece_at(k), king_of(p)]
        m.piece_at(j) == Some(king_of(p)) && m.piece_at(k) == Some(king_of(p)) ==> j == k
    &&& forall|p: Player| #[trigger] m.spec_king_index(p) is Some ==> m.piece_at(m.spec_king_index(p)->0 as int) == Some(king_of(p))
    &&& forall|p: Player, j: int|
        #![trigger m.spec_king_index(p), m.piece_at(j)]
        m.spec_king_index(p) is None ==> m.piece_at(j) != Some(king_of(p))
}

/// On a consistent placement a cell is occupied exactly when it holds a white or a black
/// piece, and the cached king cell of a side is `Some(k)` exactly when `k` holds its king.
pub proof fn lemma_consistent_reads<R: BoardRepresentation>(m: PieceMap<R>, p: Player, j: int)
    requires
        map_consistent(m),
    ensures
        m.bits(j).all == (m.bits(j).white || m.bits(j).black),
        m.piece_at(j) == Some(king_of(p)) ==> m.spec_king_index(p) is Some && m.spec_king_index(p)->0 as int == j,
        m.spec_king_index(p) matches Some(k) ==> m.piece_at(k as int) == Some(king_of(p)),
{
    assert(m.bits(j) == match m.piece_at(j) {
        Some(q) => piece_bits(q),
        None => empty_bits(),
    });
    match m.piece_at(j) {
        Some(q) => {
            lemma_piece_bits(q);
        },
        None => {},
    }
    if m.piece_at(j) == Some(king_of(p)) {
        match m.spec_king_index(p) {
            Some(k) => {
                assert(m.piece_at(k as int) == Some(king_of(p)));
                assert(m.piece_at(j) == Some(king_of(p)) && m.piece_at(k as int) == Some(king_of(p)));
            },
            None => {
                assert(m.piece_at(j) != Some(king_of(p)));
            },
        }
    }
}

/// An empty placement with no cached king is consistent.
pub proof fn lemma_consistent_empty<R: BoardRepresentation>(m: PieceMap<R>)
    requires
        forall|i: int| #[trigger] m.bits(i) == empty_bits(),
        m.white_king_idx == NO_KING,
        m.black_king_idx == NO_KING,
    ensures
        map_consistent(m),
{
    lemma_empty_map_clean(m);
    assert forall|j: int| #[trigger] m.piece_at(j) == None::<Piece> by {
        assert(m.bits(j) == empty_bits());
    }
}

/// Putting a piece on an empty cell below 65535 of a consistent placement, a king only for
/// a side that has none, keeps it consistent; the cell then holds that piece.
pub proof fn lemma_consistent_place<R: BoardRepresentation>(before: PieceMap<R>, after: PieceMap<R>, i: int, p: Piece)
    requires
        map_consistent(before),
        0 <= i < 65535,
        before.piece_at(i) is None,
        p.piece_type == PieceType::King ==> before.spec_king_index(p.owner) is None,
        forall|j: int| #[trigger] after.bits(j) == if j == i {
            with_piece(before.bits(j), p)
        } else {
            before.bits(j)
        },
        after.white_king_idx == if p.piece_type == PieceType::King && p.owner == Player::White {
            i as u16
        } else {
            before.white_king_idx
        },
        after.black_king_idx == if p.piece_type == PieceType::King && p.owner == Player::Black {
            i as u16
        } else {
            before.black_king_idx
        },
    ensures
        map_consistent(after),
        after.piece_at(i) == Some(p),
{
    lemma_get_after_place(before, after, i, p);
    assert forall|j: int| j != i implies #[trigger] after.piece_at(j) == before.piece_at(j) by {
        assert(after.bits(j) == before.bits(j));
    }
    assert forall|q: Player| #[trigger] after.spec_king_index(q) is Some implies after.piece_at(after.spec_king_index(q)->0 as int) == Some(king_of(q)) by {
        if p.piece_type == PieceType::King && p.owner == q {
            assert(after.spec_king_index(q) == Some(i as usize));
        } else {
            assert(after.spec_king_index(q) == before.spec_king_index(q));
            let k = after.spec_king_index(q)->0;
            assert(before.piece_at(k as int) == Some(king_of(q)));
            assert(k as int != i);
        }
    }
    assert forall|q: Player, j: int|
        #![trigger after.spec_king_index(q), after.piece_at(j)]
        after.spec_king_index(q) is None implies after.piece_at(j) != Some(king_of(q)) by {
        if p.piece_type == PieceType::King && p.owner == q {
            assert(after.spec_king_index(q) == Some(i as usize));
        } else {
            assert(after.spec_king_index(q) == before.spec_king_index(q));
            if j != i {
                assert(before.piece_at(j) != Some(king_of(q)));
            }
        }
    }
    assert forall|q: Player, j: int, k: int|
        #![trigger after.piece_at(j), after.piece_at(k), king_of(q)]
        after.piece_at(j) == Some(king_of(q)) && after.piece_at(k) == Some(king_of(q)) implies j == k by {
        if j != i && k != i {
            assert(before.piece_at(j) == Some(king_of(q)) && before.piece_at(k) == Some(king_of(q)));
        } else if j == i && k != i {
            assert(before.piece_at(k) == Some(king_of(q)));
            assert(before.spec_king_index(q) is None);
        } else if k == i && j != i {
            assert(before.piece_at(j) == Some(king_of(q)));
            assert(before.spec_king_index(q) is None);
        }
    }
}

/// Clearing a cell of a consistent placement keeps it consistent.
pub proof fn lemma_consistent_remove<R: BoardRepresentation>(before: PieceMap<R>, after: PieceMap<R>, i: int)
    requires
        map_consistent(before),
        0 <= i < 65535,
        forall|j: int| #[trigger] after.bits(j) == if j == i {
            empty_bits()
        } else {
            before.bits(j)
        },
        after.white_king_idx == if before.white_king_idx == i as u16 {
            NO_KING
        } else {
            before.white_king_idx
        },
        after.black_king_idx == if before.white_king_idx != i as u16 && before.black_king_idx == i as u16 {
            NO_KING
        } else {
            before.black_king_idx
        },
    ensures
        map_consistent(after),
        after.piece_at(i) == None::<Piece>,
{
    lemma_remove_keeps_clean(before, after, i);
    assert forall|j: int| j != i implies #[trigger] after.piece_at(j) == before.piece_at(j) by {
        assert(after.bits(j) == before.bits(j));
    }
    assert forall|q: Player| #[trigger] after.spec_king_index(q) is Some implies after.piece_at(after.spec_king_index(q)->0 as int) == Some(king_of(q)) by {
        let k = after.spec_king_index(q)->0;
        assert(after.spec_king_index(q) == before.spec_king_index(q));
        assert(before.piece_at(k as int) == Some(king_of(q)));
        if k as int == i {
            assert(before.white_king_idx == i as u16);
            assert(before.spec_king_index(Player::White) is Some);
            assert(before.piece_at(i) == Some(king_of(Player::White)));
        }
    }
    assert forall|q: Player, j: int|
        #![trigger after.spec_king_index(q), after.piece_at(j)]
        after.spec_king_index(q) is None implies after.piece_at(j) != Some(king_of(q)) by {
        if j != i {
            if before.spec_king_index(q) is None {
                assert(before.piece_at(j) != Some(king_of(q)));
            } else {
                let k = before.spec_king_index(q)->0;
                assert(before.piece_at(k as int) == Some(king_of(q)));
                assert(k as int == i);
                if before.piece_at(j) == Some(king_of(q)) {
                    assert(before.piece_at(i) == Some(king_of(q)));
                }
            }
        }
    }
    assert forall|q: Player, j: int, k: int|
        #![trigger after.piece_at(j), after.piece_at(k), king_of(q)]
        after.piece_at(j) == Some(king_of(q)) && after.piece_at(k) == Some(king_of(q)) implies j == k by {
        if j != i && k != i {
            assert(before.piece_at(j) == Some(king_of(q)) && before.piece_at(k) == Some(king_of(q)));
        }
    }
}

} // verus!
