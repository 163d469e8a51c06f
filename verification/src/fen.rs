//! Reading a standard chess position from Forsyth–Edwards Notation.
use vstd::prelude::*;
use vstd::string::*;
use crate::board::Board;
use crate::decimal::{decimal_field, parse_decimal, is_digit};
use crate::models::{Piece, PieceType, Player};
use crate::pieces::{CellBits, PieceMap, empty_bits, piece_bits};
use crate::bitboard_large::BitBoardLarge;
use crate::make_move::clean;
use crate::representation::cell_count;

verus! {

/// Why a FEN string was refused.
#[derive(Debug)]
pub enum FenError {
    InvalidFieldCount,
    InvalidRankCount { expected: usize, got: usize },
    InvalidPiece(char),
    InvalidSideToMove(String),
    InvalidCastling(char),
    InvalidEnPassant(String),
    InvalidHalfmoveClock(String),
    InvalidFullmoveNumber(String),
    RankOverflow { rank: usize, file: usize },
}

/// A refusal of a FEN string, with the offending text as characters.
pub enum FenFault {
    InvalidFieldCount,
    InvalidRankCount { expected: usize, got: usize },
    InvalidPiece(char),
    InvalidSideToMove(Seq<char>),
    InvalidCastling(char),
    InvalidEnPassant(Seq<char>),
    InvalidHalfmoveClock(Seq<char>),
    InvalidFullmoveNumber(Seq<char>),
    RankOverflow { rank: usize, file: usize },
}

impl View for FenError {
    type V = FenFault;

    open spec fn view(&self) -> FenFault {
        match self {
            FenError::InvalidFieldCount => FenFault::InvalidFieldCount,
            FenError::InvalidRankCount { expected, got } => FenFault::InvalidRankCount {
                expected: *expected,
                got: *got,
            },
            FenError::InvalidPiece(c) => FenFault::InvalidPiece(*c),
            FenError::InvalidSideToMove(s) => FenFault::InvalidSideToMove(s@),
            FenError::InvalidCastling(c) => FenFault::InvalidCastling(*c),
            FenError::InvalidEnPassant(s) => FenFault::InvalidEnPassant(s@),
            FenError::InvalidHalfmoveClock(s) => FenFault::InvalidHalfmoveClock(s@),
            FenError::InvalidFullmoveNumber(s) => FenFault::InvalidFullmoveNumber(s@),
            FenError::RankOverflow { rank, file } => FenFault::RankOverflow {
                rank: *rank,
                file: *file,
            },
        }
    }
}

/// The piece a FEN letter stands for: upper case for White, lower case for Black.
pub open spec fn fen_piece(c: char) -> Option<Piece> {
    let w = Player::White;
    let b = Player::Black;
    if c == 'P' {
        Some(Piece { piece_type: PieceType::Pawn, owner: w })
    } else if c == 'N' {
        Some(Piece { piece_type: PieceType::Knight, owner: w })
    } else if c == 'B' {
        Some(Piece { piece_type: PieceType::Bishop, owner: w })
    } else if c == 'R' {
        Some(Piece { piece_type: PieceType::Rook, owner: w })
    } else if c == 'Q' {
        Some(Piece { piece_type: PieceType::Queen, owner: w })
    } else if c == 'K' {
        Some(Piece { piece_type: PieceType::King, owner: w })
    } else if c == 'p' {
        Some(Piece { piece_type: PieceType::Pawn, owner: b })
    } else if c == 'n' {
        Some(Piece { piece_type: PieceType::Knight, owner: b })
    } else if c == 'b' {
        Some(Piece { piece_type: PieceType::Bishop, owner: b })
    } else if c == 'r' {
        Some(Piece { piece_type: PieceType::Rook, owner: b })
    } else if c == 'q' {
        Some(Piece { piece_type: PieceType::Queen, owner: b })
    } else if c == 'k' {
        Some(Piece { piece_type: PieceType::King, owner: b })
    } else {
        None
    }
}

/// The piece of a FEN letter, or `InvalidPiece` for any other character.
pub fn char_to_piece(c: char) -> (r: Result<Piece, FenError>)
    ensures
        match fen_piece(c) {
            Some(p) => r == Ok::<Piece, FenError>(p),
            None => r is Err && r->Err_0@ == FenFault::InvalidPiece(c),
        },
{
    let owner = if 'A' <= c && c <= 'Z' {
        Player::White
    } else {
        Player::Black
    };
    let piece_type = if c == 'p' || c == 'P' {
        PieceType::Pawn
    } else if c == 'n' || c == 'N' {
        PieceType::Knight
    } else if c == 'b' || c == 'B' {
        PieceType::Bishop
    } else if c == 'r' || c == 'R' {
        PieceType::Rook
    } else if c == 'q' || c == 'Q' {
        PieceType::Queen
    } else if c == 'k' || c == 'K' {
        PieceType::King
    } else {
        return Err(FenError::InvalidPiece(c));
    };
    Ok(Piece { piece_type, owner })
}

/// The castling rights of the letters read so far (`K` 1, `Q` 2, `k` 4, `q` 8), or the
/// first other letter.
pub open spec fn castling_scan(s: Seq<char>) -> Result<u8, char>
    decreases s.len(),
{
    if s.len() == 0 {
        Ok(0u8)
    } else {
        match castling_scan(s.drop_last()) {
            Err(c) => Err(c),
            Ok(r) => {
                let c = s.last();
                if c == 'K' {
                    Ok(r | 1u8)
                } else if c == 'Q' {
                    Ok(r | 2u8)
                } else if c == 'k' {
                    Ok(r | 4u8)
                } else if c == 'q' {
                    Ok(r | 8u8)
                } else {
                    Err(c)
                }
            },
        }
    }
}

/// The castling field: `-` for none, else letters of `KQkq`.
pub open spec fn castling_field(s: Seq<char>) -> Result<u8, char> {
    if s == seq!['-'] {
        Ok(0u8)
    } else {
        castling_scan(s)
    }
}

/// Whether the string is exactly the one character `c`.
fn is_single(s: &str, c: char) -> (r: bool)
    ensures
        r == (s@ == seq![c]),
{
    let n = s.unicode_len();
    if n != 1 {
        return false;
    }
    let d = s.get_char(0);
    proof {
        if d == c {
            assert(s@ =~= seq![c]);
        }
    }
    d == c
}

/// The castling rights of a FEN castling field.
pub fn parse_castling(s: &str) -> (r: Result<u8, FenError>)
    ensures
        match castling_field(s@) {
            Ok(v) => r == Ok::<u8, FenError>(v),
            Err(c) => r is Err && r->Err_0@ == FenFault::InvalidCastling(c),
        },
{
    if is_single(s, '-') {
        return Ok(0);
    }
    let n = s.unicode_len();
    let mut rights: u8 = 0;
    let mut i: usize = 0;
    while i < n
        invariant
            i <= n,
            n == s@.len(),
            s@ != seq!['-'],
            castling_scan(s@.take(i as int)) == Ok::<u8, char>(rights),
        decreases n - i,
    {
        let c = s.get_char(i);
        proof {
            assert(s@.take(i + 1).drop_last() =~= s@.take(i as int));
            assert(s@.take(i + 1).last() == c);
        }
        if c == 'K' {
            rights = rights | 1;
        } else if c == 'Q' {
            rights = rights | 2;
        } else if c == 'k' {
            rights = rights | 4;
        } else if c == 'q' {
            rights = rights | 8;
        } else {
            proof {
                assert(castling_scan(s@.take(i + 1)) == Err::<u8, char>(c));
                lemma_castling_scan_err(s@, (i + 1) as nat);
            }
            return Err(FenError::InvalidCastling(c));
        }
        i += 1;
    }
    proof {
        assert(s@.take(n as int) =~= s@);
    }
    Ok(rights)
}

/// A refused letter stays refused as more letters follow.
proof fn lemma_castling_scan_err(s: Seq<char>, k: nat)
    requires
        k <= s.len(),
        castling_scan(s.take(k as int)) is Err,
    ensures
        castling_scan(s) == castling_scan(s.take(k as int)),
    decreases s.len() - k,
{
    if k < s.len() {
        assert(s.take(k as int + 1).drop_last() =~= s.take(k as int));
        lemma_castling_scan_err(s, k + 1);
    } else {
        assert(s.take(k as int) =~= s);
    }
}

/// The en-passant field: `-` for none, else a file letter `a`..`h` and the rank digit `3`
/// or `6`; the target is the passed square and the victim the pawn behind it, each as
/// `rank + file * 8`.
pub open spec fn en_passant_field(s: Seq<char>) -> Option<Option<(usize, usize)>> {
    if s == seq!['-'] {
        Some(None)
    } else if s.len() == 2 && 'a' <= s[0] <= 'h' && (s[1] == '3' || s[1] == '6') {
        let file = s[0] as int - 'a' as int;
        let rank = s[1] as int - '1' as int;
        let victim = if rank == 2 {
            3int
        } else {
            4int
        };
        Some(Some(((rank + file * 8) as usize, (victim + file * 8) as usize)))
    } else {
        None
    }
}

/// The en-passant target and victim cells of a FEN en-passant field.
pub fn parse_en_passant(s: &str) -> (r: Result<Option<(usize, usize)>, FenError>)
    ensures
        match en_passant_field(s@) {
            Some(v) => r == Ok::<Option<(usize, usize)>, FenError>(v),
            None => r is Err && r->Err_0@ == FenFault::InvalidEnPassant(s@),
        },
{
    if is_single(s, '-') {
        return Ok(None);
    }
    let n = s.unicode_len();
    if n != 2 {
        return Err(FenError::InvalidEnPassant(s.to_owned()));
    }
    let f = s.get_char(0);
    let k = s.get_char(1);
    if !('a' <= f && f <= 'h') {
        return Err(FenError::InvalidEnPassant(s.to_owned()));
    }
    let file: usize = (f as u32 - 'a' as u32) as usize;
    let (rank, victim): (usize, usize) = if k == '3' {
        (2, 3)
    } else if k == '6' {
        (5, 4)
    } else {
        return Err(FenError::InvalidEnPassant(s.to_owned()));
    };
    Ok(Some((rank + file * 8, victim + file * 8)))
}

/// A `u16` in decimal, with an optional leading `+`.
pub open spec fn u16_field(s: Seq<char>) -> Option<u16> {
    match decimal_field(s, 65535) {
        Some(v) => Some(v as u16),
        None => None,
    }
}

/// A `u16` read in decimal, as the standard library reads it.
pub fn parse_u16(s: &str) -> (r: Option<u16>)
    ensures
        r == u16_field(s@),
{
    let r = parse_decimal(s, 65535);
    proof {
        crate::decimal::lemma_decimal_field_bound(s@, 65535);
        if let Some(v) = decimal_field(s@, 65535) {
            assert((v as u64) as u16 == v as u16);
        }
    }
    match r {
        Some(v) => Some(v as u16),
        None => None,
    }
}

/// A white-space character as `char::is_whitespace` documents it (Unicode `White_Space`).
pub open spec fn is_ws(c: char) -> bool {
    let u = c as u32;
    ||| 9 <= u <= 13
    ||| u == 32
    ||| u == 0x85
    ||| u == 0xA0
    ||| u == 0x1680
    ||| 0x2000 <= u <= 0x200A
    ||| u == 0x2028
    ||| u == 0x2029
    ||| u == 0x202F
    ||| u == 0x205F
    ||| u == 0x3000
}

pub(crate) fn is_whitespace_char(c: char) -> (r: bool)
    ensures
        r == is_ws(c),
{
    let u = c as u32;
    (9 <= u && u <= 13) || u == 32 || u == 0x85 || u == 0xA0 || u == 0x1680 || (0x2000 <= u
        && u <= 0x200A) || u == 0x2028 || u == 0x2029 || u == 0x202F || u == 0x205F || u
        == 0x3000
}

/// The words finished within the first `n` characters, and the word being read.
pub open spec fn ws_scan(s: Seq<char>, n: nat) -> (Seq<Seq<char>>, Seq<char>)
    decreases n,
{
    if n == 0 {
        (Seq::empty(), Seq::empty())
    } else {
        let (done, cur) = ws_scan(s, (n - 1) as nat);
        let c = s[n - 1];
        if is_ws(c) {
            if cur.len() > 0 {
                (done.push(cur), Seq::empty())
            } else {
                (done, Seq::empty())
            }
        } else {
            (done, cur.push(c))
        }
    }
}

/// The white-space separated words of `s`, as `str::split_whitespace` gives them.
pub open spec fn split_ws(s: Seq<char>) -> Seq<Seq<char>> {
    let (done, cur) = ws_scan(s, s.len());
    if cur.len() > 0 {
        done.push(cur)
    } else {
        done
    }
}

/// The parts of `s` between slashes, empty ones included, as `str::split('/')` gives them.
pub open spec fn slash_scan(s: Seq<char>, n: nat) -> (Seq<Seq<char>>, Seq<char>)
    decreases n,
{
    if n == 0 {
        (Seq::empty(), Seq::empty())
    } else {
        let (done, cur) = slash_scan(s, (n - 1) as nat);
        let c = s[n - 1];
        if c == '/' {
            (done.push(cur), Seq::empty())
        } else {
            (done, cur.push(c))
        }
    }
}

/// The parts of `s` separated by `/`.
pub open spec fn split_slash(s: Seq<char>) -> Seq<Seq<char>> {
    let (done, cur) = slash_scan(s, s.len());
    done.push(cur)
}

/// The characters of each string.
pub open spec fn str_views(v: Seq<&str>) -> Seq<Seq<char>> {
    v.map_values(|t: &str| t@)
}

proof fn lemma_str_views_push(v: Seq<&str>, t: &str)
    ensures
        str_views(v.push(t)) == str_views(v).push(t@),
{
    assert(str_views(v.push(t)) =~= str_views(v).push(t@));
}

/// The white-space separated words of `s`.
fn split_fields<'a>(s: &'a str) -> (r: Vec<&'a str>)
    ensures
        str_views(r@) == split_ws(s@),
{
    let n = s.unicode_len();
    let mut out: Vec<&'a str> = Vec::new();
    let mut start: usize = 0;
    let mut in_word = false;
    let mut i: usize = 0;
    while i < n
        invariant
            i <= n,
            n == s@.len(),
            start <= i,
            in_word ==> start < i,
            ws_scan(s@, i as nat) == (str_views(out@), if in_word {
                s@.subrange(start as int, i as int)
            } else {
                Seq::<char>::empty()
            }),
        decreases n - i,
    {
        let c = s.get_char(i);
        let ghost cur = if in_word {
            s@.subrange(start as int, i as int)
        } else {
            Seq::<char>::empty()
        };
        if is_whitespace_char(c) {
            if in_word {
                let w = s.substring_char(start, i);
                proof {
                    lemma_str_views_push(out@, w);
                }
                out.push(w);
                in_word = false;
            }
        } else {
            if !in_word {
                start = i;
                in_word = true;
            }
            proof {
                assert(s@.subrange(start as int, i + 1) =~= cur.push(c));
            }
        }
        i += 1;
    }
    if in_word {
        let w = s.substring_char(start, n);
        proof {
            lemma_str_views_push(out@, w);
        }
        out.push(w);
    }
    out
}

/// The parts of `s` between slashes.
fn split_slashes<'a>(s: &'a str) -> (r: Vec<&'a str>)
    ensures
        str_views(r@) == split_slash(s@),
{
    let n = s.unicode_len();
    let mut out: Vec<&'a str> = Vec::new();
    let mut start: usize = 0;
    let mut i: usize = 0;
    while i < n
        invariant
            i <= n,
            n == s@.len(),
            start <= i,
            slash_scan(s@, i as nat) == (str_views(out@), s@.subrange(start as int, i as int)),
        decreases n - i,
    {
        let c = s.get_char(i);
        let ghost cur = s@.subrange(start as int, i as int);
        if c == '/' {
            let w = s.substring_char(start, i);
            proof {
                lemma_str_views_push(out@, w);
                assert(s@.subrange(i + 1, i + 1) =~= Seq::<char>::empty());
            }
            out.push(w);
            start = i + 1;
        } else {
            proof {
                assert(s@.subrange(start as int, i + 1) =~= cur.push(c));
            }
        }
        i += 1;
    }
    let w = s.substring_char(start, n);
    proof {
        lemma_str_views_push(out@, w);
    }
    out.push(w);
    out
}

/// A rank with no piece.
pub open spec fn empty_row() -> Seq<Option<Piece>> {
    Seq::new(8, |f: int| None::<Piece>)
}

/// Reading the first `n` characters of the FEN text of internal rank `rank`: the next
/// file, the piece on each file so far, and the fault met, if any. A digit skips that many
/// files; a letter puts its piece on the next file, which must be below 8.
pub open spec fn rank_scan(r: Seq<char>, rank: int, n: nat) -> (int, Seq<Option<Piece>>, Option<FenFault>)
    decreases n,
{
    if n == 0 {
        (0, empty_row(), None)
    } else {
        let (file, row, fault) = rank_scan(r, rank, (n - 1) as nat);
        let c = r[n - 1];
        if fault is Some {
            (file, row, fault)
        } else if is_digit(c) {
            (file + (c as int - '0' as int), row, None)
        } else if file >= 8 {
            (file, row, Some(FenFault::RankOverflow { rank: rank as usize, file: file as usize }))
        } else {
            match fen_piece(c) {
                None => (file, row, Some(FenFault::InvalidPiece(c))),
                Some(p) => (file + 1, row.update(file, Some(p)), None),
            }
        }
    }
}

/// The placement of the first `n` FEN ranks (rank 8 first): the pieces by internal rank
/// and file, and the first fault met.
pub open spec fn placement(ranks: Seq<Seq<char>>, n: nat) -> (Seq<Seq<Option<Piece>>>, Option<FenFault>)
    decreases n,
{
    if n == 0 {
        (Seq::new(8, |k: int| empty_row()), None)
    } else {
        let (grid, fault) = placement(ranks, (n - 1) as nat);
        if fault is Some {
            (grid, fault)
        } else {
            let k = 7 - (n - 1);
            let (_, row, f) = rank_scan(ranks[n - 1], k, ranks[n - 1].len());
            (grid.update(k, row), f)
        }
    }
}

/// What a FEN string describes.
pub struct FenPosition {
    /// The piece on each file of each internal rank.
    pub grid: Seq<Seq<Option<Piece>>>,
    pub side: Player,
    pub rights: u8,
    pub en_passant: Option<(usize, usize)>,
    pub halfmove: u16,
    pub fullmove: u16,
}

/// The position a FEN string describes, or the first fault in it: six fields; eight ranks
/// of placement; `w` or `b`; castling; en passant; the two clocks.
pub open spec fn fen_outcome(s: Seq<char>) -> Result<FenPosition, FenFault> {
    let fields = split_ws(s);
    if fields.len() != 6 {
        Err(FenFault::InvalidFieldCount)
    } else {
        let ranks = split_slash(fields[0]);
        if ranks.len() != 8 {
            Err(FenFault::InvalidRankCount { expected: 8, got: ranks.len() as usize })
        } else {
            let (grid, fault) = placement(ranks, 8);
            if fault is Some {
                Err(fault->0)
            } else if fields[1] != seq!['w'] && fields[1] != seq!['b'] {
                Err(FenFault::InvalidSideToMove(fields[1]))
            } else if castling_field(fields[2]) is Err {
                Err(FenFault::InvalidCastling(castling_field(fields[2])->Err_0))
            } else if en_passant_field(fields[3]) is None {
                Err(FenFault::InvalidEnPassant(fields[3]))
            } else if u16_field(fields[4]) is None {
                Err(FenFault::InvalidHalfmoveClock(fields[4]))
            } else if u16_field(fields[5]) is None {
                Err(FenFault::InvalidFullmoveNumber(fields[5]))
            } else {
                Ok(
                    FenPosition {
                        grid,
                        side: if fields[1] == seq!['w'] {
                            Player::White
                        } else {
                            Player::Black
                        },
                        rights: castling_field(fields[2])->Ok_0,
                        en_passant: en_passant_field(fields[3])->0,
                        halfmove: u16_field(fields[4])->0,
                        fullmove: u16_field(fields[5])->0,
                    },
                )
            }
        }
    }
}

/// The bits of a cell holding `p`, or none.
pub open spec fn opt_bits(p: Option<Piece>) -> CellBits {
    match p {
        Some(q) => piece_bits(q),
        None => empty_bits(),
    }
}

/// The bits of cell `j` of an 8x8 board holding `grid` (cell `rank + file * 8`).
pub open spec fn grid_bits(grid: Seq<Seq<Option<Piece>>>, j: int) -> CellBits {
    if 0 <= j < 64 {
        opt_bits(grid[j % 8][j / 8])
    } else {
        empty_bits()
    }
}

/// The rows stay eight files long, and the files at or past the next file are empty.
proof fn lemma_rank_scan(r: Seq<char>, rank: int, n: nat)
    requires
        n <= r.len(),
    ensures
        rank_scan(r, rank, n).1.len() == 8,
        0 <= rank_scan(r, rank, n).0 <= 9 * n,
        forall|f: int| rank_scan(r, rank, n).0 <= f < 8 ==> (#[trigger] rank_scan(r, rank, n).1[f]) is None,
    decreases n,
{
    if n > 0 {
        lemma_rank_scan(r, rank, (n - 1) as nat);
        let (file, row, fault) = rank_scan(r, rank, (n - 1) as nat);
        let c = r[n - 1];
        if fault is None && !is_digit(c) && file < 8 {
            if let Some(p) = fen_piece(c) {
                let row2 = row.update(file, Some(p));
                assert forall|f: int| file + 1 <= f < 8 implies (#[trigger] row2[f]) is None by {
                    assert(row2[f] == row[f]);
                }
            }
        }
    }
}

/// The castling rights read are below 16.
proof fn lemma_castling_scan_small(s: Seq<char>)
    ensures
        castling_scan(s) matches Ok(v) ==> v < 16,
    decreases s.len(),
{
    if s.len() > 0 {
        lemma_castling_scan_small(s.drop_last());
        if let Ok(r) = castling_scan(s.drop_last()) {
            assert(r < 16 ==> (r | 1u8) < 16 && (r | 2u8) < 16 && (r | 4u8) < 16 && (r | 8u8) < 16)
                by (bit_vector);
        }
    }
}

/// Puts the pieces of the FEN text of internal rank `rank` on an 8x8 placement.
fn place_rank(pieces: &mut PieceMap<BitBoardLarge>, r: &str, rank: usize) -> (res: Result<(), FenError>)
    requires
        old(pieces).wf(),
        old(pieces).cells() >= 64,
        rank < 8,
        r@.len() <= 0x1000_0000,
        forall|f: int| 0 <= f < 8 ==> #[trigger] old(pieces).bits(rank + f * 8) == empty_bits(),
    ensures
        final(pieces).wf(),
        final(pieces).cells() == old(pieces).cells(),
        match rank_scan(r@, rank as int, r@.len()).2 {
            Some(f) => res is Err && res->Err_0@ == f,
            None => res is Ok && forall|j: int| #[trigger] final(pieces).bits(j) == if 0 <= j < 64
                && j % 8 == rank {
                opt_bits(rank_scan(r@, rank as int, r@.len()).1[j / 8])
            } else {
                old(pieces).bits(j)
            },
        },
    {
        let ghost b0 = *pieces;
        proof {
            assert forall|j: int| 0 <= j < 64 && j % 8 == rank implies #[trigger] b0.bits(j)
                == empty_bits() by {
                assert(j == rank + (j / 8) * 8);
                assert(b0.bits(rank + (j / 8) * 8) == empty_bits());
            }
        }
        let n = r.unicode_len();
        let mut file: usize = 0;
        let mut i: usize = 0;
        while i < n
            invariant
                i <= n,
                n == r@.len(),
                n <= 0x1000_0000,
                rank < 8,
                pieces.wf(),
                pieces.cells() == b0.cells(),
                b0 == *old(pieces),
                b0.cells() >= 64,
                rank_scan(r@, rank as int, i as nat).0 == file,
                rank_scan(r@, rank as int, i as nat).2 is None,
                forall|j: int| #[trigger] pieces.bits(j) == if 0 <= j < 64 && j % 8 == rank {
                    opt_bits(rank_scan(r@, rank as int, i as nat).1[j / 8])
                } else {
                    b0.bits(j)
                },
                forall|j: int| 0 <= j < 64 && j % 8 == rank ==> #[trigger] b0.bits(j) == empty_bits(),
            decreases n - i,
        {
            let c = r.get_char(i);
            proof {
                lemma_rank_scan(r@, rank as int, i as nat);
                lemma_rank_scan(r@, rank as int, (i + 1) as nat);
            }
            if '0' <= c && c <= '9' {
                file = file + (c as u32 - '0' as u32) as usize;
            } else {
                if file >= 8 {
                    proof {
                        lemma_rank_scan_fault(r@, rank as int, (i + 1) as nat);
                    }
                    return Err(FenError::RankOverflow { rank, file });
                }
                let piece = match char_to_piece(c) {
                    Ok(p) => p,
                    Err(e) => {
                        proof {
                            lemma_rank_scan_fault(r@, rank as int, (i + 1) as nat);
                        }
                        return Err(e);
                    },
                };
                let idx = rank + file * 8;
                let ghost before = *pieces;
                let ghost row = rank_scan(r@, rank as int, i as nat).1;
                proof {
                    assert(row[file as int] is None);
                    assert(idx % 8 == rank && idx / 8 == file) by (nonlinear_arith)
                        requires
                            idx == rank + file * 8,
                            rank < 8,
                    ;
                    assert(pieces.bits(idx as int) == empty_bits());
                }
                pieces.place_piece_at_index(idx, piece);
                proof {
                    let row2 = rank_scan(r@, rank as int, (i + 1) as nat).1;
                    assert(row2 == row.update(file as int, Some(piece)));
                    crate::pieces::lemma_piece_bits(piece);
                    assert forall|j: int| #[trigger] pieces.bits(j) == if 0 <= j < 64 && j % 8
                        == rank {
                        opt_bits(row2[j / 8])
                    } else {
                        b0.bits(j)
                    } by {
                        if j == idx {
                        } else if 0 <= j < 64 && j % 8 == rank {
                            assert(j / 8 != file) by (nonlinear_arith)
                                requires
                                    j != idx,
                                    idx == rank + file * 8,
                                    j % 8 == rank,
                                    0 <= j,
                            ;
                            assert(row2[j / 8] == row[j / 8]);
                        }
                    }
                }
                file = file + 1;
            }
            i += 1;
        }
        proof {
            assert(r@.len() == n);
        }
        Ok(())
}

/// A fault met stays the fault of the whole rank.
proof fn lemma_rank_scan_fault(r: Seq<char>, rank: int, k: nat)
    requires
        k <= r.len(),
        rank_scan(r, rank, k).2 is Some,
    ensures
        rank_scan(r, rank, r.len()).2 == rank_scan(r, rank, k).2,
    decreases r.len() - k,
{
    if k < r.len() {
        lemma_rank_scan_fault(r, rank, k + 1);
    }
}

/// No word is longer than the text it comes from.
proof fn lemma_ws_scan_len(s: Seq<char>, n: nat)
    requires
        n <= s.len(),
    ensures
        forall|k: int| 0 <= k < ws_scan(s, n).0.len() ==> (#[trigger] ws_scan(s, n).0[k]).len() <= n,
        ws_scan(s, n).1.len() <= n,
    decreases n,
{
    if n > 0 {
        lemma_ws_scan_len(s, (n - 1) as nat);
    }
}

/// No part is longer than the text it comes from.
proof fn lemma_slash_scan_len(s: Seq<char>, n: nat)
    requires
        n <= s.len(),
    ensures
        forall|k: int| 0 <= k < slash_scan(s, n).0.len() ==> (#[trigger] slash_scan(s, n).0[k]).len() <= n,
        slash_scan(s, n).1.len() <= n,
    decreases n,
{
    if n > 0 {
        lemma_slash_scan_len(s, (n - 1) as nat);
    }
}

/// The grid keeps eight ranks of eight files, and the ranks not read yet are empty.
proof fn lemma_placement(ranks: Seq<Seq<char>>, n: nat)
    requires
        n <= 8,
        ranks.len() == 8,
    ensures
        placement(ranks, n).0.len() == 8,
        forall|k: int| 0 <= k < 8 ==> (#[trigger] placement(ranks, n).0[k]).len() == 8,
        forall|k: int| 0 <= k < 8 - n ==> #[trigger] placement(ranks, n).0[k] == empty_row(),
    decreases n,
{
    if n > 0 {
        lemma_placement(ranks, (n - 1) as nat);
        let k = 7 - (n - 1);
        lemma_rank_scan(ranks[n - 1], k, ranks[n - 1].len());
    }
}

/// A fault met stays the fault of the whole placement.
proof fn lemma_placement_fault(ranks: Seq<Seq<char>>, n: nat)
    requires
        n <= 8,
        placement(ranks, n).1 is Some,
    ensures
        placement(ranks, 8).1 == placement(ranks, n).1,
    decreases 8 - n,
{
    if n < 8 {
        lemma_placement_fault(ranks, n + 1);
    }
}

/// The standard board: two axes of eight squares, 64 cells.
proof fn lemma_standard_shape()
    ensures
        crate::geometry::shape_ok(2, 8),
        cell_count(8, 2) == 64,
{
    reveal_with_fuel(cell_count, 3);
    reveal_with_fuel(crate::calculators::pow3, 3);
}

/// `b` is the 8x8 board that the FEN position `pos` describes, with `pos.side` to move.
pub open spec fn fen_board(b: Board, pos: FenPosition) -> bool {
    &&& b.wf()
    &&& b.geo.dimension == 2
    &&& b.geo.side == 8
    &&& clean(b)
    &&& forall|j: int| 0 <= j < 64 ==> #[trigger] b.piece_at(j) == pos.grid[j % 8][j / 8]
    &&& b.state.castling_rights == pos.rights
    &&& b.state.en_passant_target == pos.en_passant
    &&& b.state.halfmove_clock == pos.halfmove
    &&& b.state.fullmove_number == pos.fullmove
    &&& b.state.history@ == Seq::<u64>::empty()
    &&& b.state.start_phase == 0
    &&& b.state.hash == b.zobrist.spec_hash(b.pieces, b.state, 64, pos.side)
}

impl Board {
    /// Reads a FEN string into an 8x8 board with two axes (`[rank, file]`, cell
    /// `rank + file * 8`): the placement, side to move (which sets the hash), castling
    /// rights, en-passant target and clocks; or the first fault in it.
    pub fn from_fen(fen: &str) -> (r: Result<Board, FenError>)
        requires
            fen@.len() <= 0x1000_0000,
        ensures
            match fen_outcome(fen@) {
                Ok(pos) => r is Ok && fen_board(r->Ok_0, pos),
                Err(f) => r is Err && r->Err_0@ == f,
            },
    {
        let fields = split_fields(fen);
        let ghost fv = str_views(fields@);
        proof {
            lemma_ws_scan_len(fen@, fen@.len());
            assert forall|k: int| 0 <= k < fv.len() implies (#[trigger] fv[k]).len() <= fen@.len() by {}
        }
        if fields.len() != 6 {
            return Err(FenError::InvalidFieldCount);
        }
        proof {
            lemma_standard_shape();
        }
        let mut board = Board::new_empty(2, 8);
        let ranks = split_slashes(fields[0]);
        let ghost rv = str_views(ranks@);
        proof {
            assert(fv[0] == fields@[0]@);
            lemma_slash_scan_len(fv[0], fv[0].len());
            assert forall|k: int| 0 <= k < rv.len() implies (#[trigger] rv[k]).len() <= fen@.len() by {}
        }
        if ranks.len() != 8 {
            return Err(FenError::InvalidRankCount { expected: 8, got: ranks.len() });
        }
        let ghost b0 = board;
        let mut ri: usize = 0;
        while ri < 8
            invariant
                ri <= 8,
                ranks.len() == 8,
                rv == str_views(ranks@),
                forall|k: int| 0 <= k < rv.len() ==> (#[trigger] rv[k]).len() <= 0x1000_0000,
                board.pieces.wf(),
                board.pieces.cells() == b0.pieces.cells(),
                board.geo == b0.geo,
                board.zobrist == b0.zobrist,
                board.state == b0.state,
                b0.wf(),
                b0.geo.dimension == 2,
                b0.geo.side == 8,
                b0.total() == 64,
                fv == split_ws(fen@),
                fv.len() == 6,
                rv == split_slash(fv[0]),
                placement(rv, ri as nat).1 is None,
                forall|j: int| #[trigger] board.pieces.bits(j) == grid_bits(placement(rv, ri as nat).0, j),
            decreases 8 - ri,
        {
            let internal_rank = 7 - ri;
            proof {
                lemma_placement(rv, ri as nat);
                let g = placement(rv, ri as nat).0;
                assert(g[internal_rank as int] == empty_row());
                assert forall|f: int| 0 <= f < 8 implies #[trigger] board.pieces.bits(internal_rank + f * 8)
                    == empty_bits() by {
                    let j = internal_rank + f * 8;
                    assert(j % 8 == internal_rank && j / 8 == f);
                }
                assert(ranks@[ri as int]@ == rv[ri as int]);
            }
            match place_rank(&mut board.pieces, ranks[ri], internal_rank) {
                Ok(()) => {},
                Err(e) => {
                    proof {
                        lemma_placement_fault(rv, (ri + 1) as nat);
                    }
                    return Err(e);
                },
            }
            proof {
                lemma_placement(rv, (ri + 1) as nat);
                let g = placement(rv, ri as nat).0;
                let row = rank_scan(rv[ri as int], internal_rank as int, rv[ri as int].len()).1;
                let g2 = placement(rv, (ri + 1) as nat).0;
                assert(g2 == g.update(internal_rank as int, row));
                assert forall|j: int| #[trigger] board.pieces.bits(j) == grid_bits(g2, j) by {
                    if 0 <= j < 64 {
                        if j % 8 != internal_rank {
                            assert(g2[j % 8] == g[j % 8]);
                        }
                    }
                }
            }
            ri += 1;
        }
        let ghost grid = placement(rv, 8).0;
        proof {
            lemma_placement(rv, 8);
        }
        let side_to_move = if is_single(fields[1], 'w') {
            Player::White
        } else if is_single(fields[1], 'b') {
            Player::Black
        } else {
            return Err(FenError::InvalidSideToMove(fields[1].to_owned()));
        };
        let rights = match parse_castling(fields[2]) {
            Ok(v) => v,
            Err(e) => {
                return Err(e);
            },
        };
        proof {
            lemma_castling_scan_small(fv[2]);
        }
        let ep = match parse_en_passant(fields[3]) {
            Ok(v) => v,
            Err(e) => {
                return Err(e);
            },
        };
        let halfmove = match parse_u16(fields[4]) {
            Some(v) => v,
            None => {
                return Err(FenError::InvalidHalfmoveClock(fields[4].to_owned()));
            },
        };
        let fullmove = match parse_u16(fields[5]) {
            Some(v) => v,
            None => {
                return Err(FenError::InvalidFullmoveNumber(fields[5].to_owned()));
            },
        };
        board.state.castling_rights = rights;
        board.state.en_passant_target = ep;
        board.state.halfmove_clock = halfmove;
        board.state.fullmove_number = fullmove;
        let hash = board.zobrist.get_hash_with_player(
            &board.pieces,
            &board.state,
            board.geo.total_cells,
            side_to_move,
        );
        board.state.hash = hash;
        proof {
            assert forall|j: int| #[trigger] board.pieces.bits(j) == match board.piece_at(j) {
                Some(p) => piece_bits(p),
                None => empty_bits(),
            } by {
                if 0 <= j < 64 {
                    match grid[j % 8][j / 8] {
                        Some(p) => crate::pieces::lemma_piece_bits(p),
                        None => crate::pieces::lemma_piece_bits(
                            Piece { piece_type: PieceType::Pawn, owner: Player::White },
                        ),
                    }
                } else {
                    crate::pieces::lemma_piece_bits(
                        Piece { piece_type: PieceType::Pawn, owner: Player::White },
                    );
                }
            }
            assert forall|j: int| 0 <= j < 64 implies #[trigger] board.piece_at(j) == grid[j % 8][j / 8] by {
                match grid[j % 8][j / 8] {
                    Some(p) => crate::pieces::lemma_piece_bits(p),
                    None => crate::pieces::lemma_piece_bits(
                        Piece { piece_type: PieceType::Pawn, owner: Player::White },
                    ),
                }
            }
            assert(board.within());
        }
        Ok(board)
    }
}

} // verus!
