//! Reading a move in Standard Algebraic Notation against the legal moves of a position.
use vstd::prelude::*;
use vstd::string::*;
use crate::board::Board;
use crate::decimal::is_digit;
use crate::legal::{sound, same_position, legal_list, dims_ok, lemma_filter_take};
use crate::models::{Move, Piece, PieceType, Player};
use crate::movegen::{MoveView, mview, views};

verus! {

/// Why a SAN string was refused; each carries the string.
#[derive(Debug)]
pub enum SanError {
    InvalidFormat(String),
    NoMatchingMove(String),
    AmbiguousMove(String),
}

/// A refusal of a SAN string, with the string as characters.
pub enum SanFault {
    InvalidFormat(Seq<char>),
    NoMatchingMove(Seq<char>),
    AmbiguousMove(Seq<char>),
}

impl View for SanError {
    type V = SanFault;

    open spec fn view(&self) -> SanFault {
        match self {
            SanError::InvalidFormat(s) => SanFault::InvalidFormat(s@),
            SanError::NoMatchingMove(s) => SanFault::NoMatchingMove(s@),
            SanError::AmbiguousMove(s) => SanFault::AmbiguousMove(s@),
        }
    }
}

/// The move read, or the refusal, as plain values.
pub open spec fn san_view(r: Result<Move, SanError>) -> Result<MoveView, SanFault> {
    match r {
        Ok(m) => Ok(mview(m)),
        Err(e) => Err(e@),
    }
}

/// A check, mate or comment mark at the end of a SAN string.
pub open spec fn is_annotation(c: char) -> bool {
    c == '+' || c == '#' || c == '!' || c == '?'
}

/// The string without its trailing marks.
pub open spec fn strip_annotations(s: Seq<char>) -> Seq<char>
    decreases s.len(),
{
    if s.len() > 0 && is_annotation(s.last()) {
        strip_annotations(s.drop_last())
    } else {
        s
    }
}

/// An upper-case ASCII letter.
pub open spec fn is_upper(c: char) -> bool {
    'A' <= c <= 'Z'
}

/// A lower-case ASCII letter.
pub open spec fn is_lower(c: char) -> bool {
    'a' <= c <= 'z'
}

/// The piece of a SAN piece letter.
pub open spec fn piece_letter(c: char) -> Option<PieceType> {
    if c == 'K' {
        Some(PieceType::King)
    } else if c == 'Q' {
        Some(PieceType::Queen)
    } else if c == 'R' {
        Some(PieceType::Rook)
    } else if c == 'B' {
        Some(PieceType::Bishop)
    } else if c == 'N' {
        Some(PieceType::Knight)
    } else {
        None
    }
}

/// The piece of a promotion letter.
pub open spec fn promotion_letter(c: char) -> Option<PieceType> {
    if c == 'Q' {
        Some(PieceType::Queen)
    } else if c == 'R' {
        Some(PieceType::Rook)
    } else if c == 'B' {
        Some(PieceType::Bishop)
    } else if c == 'N' {
        Some(PieceType::Knight)
    } else {
        None
    }
}

/// What a SAN move asks for: the moving piece, the promotion, the target and the source
/// file or rank that tell candidates apart.
pub struct SanQuery {
    pub piece: PieceType,
    pub promotion: Option<PieceType>,
    pub to_rank: u8,
    pub to_file: u8,
    pub dis_file: Option<u8>,
    pub dis_rank: Option<u8>,
}

/// The last file letter (`a`..`h`) and the last rank digit (`1`..`8`) among the
/// characters before the target.
pub open spec fn dis_scan(m: Seq<char>) -> (Option<u8>, Option<u8>)
    decreases m.len(),
{
    if m.len() == 0 {
        (None, None)
    } else {
        let (f, r) = dis_scan(m.drop_last());
        let c = m.last();
        if 'a' <= c <= 'h' {
            (Some((c as int - 'a' as int) as u8), r)
        } else if '1' <= c <= '8' {
            (f, Some((c as int - '1' as int) as u8))
        } else {
            (f, r)
        }
    }
}

/// The query of a non-empty SAN string without marks (not castling), or `None` for a
/// malformed one: an optional piece letter, the target square last (after an optional
/// `=` promotion, or a bare promotion letter for a pawn), and the characters between.
pub open spec fn san_query(c: Seq<char>) -> Option<SanQuery> {
    let upper = is_upper(c[0]);
    if upper && piece_letter(c[0]) is None {
        None
    } else {
        let pt = if upper {
            piece_letter(c[0])->0
        } else {
            PieceType::Pawn
        };
        let b1 = if upper {
            c.drop_first()
        } else {
            c
        };
        let n = b1.len();
        let eq_promo = n >= 2 && b1[n - 2] == '=';
        if eq_promo && promotion_letter(b1[n - 1]) is None {
            None
        } else {
            let bare = !eq_promo && pt == PieceType::Pawn && n >= 3 && promotion_letter(
                b1[n - 1],
            ) is Some;
            let promotion = if eq_promo || bare {
                promotion_letter(b1[n - 1])
            } else {
                None
            };
            let b2 = if eq_promo {
                b1.take(n - 2)
            } else if bare {
                b1.take(n - 1)
            } else {
                b1
            };
            let m = b2.len();
            if m < 2 {
                None
            } else if !is_lower(b2[m - 2]) || !is_digit(b2[m - 1]) {
                None
            } else {
                let to_file = b2[m - 2] as int - 'a' as int;
                let to_rank = b2[m - 1] as int - '1' as int;
                if to_file >= 8 || to_rank < 0 || to_rank >= 8 {
                    None
                } else {
                    let (dis_file, dis_rank) = dis_scan(b2.take(m - 2));
                    Some(
                        SanQuery {
                            piece: pt,
                            promotion,
                            to_rank: to_rank as u8,
                            to_file: to_file as u8,
                            dis_file,
                            dis_rank,
                        },
                    )
                }
            }
        }
    }
}

/// The move goes to the query's target with its promotion, moves a piece of `player` of
/// the query's kind, and agrees with the query's source file and rank.
pub open spec fn san_matches(b: Board, player: Player, q: SanQuery, v: MoveView) -> bool {
    &&& v.1[0] == q.to_rank
    &&& v.1[1] == q.to_file
    &&& v.2 == q.promotion
    &&& match b.spec_index(v.0) {
        Some(fi) => match b.piece_at(fi as int) {
            Some(p) => p.piece_type == q.piece && p.owner == player,
            None => false,
        },
        None => false,
    }
    &&& q.dis_file matches Some(df) ==> v.0[1] == df
    &&& q.dis_rank matches Some(dr) ==> v.0[0] == dr
}

/// The move takes `player`'s king from file 4 to file 2 (queenside) or 6 of its home rank.
pub open spec fn castle_move(v: MoveView, player: Player, queenside: bool) -> bool {
    let rank: u8 = match player {
        Player::White => 0u8,
        Player::Black => 7u8,
    };
    let file: u8 = if queenside {
        2u8
    } else {
        6u8
    };
    &&& v.0[0] == rank
    &&& v.0[1] == 4u8
    &&& v.1[0] == rank
    &&& v.1[1] == file
}

/// The first castling move in the list.
pub open spec fn first_castle(l: Seq<MoveView>, player: Player, queenside: bool) -> Option<int>
    decreases l.len(),
{
    if l.len() == 0 {
        None
    } else {
        match first_castle(l.drop_last(), player, queenside) {
            Some(i) => Some(i),
            None => if castle_move(l.last(), player, queenside) {
                Some(l.len() - 1)
            } else {
                None
            },
        }
    }
}

/// The castling move of the list, or no match.
pub open spec fn castle_result(l: Seq<MoveView>, player: Player, queenside: bool, s: Seq<char>) -> Result<
    MoveView,
    SanFault,
> {
    match first_castle(l, player, queenside) {
        Some(i) => Ok(l[i]),
        None => Err(SanFault::NoMatchingMove(s)),
    }
}

/// What a SAN string `s` reads as among the legal moves `l` of `player` on `b`: castling
/// by `O-O`/`0-0` (kingside) or `O-O-O`/`0-0-0` (queenside), else the only legal move that
/// the query matches; a malformed string, no match and several matches are refused.
pub open spec fn san_result(b: Board, player: Player, s: Seq<char>, l: Seq<MoveView>) -> Result<
    MoveView,
    SanFault,
> {
    let c = strip_annotations(s);
    if c.len() == 0 {
        Err(SanFault::InvalidFormat(s))
    } else if c == seq!['O', '-', 'O', '-', 'O'] || c == seq!['0', '-', '0', '-', '0'] {
        castle_result(l, player, true, s)
    } else if c == seq!['O', '-', 'O'] || c == seq!['0', '-', '0'] {
        castle_result(l, player, false, s)
    } else {
        match san_query(c) {
            None => Err(SanFault::InvalidFormat(s)),
            Some(q) => {
                let cand = l.filter(|v: MoveView| san_matches(b, player, q, v));
                if cand.len() == 0 {
                    Err(SanFault::NoMatchingMove(s))
                } else if cand.len() == 1 {
                    Ok(cand[0])
                } else {
                    Err(SanFault::AmbiguousMove(s))
                }
            },
        }
    }
}

/// Filtering a sequence in which only entry `i0` passes leaves that entry alone.
proof fn lemma_filter_only<A>(l: Seq<A>, f: spec_fn(A) -> bool, i0: int)
    requires
        0 <= i0 < l.len(),
        f(l[i0]),
        forall|j: int| 0 <= j < l.len() && j != i0 ==> !f(#[trigger] l[j]),
    ensures
        l.filter(f) =~= seq![l[i0]],
    decreases l.len(),
{
    reveal(Seq::filter);
    let d = l.drop_last();
    if i0 == l.len() - 1 {
        lemma_filter_none(d, f);
    } else {
        assert forall|j: int| 0 <= j < d.len() && j != i0 implies !f(#[trigger] d[j]) by {
            assert(d[j] == l[j]);
        }
        lemma_filter_only(d, f, i0);
        assert(!f(l[l.len() - 1]));
    }
}

/// Filtering a sequence in which no entry passes leaves nothing.
proof fn lemma_filter_none<A>(l: Seq<A>, f: spec_fn(A) -> bool)
    requires
        forall|j: int| 0 <= j < l.len() ==> !f(#[trigger] l[j]),
    ensures
        l.filter(f).len() == 0,
    decreases l.len(),
{
    reveal(Seq::filter);
    if l.len() > 0 {
        let d = l.drop_last();
        assert forall|j: int| 0 <= j < d.len() implies !f(#[trigger] d[j]) by {
            assert(d[j] == l[j]);
        }
        lemma_filter_none(d, f);
        assert(!f(l[l.len() - 1]));
    }
}

/// The castling notations are not read as a query.
proof fn lemma_castle_text_no_query(c: Seq<char>)
    requires
        c == seq!['O', '-', 'O', '-', 'O'] || c == seq!['0', '-', '0', '-', '0'] || c == seq!['O', '-', 'O']
            || c == seq!['0', '-', '0'],
    ensures
        san_query(c) is None,
{
    if c[0] == '0' {
        let n = c.len() as int;
        assert(c[n - 2] == '-');
        assert(!is_lower(c[n - 2]));
        assert(promotion_letter(c[n - 1]) is None);
    }
}

/// A SAN query (not castling) answered by a move: the move goes to the query's target with
/// its promotion, moves a piece of `player` of the query's kind, and starts on the source
/// file and rank the query gives, if any; and it is one of the legal moves.
pub proof fn lemma_san_answer(b: Board, player: Player, s: Seq<char>, l: Seq<MoveView>, q: SanQuery)
    requires
        strip_annotations(s).len() > 0,
        san_query(strip_annotations(s)) == Some(q),
    ensures
        san_result(b, player, s, l) matches Ok(v) ==> {
            &&& l.contains(v)
            &&& v.1[0] == q.to_rank
            &&& v.1[1] == q.to_file
            &&& v.2 == q.promotion
            &&& b.spec_index(v.0) matches Some(fi) && b.piece_at(fi as int) == Some(
                Piece { piece_type: q.piece, owner: player },
            )
            &&& q.dis_file matches Some(df) ==> v.0[1] == df
            &&& q.dis_rank matches Some(dr) ==> v.0[0] == dr
        },
{
    let c = strip_annotations(s);
    if c == seq!['O', '-', 'O', '-', 'O'] || c == seq!['0', '-', '0', '-', '0'] || c == seq!['O', '-', 'O']
        || c == seq!['0', '-', '0'] {
        lemma_castle_text_no_query(c);
    }
    let f = |v: MoveView| san_matches(b, player, q, v);
    let cand = l.filter(f);
    if cand.len() == 1 {
        l.lemma_filter_pred(f, 0);
        assert(cand.contains(cand[0]));
        l.lemma_filter_contains_rev(f, cand[0]);
        let v = cand[0];
        match b.spec_index(v.0) {
            Some(fi) => {
                let p = b.piece_at(fi as int)->0;
                assert(p == Piece { piece_type: q.piece, owner: player });
            },
            None => {},
        }
    }
}

/// A SAN query (not castling) that exactly one legal move answers reads as that move: the
/// one that goes to the query's target with its promotion, moves a piece of `player` of the
/// query's kind, and starts on the source file and rank the query gives, if any.
pub proof fn lemma_san_unique(b: Board, player: Player, s: Seq<char>, l: Seq<MoveView>, q: SanQuery, i0: int)
    requires
        strip_annotations(s).len() > 0,
        san_query(strip_annotations(s)) == Some(q),
        0 <= i0 < l.len(),
        forall|j: int|
            0 <= j < l.len() ==> ({
                let v = #[trigger] l[j];
                &&& v.1[0] == q.to_rank
                &&& v.1[1] == q.to_file
                &&& v.2 == q.promotion
                &&& b.spec_index(v.0) matches Some(fi) && b.piece_at(fi as int) == Some(
                    Piece { piece_type: q.piece, owner: player },
                )
                &&& q.dis_file matches Some(df) ==> v.0[1] == df
                &&& q.dis_rank matches Some(dr) ==> v.0[0] == dr
            } <==> j == i0),
    ensures
        san_result(b, player, s, l) == Ok::<MoveView, SanFault>(l[i0]),
{
    let c = strip_annotations(s);
    if c == seq!['O', '-', 'O', '-', 'O'] || c == seq!['0', '-', '0', '-', '0'] || c == seq!['O', '-', 'O']
        || c == seq!['0', '-', '0'] {
        lemma_castle_text_no_query(c);
    }
    let f = |v: MoveView| san_matches(b, player, q, v);
    assert forall|j: int| 0 <= j < l.len() implies f(#[trigger] l[j]) == (j == i0) by {
        let v = l[j];
        match b.spec_index(v.0) {
            Some(fi) => {
                if b.piece_at(fi as int) is Some {
                    let p = b.piece_at(fi as int)->0;
                    assert((p.piece_type == q.piece && p.owner == player) == (p == Piece { piece_type: q.piece, owner: player }));
                }
            },
            None => {},
        }
    }
    lemma_filter_only(l, f, i0);
    assert(l.filter(f).len() == 1);
    assert(l.filter(f)[0] == l[i0]);
}

/// The castling move of the list: the first that takes the king from file 4 of the home
/// rank to file 2 (queenside) or 6 of that rank.
pub fn find_castling_move(legal_moves: &[Move], player: Player, queenside: bool, san: &str) -> (r:
    Result<Move, SanError>)
    requires
        forall|k: int|
            0 <= k < legal_moves@.len() ==> (#[trigger] legal_moves@[k]).from@.len() >= 2
                && legal_moves@[k].to@.len() >= 2,
    ensures
        san_view(r) == castle_result(views(legal_moves@), player, queenside, san@),
{
    let king_to_file: u8 = if queenside {
        2
    } else {
        6
    };
    let king_rank: u8 = match player {
        Player::White => 0,
        Player::Black => 7,
    };
    let ghost l = views(legal_moves@);
    let mut i: usize = 0;
    while i < legal_moves.len()
        invariant
            i <= legal_moves.len(),
            l == views(legal_moves@),
            king_rank == match player {
                Player::White => 0u8,
                Player::Black => 7u8,
            },
            king_to_file == if queenside {
                2u8
            } else {
                6u8
            },
            forall|k: int|
                0 <= k < legal_moves@.len() ==> (#[trigger] legal_moves@[k]).from@.len() >= 2
                    && legal_moves@[k].to@.len() >= 2,
            first_castle(l.take(i as int), player, queenside) is None,
        decreases legal_moves.len() - i,
    {
        let mv = &legal_moves[i];
        proof {
            assert(l.take(i + 1).drop_last() =~= l.take(i as int));
            assert(l.take(i + 1).last() == mview(*mv));
        }
        if mv.from.values.get(0) == king_rank && mv.from.values.get(1) == 4 && mv.to.values.get(0)
            == king_rank && mv.to.values.get(1) == king_to_file {
            proof {
                assert(castle_move(mview(*mv), player, queenside));
                assert(first_castle(l.take(i + 1), player, queenside) == Some(i as int));
                assert(l.take(i + 1)[i as int] == l[i as int]);
                lemma_first_castle_extend(l, player, queenside, (i + 1) as nat);
            }
            return Ok(mv.duplicate());
        }
        i += 1;
    }
    proof {
        assert(l.take(l.len() as int) =~= l);
    }
    Err(SanError::NoMatchingMove(san.to_owned()))
}

/// A castling move found in a prefix is the first of the whole list.
proof fn lemma_first_castle_extend(l: Seq<MoveView>, player: Player, queenside: bool, k: nat)
    requires
        k <= l.len(),
        first_castle(l.take(k as int), player, queenside) is Some,
    ensures
        first_castle(l, player, queenside) == first_castle(l.take(k as int), player, queenside),
    decreases l.len() - k,
{
    if k < l.len() {
        assert(l.take(k as int + 1).drop_last() =~= l.take(k as int));
        lemma_first_castle_extend(l, player, queenside, k + 1);
    } else {
        assert(l.take(k as int) =~= l);
    }
}

/// The characters of a string, in order.
pub(crate) fn chars_of(s: &str) -> (r: Vec<char>)
    ensures
        r@ == s@,
{
    let n = s.unicode_len();
    let mut out: Vec<char> = Vec::new();
    let mut i: usize = 0;
    while i < n
        invariant
            i <= n,
            n == s@.len(),
            out@ == s@.take(i as int),
        decreases n - i,
    {
        out.push(s.get_char(i));
        proof {
            assert(out@ =~= s@.take(i + 1));
        }
        i += 1;
    }
    proof {
        assert(s@.take(n as int) =~= s@);
    }
    out
}

/// The length of the string once its trailing marks are dropped.
fn stripped_len(chars: &Vec<char>) -> (r: usize)
    ensures
        r <= chars.len(),
        chars@.take(r as int) == strip_annotations(chars@),
{
    let mut end = chars.len();
    proof {
        assert(chars@.take(end as int) =~= chars@);
    }
    while end > 0 && (chars[end - 1] == '+' || chars[end - 1] == '#' || chars[end - 1] == '!'
        || chars[end - 1] == '?')
        invariant
            end <= chars.len(),
            strip_annotations(chars@.take(end as int)) == strip_annotations(chars@),
        decreases end,
    {
        proof {
            assert(chars@.take(end as int).drop_last() =~= chars@.take(end - 1));
        }
        end = end - 1;
    }
    end
}

/// Whether the first `end` characters are exactly `pat`.
fn prefix_is(chars: &Vec<char>, end: usize, pat: &[char]) -> (r: bool)
    requires
        end <= chars.len(),
    ensures
        r == (chars@.take(end as int) == pat@),
{
    if end != pat.len() {
        proof {
            assert(chars@.take(end as int).len() != pat@.len());
        }
        return false;
    }
    let mut i: usize = 0;
    while i < end
        invariant
            i <= end,
            end == pat.len(),
            end <= chars.len(),
            forall|k: int| 0 <= k < i ==> chars@[k] == pat@[k],
        decreases end - i,
    {
        if chars[i] != pat[i] {
            proof {
                assert(chars@.take(end as int)[i as int] != pat@[i as int]);
            }
            return false;
        }
        i += 1;
    }
    proof {
        assert(chars@.take(end as int) =~= pat@);
    }
    true
}

/// The piece of a promotion letter.
fn promotion_of(c: char) -> (r: Option<PieceType>)
    ensures
        r == promotion_letter(c),
{
    if c == 'Q' {
        Some(PieceType::Queen)
    } else if c == 'R' {
        Some(PieceType::Rook)
    } else if c == 'B' {
        Some(PieceType::Bishop)
    } else if c == 'N' {
        Some(PieceType::Knight)
    } else {
        None
    }
}

/// Whether two optional promotions are the same.
fn same_promotion(a: Option<PieceType>, b: Option<PieceType>) -> (r: bool)
    ensures
        r == (a == b),
{
    match (a, b) {
        (None, None) => true,
        (Some(x), Some(y)) => x == y,
        _ => false,
    }
}

/// The query of the first `end` characters (see `san_query`).
fn parse_query(chars: &Vec<char>, end: usize) -> (r: Option<SanQuery>)
    requires
        0 < end <= chars.len(),
    ensures
        r == san_query(chars@.take(end as int)),
{
    let ghost c = chars@.take(end as int);
    let first = chars[0];
    let upper = 'A' <= first && first <= 'Z';
    let mut lo: usize = 0;
    let pt = if upper {
        lo = 1;
        if first == 'K' {
            PieceType::King
        } else if first == 'Q' {
            PieceType::Queen
        } else if first == 'R' {
            PieceType::Rook
        } else if first == 'B' {
            PieceType::Bishop
        } else if first == 'N' {
            PieceType::Knight
        } else {
            return None;
        }
    } else {
        PieceType::Pawn
    };
    let ghost b1 = if upper {
        c.drop_first()
    } else {
        c
    };
    proof {
        assert(b1 =~= chars@.subrange(lo as int, end as int));
    }
    let mut hi = end;
    let n = hi - lo;
    let eq_promo = n >= 2 && chars[hi - 2] == '=';
    let mut promotion: Option<PieceType> = None;
    if eq_promo {
        promotion = promotion_of(chars[hi - 1]);
        if promotion.is_none() {
            return None;
        }
        hi = hi - 2;
    } else if pt == PieceType::Pawn && n >= 3 && promotion_of(chars[hi - 1]).is_some() {
        promotion = promotion_of(chars[hi - 1]);
        hi = hi - 1;
    }
    let ghost b2 = chars@.subrange(lo as int, hi as int);
    proof {
        assert(b2 =~= if eq_promo {
            b1.take(n - 2)
        } else if promotion is Some {
            b1.take(n - 1)
        } else {
            b1
        });
    }
    if hi - lo < 2 {
        return None;
    }
    let df = chars[hi - 2];
    let dr = chars[hi - 1];
    if !('a' <= df && df <= 'z') || !('0' <= dr && dr <= '9') {
        return None;
    }
    if dr == '0' {
        return None;
    }
    let to_file: u32 = df as u32 - 'a' as u32;
    let to_rank: u32 = dr as u32 - '1' as u32;
    if to_file >= 8 || to_rank >= 8 {
        return None;
    }
    let mut dis_file: Option<u8> = None;
    let mut dis_rank: Option<u8> = None;
    let mut k: usize = lo;
    while k < hi - 2
        invariant
            lo <= k <= hi - 2,
            hi <= chars.len(),
            dis_scan(chars@.subrange(lo as int, k as int)) == (dis_file, dis_rank),
        decreases hi - 2 - k,
    {
        let ch = chars[k];
        proof {
            assert(chars@.subrange(lo as int, k + 1).drop_last() =~= chars@.subrange(lo as int, k as int));
        }
        if 'a' <= ch && ch <= 'h' {
            dis_file = Some((ch as u32 - 'a' as u32) as u8);
        } else if '1' <= ch && ch <= '8' {
            dis_rank = Some((ch as u32 - '1' as u32) as u8);
        }
        k += 1;
    }
    proof {
        assert(b2.take(b2.len() - 2) =~= chars@.subrange(lo as int, hi - 2));
    }
    Some(
        SanQuery {
            piece: pt,
            promotion,
            to_rank: to_rank as u8,
            to_file: to_file as u8,
            dis_file,
            dis_rank,
        },
    )
}

/// Whether the move matches the query on `board` (see `san_matches`).
fn move_matches(board: &Board, player: Player, q: &SanQuery, mv: &Move) -> (r: bool)
    requires
        board.wf(),
        mv.from@.len() == board.geo.dimension,
        mv.to@.len() == board.geo.dimension,
    ensures
        r == san_matches(*board, player, *q, mview(*mv)),
{
    proof {
        crate::representation::lemma_cell_count_monotone(
            board.geo.side as nat,
            mv.from@.len(),
            board.geo.dimension as nat,
        );
    }
    if mv.to.values.get(0) != q.to_rank || mv.to.values.get(1) != q.to_file {
        return false;
    }
    if !same_promotion(mv.promotion, q.promotion) {
        return false;
    }
    let piece_ok = match board.coords_to_index(mv.from.values.as_slice()) {
        Some(fi) => match board.pieces.get_piece_at_index(fi) {
            Some(p) => p.piece_type == q.piece && p.owner == player,
            None => false,
        },
        None => false,
    };
    if !piece_ok {
        return false;
    }
    if let Some(df) = q.dis_file {
        if mv.from.values.get(1) != df {
            return false;
        }
    }
    if let Some(dr) = q.dis_rank {
        if mv.from.values.get(0) != dr {
            return false;
        }
    }
    true
}

/// Reads a SAN move of `player` (`e4`, `Nf3`, `Bxe5`, `exd5`, `O-O`, `O-O-O`, `e8=Q`,
/// `e8Q`, `Nbd2`, `R1a3`, `Qh4e1`, with trailing `+`, `#`, `!` or `?` ignored) against the
/// legal moves of the position; the position is the same afterwards.
pub fn parse_san(board: &mut Board, player: Player, san: &str) -> (r: Result<Move, SanError>)
    requires
        old(board).wf(),
        old(board).geo.side >= 2,
        sound(*old(board)),
    ensures
        final(board).wf(),
        same_position(*final(board), *old(board)),
        strip_annotations(san@).len() == 0 ==> san_view(r) == Err::<MoveView, SanFault>(
            SanFault::InvalidFormat(san@),
        ),
        strip_annotations(san@).len() > 0 ==> exists|l: Seq<Move>|
            #![trigger legal_list(*old(board), player, l)]
            legal_list(*old(board), player, l) && san_result(*old(board), player, san@, views(l))
                == san_view(r),
{
    let ghost b0 = *board;
    let chars = chars_of(san);
    let end = stripped_len(&chars);
    if end == 0 {
        proof {
            lemma_same_position_refl(*board);
        }
        return Err(SanError::InvalidFormat(san.to_owned()));
    }
    let legal = board.generate_legal_moves(player).into_vec();
    let ghost l = views(legal@);
    proof {
        assert(strip_annotations(san@) == chars@.take(end as int));
    }
    let qs1 = ['O', '-', 'O', '-', 'O'];
    let qs2 = ['0', '-', '0', '-', '0'];
    let ks1 = ['O', '-', 'O'];
    let ks2 = ['0', '-', '0'];
    proof {
        assert(qs1@ =~= seq!['O', '-', 'O', '-', 'O']);
        assert(qs2@ =~= seq!['0', '-', '0', '-', '0']);
        assert(ks1@ =~= seq!['O', '-', 'O']);
        assert(ks2@ =~= seq!['0', '-', '0']);
        assert forall|k: int| 0 <= k < legal@.len() implies (#[trigger] legal@[k]).from@.len() >= 2
            && legal@[k].to@.len() >= 2 by {
            assert(dims_ok(legal@, b0.geo.dimension as nat));
        }
    }
    if prefix_is(&chars, end, qs1.as_slice()) || prefix_is(&chars, end, qs2.as_slice()) {
        return find_castling_move(legal.as_slice(), player, true, san);
    }
    if prefix_is(&chars, end, ks1.as_slice()) || prefix_is(&chars, end, ks2.as_slice()) {
        return find_castling_move(legal.as_slice(), player, false, san);
    }
    let q = match parse_query(&chars, end) {
        Some(q) => q,
        None => {
            return Err(SanError::InvalidFormat(san.to_owned()));
        },
    };
    let ghost pred = |v: MoveView| san_matches(b0, player, q, v);
    let mut count: usize = 0;
    let mut first: usize = 0;
    let mut k: usize = 0;
    while k < legal.len()
        invariant
            k <= legal.len(),
            board.wf(),
            same_position(*board, b0),
            dims_ok(legal@, b0.geo.dimension as nat),
            l == views(legal@),
            pred == (|v: MoveView| san_matches(b0, player, q, v)),
            count <= k,
            count == l.take(k as int).filter(pred).len(),
            count > 0 ==> first < k && l[first as int] == l.take(k as int).filter(pred)[0],
        decreases legal.len() - k,
    {
        let mv = &legal[k];
        let ok = move_matches(board, player, &q, mv);
        proof {
            lemma_filter_take(l, pred, k as int);
            assert(l[k as int] == mview(*mv));
            lemma_matches_same(*board, b0, player, q, mview(*mv));
            assert(l.take(k + 1).filter(pred) == if pred(l[k as int]) {
                l.take(k as int).filter(pred).push(l[k as int])
            } else {
                l.take(k as int).filter(pred)
            });
        }
        if ok {
            if count == 0 {
                first = k;
            }
            count = count + 1;
        }
        k += 1;
    }
    proof {
        assert(l.take(l.len() as int) =~= l);
    }
    if count == 0 {
        Err(SanError::NoMatchingMove(san.to_owned()))
    } else if count == 1 {
        Ok(legal[first].duplicate())
    } else {
        Err(SanError::AmbiguousMove(san.to_owned()))
    }
}

/// A board holds the same position as itself.
proof fn lemma_same_position_refl(b: Board)
    ensures
        same_position(b, b),
{
}

/// Boards holding the same position match the same moves.
proof fn lemma_matches_same(a: Board, b: Board, player: Player, q: SanQuery, v: MoveView)
    requires
        same_position(a, b),
    ensures
        san_matches(a, player, q, v) == san_matches(b, player, q, v),
{
    if let Some(fi) = a.spec_index(v.0) {
        assert(a.pieces.bits(fi as int) == b.pieces.bits(fi as int));
    }
}

} // verus!
