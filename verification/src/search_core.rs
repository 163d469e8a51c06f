//! The search shared by the engine players: piece values, the quiescence search over loud
//! moves, and a depth-limited alpha-beta search. Every move made during a search is taken
//! back, so the board holds the same position when a search returns.
use vstd::prelude::*;
use std::sync::atomic::{AtomicBool, AtomicUsize, Ordering};
use crate::board::{Board, UnmakeInfo};
use crate::eval::{Evaluator, eval_fits, eval_arith_ok, evaluation, piece_max};
use crate::legal::{sound, same_position, lemma_same_position, loud_list, legal_list};
use crate::make_move::{
    applied, applied_info, move_ok, undoable, unmade, unmake_ready, clean,
    lemma_unmake_undoes_apply, lemma_unmake_restores_bits, lemma_mid_facts, unmade_bits,
    bits_rook_back, unmake_castles, unmake_squares_ok,
};
use crate::models::{Move, PieceType, Player};
use crate::representation::BoardRepresentation;
use crate::see::{SEE, see_result};
use crate::transposition::{Flag, LockFreeTT, PackedMove};

verus! {

pub const VAL_PAWN: i32 = 100;
pub const VAL_KNIGHT: i32 = 320;
pub const VAL_BISHOP: i32 = 330;
pub const VAL_ROOK: i32 = 500;
pub const VAL_QUEEN: i32 = 900;
pub const VAL_KING: i32 = 20000;

/// The score of being mated, less the plies it takes.
pub const CHECKMATE_SCORE: i32 = 30000;

/// The bound of a static score: an evaluation beyond `-SCORE_LIMIT..=SCORE_LIMIT` is cut
/// to it.
pub const SCORE_LIMIT: i32 = 1_000_000;

/// The value of the piece on cell `i` by its kind bit, looked up in the order pawn, knight,
/// bishop, rook, queen, king; 0 for an empty cell.
pub open spec fn piece_value(b: Board, i: int) -> i32 {
    if b.pieces.pawns.has(i) {
        VAL_PAWN
    } else if b.pieces.knights.has(i) {
        VAL_KNIGHT
    } else if b.pieces.bishops.has(i) {
        VAL_BISHOP
    } else if b.pieces.rooks.has(i) {
        VAL_ROOK
    } else if b.pieces.queens.has(i) {
        VAL_QUEEN
    } else if b.pieces.kings.has(i) {
        VAL_KING
    } else {
        0
    }
}

/// The value of the piece on cell `idx` (see `piece_value`).
pub fn get_piece_value(board: &Board, idx: usize) -> (r: i32)
    requires
        board.wf(),
        idx < board.total(),
    ensures
        r == piece_value(*board, idx as int),
{
    let p = &board.pieces;
    if p.pawns.get_bit(idx) {
        VAL_PAWN
    } else if p.knights.get_bit(idx) {
        VAL_KNIGHT
    } else if p.bishops.get_bit(idx) {
        VAL_BISHOP
    } else if p.rooks.get_bit(idx) {
        VAL_ROOK
    } else if p.queens.get_bit(idx) {
        VAL_QUEEN
    } else if p.kings.get_bit(idx) {
        VAL_KING
    } else {
        0
    }
}

/// The board can be searched: well formed, at least two squares per axis, sound, and small
/// enough for the evaluation.
pub open spec fn searchable(b: Board) -> bool {
    &&& b.wf()
    &&& b.geo.side >= 2
    &&& sound(b)
    &&& eval_fits(b)
}

/// Whether the board can be searched (see `searchable`).
pub fn is_searchable(board: &Board) -> (r: bool)
    requires
        board.wf(),
    ensures
        r == searchable(*board),
{
    board.geo.side >= 2 && board.is_sound() && Evaluator::fits(board)
}

/// `x` cut to `-SCORE_LIMIT..=SCORE_LIMIT`.
pub open spec fn limited(x: int) -> int {
    if x < -SCORE_LIMIT {
        -SCORE_LIMIT as int
    } else if x > SCORE_LIMIT {
        SCORE_LIMIT as int
    } else {
        x
    }
}

/// The static score from `player`'s side: the evaluation (0 where its arithmetic would
/// overflow) cut to the score limit, negated for Black.
pub open spec fn static_score(b: Board, player: Player) -> int {
    let e: int = if eval_arith_ok(b) {
        evaluation(b) as i32 as int
    } else {
        0
    };
    match player {
        Player::White => limited(e),
        Player::Black => -limited(e),
    }
}

/// The static score of the board from `player`'s side (see `static_score`).
pub fn stand_pat(board: &Board, player: Player) -> (r: i32)
    requires
        searchable(*board),
    ensures
        r == static_score(*board, player),
        -SCORE_LIMIT <= r <= SCORE_LIMIT,
{
    let e: i32 = match Evaluator::try_evaluate(board) {
        Some(v) => v,
        None => 0,
    };
    let c: i32 = if e < -SCORE_LIMIT {
        -SCORE_LIMIT
    } else if e > SCORE_LIMIT {
        SCORE_LIMIT
    } else {
        e
    };
    match player {
        Player::White => c,
        Player::Black => -c,
    }
}

/// Whether another thread asked the search to stop.
fn stop_requested(stop: &AtomicBool) -> bool {
    stop.load(Ordering::Relaxed)
}

/// Counts a node searched and returns the count before it.
fn count_node(nodes: &AtomicUsize) -> usize {
    nodes.fetch_add(1, Ordering::Relaxed)
}

/// Boards holding the same position take a move back alike.
proof fn lemma_unmade_same(a: Board, b: Board, mv: Move, info: UnmakeInfo, n: Board)
    requires
        same_position(a, b),
    ensures
        unmake_ready(a, mv, info) == unmake_ready(b, mv, info),
        unmade(a, mv, info, n) == unmade(b, mv, info, n),
{
    assert forall|j: int| #[trigger] a.piece_at(j) == b.piece_at(j) by {
        assert(a.pieces.bits(j) == b.pieces.bits(j));
    }
    assert(unmake_castles(a, mv) == unmake_castles(b, mv));
    assert(unmake_squares_ok(a, mv) == unmake_squares_ok(b, mv));
    assert forall|j: int| #[trigger] unmade_bits(a, mv, info, j) == unmade_bits(b, mv, info, j) by {
        assert(a.pieces.bits(j) == b.pieces.bits(j));
        assert(bits_rook_back(a, mv, j) == bits_rook_back(b, mv, j));
    }
}

/// Holding the same position is transitive.
pub(crate) proof fn lemma_same_trans(a: Board, b: Board, c: Board)
    requires
        same_position(a, b),
        same_position(b, c),
    ensures
        same_position(a, c),
{
    assert forall|j: int| #[trigger] a.pieces.bits(j) == c.pieces.bits(j) by {
        assert(a.pieces.bits(j) == b.pieces.bits(j));
        assert(b.pieces.bits(j) == c.pieces.bits(j));
    }
}

/// Makes `mv` when it can be taken back to the same position; on `None` the board is
/// unchanged.
pub(crate) fn play(board: &mut Board, mv: &Move) -> (r: Option<UnmakeInfo>)
    requires
        old(board).wf(),
        mv.from@.len() == old(board).geo.dimension,
        mv.to@.len() == old(board).geo.dimension,
    ensures
        final(board).wf(),
        r is None ==> *final(board) == *old(board),
        r is None ==> !playable(*old(board), *mv),
        r matches Some(info) ==> {
            &&& playable(*old(board), *mv)
            &&& info == applied_info(*old(board), *mv)
            &&& applied(*old(board), *mv, *final(board))
        },
{
    if !board.takeback_safe(mv) {
        return None;
    }
    match board.apply_move(mv) {
        Ok(info) => Some(info),
        Err(_) => None,
    }
}

/// Takes back `mv`, made on `b0` with `info` recorded, on a board holding the position
/// that making it gave: the board then holds `b0`'s position.
pub(crate) fn take_back(board: &mut Board, mv: &Move, info: UnmakeInfo, Ghost(b0): Ghost<Board>, Ghost(mid): Ghost<Board>)
    requires
        b0.wf(),
        clean(b0),
        mv.from@.len() == b0.geo.dimension,
        mv.to@.len() == b0.geo.dimension,
        move_ok(b0, *mv),
        undoable(b0, *mv),
        info == applied_info(b0, *mv),
        applied(b0, *mv, mid),
        old(board).wf(),
        same_position(*old(board), mid),
    ensures
        final(board).wf(),
        same_position(*final(board), b0),
{
    let ghost m2 = *board;
    proof {
        lemma_mid_facts(b0, *mv, mid);
        lemma_unmade_same(m2, mid, *mv, info, m2);
    }
    board.unmake_move(mv, info);
    proof {
        lemma_unmade_same(m2, mid, *mv, info, *board);
        lemma_unmake_undoes_apply(b0, *mv, mid, *board);
        lemma_unmake_restores_bits(b0, *mv, mid, *board);
    }
}

/// The entry the table holds for `hash`, if there is a table; its score is that of a
/// stored entry, so within the range of `i16`.
pub(crate) fn probe(tt: Option<&LockFreeTT>, hash: u64) -> (r: Option<(i32, u8, Flag, Option<PackedMove>)>)
    requires
        tt matches Some(t) ==> t.wf(),
    ensures
        r matches Some(e) ==> -32768 <= e.0 <= 32767,
        tt is None ==> r is None,
{
    match tt {
        Some(t) => {
            let e = t.get(hash);
            proof {
                let (keys, datas) = choose|keys: Seq<u64>, datas: Seq<u64>|
                    keys.len() == 3 && datas.len() == 3 && e == #[trigger] crate::transposition::probe_result(hash, keys, datas);
                match crate::transposition::matching_data(hash, keys, datas, 0) {
                    Some(d) => {
                        let x = (d & 0xFFFF) as i16;
                        assert(-32768 <= x <= 32767);
                    },
                    None => {},
                }
            }
            e
        },
        None => None,
    }
}

/// The number of cells is at most 100,000 on a board the evaluation fits.
pub(crate) proof fn lemma_fits_small(b: Board)
    requires
        eval_fits(b),
    ensures
        b.total() <= 100_000,
{
    assert(piece_max(b) >= 1000) by {
        assert(b.geo.dimension * b.geo.side >= 0) by (nonlinear_arith);
    }
    assert(b.total() <= 100_000) by (nonlinear_arith)
        requires
            b.total() * piece_max(b) <= 100_000_000,
            piece_max(b) >= 1000,
    ;
}

/// The index of the first best-scored entry of `scores` not yet `done`, if any.
fn next_best(scores: &Vec<i32>, done: &Vec<bool>) -> (r: Option<usize>)
    requires
        scores.len() == done.len(),
    ensures
        r matches Some(j) ==> j < scores.len() && !done[j as int],
        r is None ==> forall|j: int| 0 <= j < done.len() ==> done[j],
{
    let mut best: Option<usize> = None;
    let mut j: usize = 0;
    while j < scores.len()
        invariant
            scores.len() == done.len(),
            j <= scores.len(),
            best matches Some(b) ==> b < j && !done[b as int],
            best is None ==> forall|k: int| 0 <= k < j ==> done[k],
        decreases scores.len() - j,
    {
        if !done[j] {
            best = match best {
                Some(b) => if scores[j] > scores[b] {
                    Some(j)
                } else {
                    Some(b)
                },
                None => Some(j),
            };
        }
        j += 1;
    }
    best
}

/// The move can be made on `b` and taken back, and is no promotion to a king.
pub open spec fn playable(b: Board, mv: Move) -> bool {
    &&& move_ok(b, mv)
    &&& undoable(b, mv)
    &&& mv.promotion != Some(PieceType::King)
}

/// Both squares of the move have as many coordinates as the board has axes.
pub open spec fn fits_dims(b: Board, mv: Move) -> bool {
    mv.from@.len() == b.geo.dimension && mv.to@.len() == b.geo.dimension
}

/// The static exchange is asked about a move whose source holds a piece.
pub open spec fn see_asked(b: Board, mv: Move) -> bool {
    b.spec_index(mv.from@) matches Some(f) && b.piece_at(f as int) is Some
}

/// The quiescence search makes the loud move `mv` on `c`: it fits the board, can be made
/// and taken back, and does not lose material by static exchange.
pub open spec fn q_tried(c: Board, mv: Move) -> bool {
    &&& fits_dims(c, mv)
    &&& playable(c, mv)
    &&& see_asked(c, mv) ==> exists|v: int| #[trigger] see_result(c, mv, v) && v >= 0
}

/// The quiescence search passes over the loud move `mv` on `c`: it does not fit the
/// board, loses material by static exchange, or cannot be made and taken back.
pub open spec fn q_passed(c: Board, mv: Move) -> bool {
    ||| !fits_dims(c, mv)
    ||| see_asked(c, mv) && exists|v: int| #[trigger] see_result(c, mv, v) && v < 0
    ||| !playable(c, mv)
}

/// The higher of `x` and `y`.
pub open spec fn raised(x: int, y: int) -> int {
    if x > y {
        x
    } else {
        y
    }
}

/// The lower bound `a` raised by each score of `s` in turn.
pub open spec fn alpha_after(a: int, s: Seq<int>) -> int
    decreases s.len(),
{
    if s.len() == 0 {
        a
    } else {
        raised(s.last(), alpha_after(a, s.drop_last()))
    }
}

/// What a fail-hard node answers from the scores `s` of the moves it searched in turn
/// from the lower bound `a0`: `beta` when the last one reached it, else the raised bound.
pub open spec fn q_result(a0: int, beta: int, s: Seq<int>) -> int {
    if s.len() > 0 && s.last() >= beta {
        beta
    } else {
        alpha_after(a0, s)
    }
}

/// The number of loud moves in a row the quiescence search allows from `b`: twice the
/// number of cells plus two, at most 2,000,002.
pub open spec fn q_budget(b: Board) -> nat {
    if b.geo.total_cells < 1_000_000 {
        (b.geo.total_cells * 2 + 2) as nat
    } else {
        2_000_002
    }
}

/// `r` is the value of the quiescence search of `b` for `player` in `alpha`..`beta` with
/// at most `budget` loud moves in a row, without a table and without a stop: `alpha` for
/// a board that is not `searchable`; `beta` when the static score reaches it; else, from
/// the static score or `alpha` whichever is higher, the bound after the loud moves tried
/// (see `q_frame`), each scored by the negated value of the opponent's search of the
/// board it gave, in the window `-beta..-alpha_after(a0, s.take(k))`; or that bound at
/// once when the budget is spent.
pub open spec fn q_value(b: Board, alpha: int, beta: int, player: Player, budget: nat, r: int) -> bool
    decreases budget,
{
    if !searchable(b) {
        r == alpha
    } else if static_score(b, player) >= beta {
        r == beta
    } else {
        if budget == 0 {
            r == raised(static_score(b, player), alpha)
        } else {
            exists|l: Seq<Move>, idx: Seq<int>, bs: Seq<Board>, ms: Seq<Board>, s: Seq<int>|
                #[trigger] q_frame(b, player, raised(static_score(b, player), alpha), beta, l, idx, bs, ms, s)
                    && r == q_result(raised(static_score(b, player), alpha), beta, s) && forall|k: int|
                    0 <= k < s.len() ==> q_value(
                        #[trigger] ms[k],
                        -beta,
                        -alpha_after(raised(static_score(b, player), alpha), s.take(k)),
                        player.spec_opponent(),
                        (budget - 1) as nat,
                        -s[k],
                    )
        }
    }
}

/// The loud moves `l` of `player` on `b` were searched from the bound `a0` below `beta`:
/// the moves `l[idx[k]]`, each once, were made in turn, the `k`-th on `bs[k]` (holding the
/// position of `b`) giving `ms[k]` and the score `s[k]`; no score but the last reached
/// `beta`, and when none did every move not made was passed over.
pub open spec fn q_frame(
    b: Board,
    player: Player,
    a0: int,
    beta: int,
    l: Seq<Move>,
    idx: Seq<int>,
    bs: Seq<Board>,
    ms: Seq<Board>,
    s: Seq<int>,
) -> bool {
    &&& loud_list(b, player, l)
    &&& idx.len() == s.len()
    &&& bs.len() == s.len()
    &&& ms.len() == s.len()
    &&& forall|k: int| 0 <= k < idx.len() ==> 0 <= #[trigger] idx[k] < l.len()
    &&& forall|k1: int, k2: int| 0 <= k1 < k2 < idx.len() ==> idx[k1] != idx[k2]
    &&& forall|k: int|
        0 <= k < s.len() ==> {
            &&& same_position(#[trigger] bs[k], b)
            &&& q_tried(bs[k], l[idx[k]])
            &&& applied(bs[k], l[idx[k]], ms[k])
        }
    &&& forall|k: int| 0 <= k < s.len() - 1 ==> #[trigger] s[k] < beta
    &&& (s.len() > 0 && s.last() >= beta) || forall|j: int|
        0 <= j < l.len() && !idx.contains(j) ==> exists|c: Board|
            #![trigger q_passed(c, l[j])]
            same_position(c, b) && q_passed(c, l[j])
}

/// A node whose loud moves were searched as `q_frame` describes, each scored by the
/// value of the search below it, has the value `q_result` gives.
proof fn lemma_q_value_intro(
    b: Board,
    alpha: int,
    beta: int,
    player: Player,
    budget: nat,
    a0: int,
    l: Seq<Move>,
    idx: Seq<int>,
    bs: Seq<Board>,
    ms: Seq<Board>,
    s: Seq<int>,
    r: int,
)
    requires
        searchable(b),
        static_score(b, player) < beta,
        a0 == raised(static_score(b, player), alpha),
        budget > 0,
        q_frame(b, player, a0, beta, l, idx, bs, ms, s),
        q_kids(ms, s, a0, beta, player, budget),
        r == q_result(a0, beta, s),
    ensures
        q_value(b, alpha, beta, player, budget, r),
{
    assert(q_frame(b, player, a0, beta, l, idx, bs, ms, s));
}

/// The number of entries of `s` that are false.
pub open spec fn count_false(s: Seq<bool>) -> nat
    decreases s.len(),
{
    if s.len() == 0 {
        0
    } else {
        count_false(s.drop_last()) + if s.last() {
            0nat
        } else {
            1nat
        }
    }
}

/// Setting a false entry to true leaves one false entry less.
pub proof fn lemma_count_false_set(s: Seq<bool>, j: int)
    requires
        0 <= j < s.len(),
        !s[j],
    ensures
        count_false(s.update(j, true)) + 1 == count_false(s),
    decreases s.len(),
{
    let t = s.update(j, true);
    if j < s.len() - 1 {
        assert(t.drop_last() =~= s.drop_last().update(j, true));
        lemma_count_false_set(s.drop_last(), j);
    } else {
        assert(t.drop_last() =~= s.drop_last());
    }
}

/// The loud moves passed over stay passed over when one more entry is marked done after
/// being passed over on `c`.
proof fn lemma_passed_kept(
    done0: Seq<bool>,
    done1: Seq<bool>,
    gidx: Seq<int>,
    j: int,
    l: Seq<Move>,
    b0: Board,
    c: Board,
)
    requires
        done0.len() == l.len(),
        0 <= j < l.len(),
        done1 == done0.update(j, true),
        same_position(c, b0),
        q_passed(c, l[j]),
        forall|i: int|
            0 <= i < l.len() && done0[i] && !gidx.contains(i) ==> exists|c: Board|
                #![trigger q_passed(c, l[i])]
                same_position(c, b0) && q_passed(c, l[i]),
    ensures
        forall|i: int|
            0 <= i < l.len() && done1[i] && !gidx.contains(i) ==> exists|c: Board|
                #![trigger q_passed(c, l[i])]
                same_position(c, b0) && q_passed(c, l[i]),
{
    assert forall|i: int| 0 <= i < l.len() && done1[i] && !gidx.contains(i) implies exists|c: Board|
        #![trigger q_passed(c, l[i])]
        same_position(c, b0) && q_passed(c, l[i]) by {
        if i == j {
            assert(same_position(c, b0) && q_passed(c, l[i]));
        } else {
            assert(done0[i]);
        }
    }
}

/// The loud moves passed over stay passed over when one more entry is marked done and
/// its move is made.
proof fn lemma_tried_kept(done0: Seq<bool>, done1: Seq<bool>, gidx0: Seq<int>, j: int, l: Seq<Move>, b0: Board)
    requires
        done0.len() == l.len(),
        0 <= j < l.len(),
        done1 == done0.update(j, true),
        forall|i: int|
            0 <= i < l.len() && done0[i] && !gidx0.contains(i) ==> exists|c: Board|
                #![trigger q_passed(c, l[i])]
                same_position(c, b0) && q_passed(c, l[i]),
    ensures
        forall|i: int|
            0 <= i < l.len() && done1[i] && !gidx0.push(j).contains(i) ==> exists|c: Board|
                #![trigger q_passed(c, l[i])]
                same_position(c, b0) && q_passed(c, l[i]),
{
    assert forall|i: int| 0 <= i < l.len() && done1[i] && !gidx0.push(j).contains(i) implies exists|c: Board|
        #![trigger q_passed(c, l[i])]
        same_position(c, b0) && q_passed(c, l[i]) by {
        if i == j {
            assert(gidx0.push(j)[gidx0.len() as int] == j);
        } else {
            assert(done0[i]);
            if gidx0.contains(i) {
                let w = choose|w: int| 0 <= w < gidx0.len() && gidx0[w] == i;
                assert(gidx0.push(j)[w] == i);
            }
        }
    }
}

/// Each move made was scored by the negated value of the opponent's quiescence search of
/// the board it gave, in the window its turn left.
pub open spec fn q_kids(ms: Seq<Board>, s: Seq<int>, a0: int, beta: int, player: Player, budget: nat) -> bool {
    forall|k: int|
        0 <= k < s.len() ==> q_value(
            #[trigger] ms[k],
            -beta,
            -alpha_after(a0, s.take(k)),
            player.spec_opponent(),
            (budget - 1) as nat,
            -s[k],
        )
}

/// One more move scored after the others keeps `q_kids`.
proof fn lemma_q_kids_push(
    ms: Seq<Board>,
    s: Seq<int>,
    a0: int,
    beta: int,
    player: Player,
    budget: nat,
    m: Board,
    x: int,
)
    requires
        ms.len() == s.len(),
        q_kids(ms, s, a0, beta, player, budget),
        q_value(m, -beta, -alpha_after(a0, s), player.spec_opponent(), (budget - 1) as nat, -x),
    ensures
        q_kids(ms.push(m), s.push(x), a0, beta, player, budget),
{
    lemma_take_push(s, x);
    assert forall|k: int| 0 <= k < s.len() + 1 implies q_value(
        #[trigger] ms.push(m)[k],
        -beta,
        -alpha_after(a0, s.push(x).take(k)),
        player.spec_opponent(),
        (budget - 1) as nat,
        -s.push(x)[k],
    ) by {
        if k < s.len() {
            assert(ms.push(m)[k] == ms[k]);
            assert(s.push(x).take(k) == s.take(k));
        } else {
            assert(s.push(x).take(k) == s);
        }
    }
}

/// At most every entry is false, and every one is when none is true.
pub proof fn lemma_count_false_bound(s: Seq<bool>)
    ensures
        count_false(s) <= s.len(),
        (forall|j: int| 0 <= j < s.len() ==> !s[j]) ==> count_false(s) == s.len(),
    decreases s.len(),
{
    if s.len() > 0 {
        lemma_count_false_bound(s.drop_last());
    }
}

/// Pushing a score keeps the prefixes before it.
pub(crate) proof fn lemma_take_push(s: Seq<int>, x: int)
    ensures
        forall|k: int| 0 <= k <= s.len() ==> #[trigger] s.push(x).take(k) == s.take(k),
        s.push(x).take(s.len() as int) == s,
        s.push(x).drop_last() == s,
{
    assert forall|k: int| 0 <= k <= s.len() implies #[trigger] s.push(x).take(k) == s.take(k) by {
        assert(s.push(x).take(k) =~= s.take(k));
    }
    assert(s.push(x).take(s.len() as int) =~= s);
    assert(s.push(x).drop_last() =~= s);
}

/// The quiescence search below `alpha`..`beta` for `player`, with at most `budget` loud
/// moves in a row (see `q_search`); the flag tells whether a stop was seen.
#[verifier::spinoff_prover]
#[verifier::rlimit(80)]
fn q_search_within(
    board: &mut Board,
    alpha_in: i32,
    beta: i32,
    player: Player,
    nodes: &AtomicUsize,
    stop: &AtomicBool,
    tt: Option<&LockFreeTT>,
    budget: usize,
) -> (r: (i32, bool))
    requires
        old(board).wf(),
        tt matches Some(t) ==> t.wf(),
        -i32::MAX <= alpha_in,
        -i32::MAX <= beta,
    ensures
        final(board).wf(),
        same_position(*final(board), *old(board)),
        -i32::MAX <= r.0,
        !r.1 && tt is None ==> q_value(*old(board), alpha_in as int, beta as int, player, budget as nat, r.0 as int),
    decreases budget,
{
    let ghost b0 = *board;
    if count_node(nodes) % 4096 == 0 && stop_requested(stop) {
        return (0, true);
    }
    let hash = board.state.hash;
    let mut alpha = alpha_in;
    match probe(tt, hash) {
        Some((tt_score, _, tt_flag, _)) => {
            match tt_flag {
                Flag::Exact => {
                    return (tt_score, false);
                },
                Flag::LowerBound => {
                    if tt_score > alpha {
                        alpha = tt_score;
                    }
                },
                Flag::UpperBound => {},
            }
            if alpha >= beta {
                return (tt_score, false);
            }
        },
        None => {},
    }
    if !is_searchable(board) {
        return (alpha, false);
    }
    let stand = stand_pat(board, player);
    if stand >= beta {
        return (beta, false);
    }
    if stand > alpha {
        alpha = stand;
    }
    if budget == 0 {
        return (alpha, false);
    }
    let ghost a0 = alpha as int;
    proof {
        lemma_fits_small(b0);
    }
    let loud = board.generate_loud_moves(player).into_vec();
    let dim = board.geo.dimension;
    let mut scores: Vec<i32> = Vec::new();
    let mut done: Vec<bool> = Vec::new();
    let mut i: usize = 0;
    while i < loud.len()
        invariant
            board.wf(),
            same_position(*board, b0),
            searchable(b0),
            dim == b0.geo.dimension,
            i <= loud.len(),
            scores.len() == i,
            done.len() == i,
            forall|j: int| 0 <= j < i ==> !done[j],
        decreases loud.len() - i,
    {
        let m = &loud[i];
        let victim = if m.to.values.len() == dim {
            proof {
                crate::representation::lemma_cell_count_monotone(b0.geo.side as nat, dim as nat, dim as nat);
            }
            match board.coords_to_index(m.to.values.as_slice()) {
                Some(t) => get_piece_value(board, t),
                None => 0,
            }
        } else {
            0
        };
        scores.push(victim);
        done.push(false);
        i += 1;
    }
    let mut stopped = false;
    let ghost mut gidx: Seq<int> = Seq::empty();
    let ghost mut gbs: Seq<Board> = Seq::empty();
    let ghost mut gms: Seq<Board> = Seq::empty();
    let ghost mut gs: Seq<int> = Seq::empty();
    loop
        invariant
            board.wf(),
            same_position(*board, b0),
            searchable(b0),
            b0.total() <= 100_000,
            dim == b0.geo.dimension,
            tt matches Some(t) ==> t.wf(),
            scores.len() == loud.len(),
            done.len() == loud.len(),
            -i32::MAX <= alpha,
            -i32::MAX <= beta,
            b0 == *old(board),
            budget > 0,
            loud_list(b0, player, loud@),
            alpha as int == alpha_after(a0, gs),
            tt is None ==> a0 == raised(static_score(b0, player), alpha_in as int),
            static_score(b0, player) < beta,
            gidx.len() == gs.len(),
            gbs.len() == gs.len(),
            gms.len() == gs.len(),
            forall|k: int| 0 <= k < gidx.len() ==> 0 <= #[trigger] gidx[k] < loud.len() && done[gidx[k]],
            forall|k1: int, k2: int| 0 <= k1 < k2 < gidx.len() ==> gidx[k1] != gidx[k2],
            forall|k: int| 0 <= k < gs.len() ==> #[trigger] gs[k] < beta,
            forall|j: int|
                0 <= j < loud.len() && done[j] && !gidx.contains(j) ==> exists|c: Board|
                    #![trigger q_passed(c, loud@[j])]
                    same_position(c, b0) && q_passed(c, loud@[j]),
            forall|k: int|
                0 <= k < gs.len() ==> {
                    &&& same_position(#[trigger] gbs[k], b0)
                    &&& q_tried(gbs[k], loud@[gidx[k]])
                    &&& applied(gbs[k], loud@[gidx[k]], gms[k])
                },
            !stopped && tt is None ==> q_kids(gms, gs, a0, beta as int, player, budget as nat),
        ensures
            board.wf(),
            same_position(*board, b0),
            alpha as int == alpha_after(a0, gs),
            forall|j: int| 0 <= j < loud.len() ==> done[j],
            gidx.len() == gs.len(),
            gbs.len() == gs.len(),
            gms.len() == gs.len(),
            forall|k: int| 0 <= k < gidx.len() ==> 0 <= #[trigger] gidx[k] < loud.len(),
            forall|k1: int, k2: int| 0 <= k1 < k2 < gidx.len() ==> gidx[k1] != gidx[k2],
            forall|k: int| 0 <= k < gs.len() ==> #[trigger] gs[k] < beta,
            forall|j: int|
                0 <= j < loud.len() && !gidx.contains(j) ==> exists|c: Board|
                    #![trigger q_passed(c, loud@[j])]
                    same_position(c, b0) && q_passed(c, loud@[j]),
            forall|k: int|
                0 <= k < gs.len() ==> {
                    &&& same_position(#[trigger] gbs[k], b0)
                    &&& q_tried(gbs[k], loud@[gidx[k]])
                    &&& applied(gbs[k], loud@[gidx[k]], gms[k])
                },
            !stopped && tt is None ==> q_kids(gms, gs, a0, beta as int, player, budget as nat),
        decreases count_false(done@),
    {
        let j = match next_best(&scores, &done) {
            Some(j) => j,
            None => {
                break;
            },
        };
        let ghost done0 = done@;
        let ghost gidx0 = gidx;
        proof {
            lemma_count_false_set(done@, j as int);
            assert(!gidx.contains(j as int));
        }
        done.set(j, true);
        let mv = &loud[j];
        if mv.from.values.len() != dim || mv.to.values.len() != dim {
            proof {
                assert(q_passed(*board, loud@[j as int]));
                lemma_passed_kept(done0, done@, gidx, j as int, loud@, b0, *board);
            }
            continue;
        }
        proof {
            crate::representation::lemma_cell_count_monotone(b0.geo.side as nat, dim as nat, dim as nat);
            lemma_same_position(*board, b0, *mv, player);
        }
        let see_ok = match board.coords_to_index(mv.from.values.as_slice()) {
            Some(fi) => board.get_piece_at_index(fi).is_some(),
            None => false,
        };
        assert(see_ok == see_asked(*board, *mv));
        if see_ok {
            let v = SEE::static_exchange_evaluation(board, mv);
            if v < 0 {
                proof {
                    assert(see_result(*board, *mv, v as int));
                    assert(q_passed(*board, loud@[j as int]));
                    lemma_passed_kept(done0, done@, gidx, j as int, loud@, b0, *board);
                }
                continue;
            }
            assert(see_result(*board, *mv, v as int));
        }
        let ghost bc = *board;
        assert(q_tried(bc, *mv) || !playable(bc, *mv));
        match play(board, mv) {
            None => {
                proof {
                    assert(q_passed(bc, loud@[j as int]));
                    lemma_passed_kept(done0, done@, gidx, j as int, loud@, b0, bc);
                }
            },
            Some(info) => {
                let ghost mid = *board;
                let (child, child_stopped) = q_search_within(
                    board,
                    -beta,
                    -alpha,
                    player.opponent(),
                    nodes,
                    stop,
                    tt,
                    budget - 1,
                );
                if child_stopped {
                    stopped = true;
                }
                let score = -child;
                take_back(board, mv, info, Ghost(bc), Ghost(mid));
                proof {
                    lemma_same_trans(*board, bc, b0);
                    lemma_take_push(gs, score as int);
                    if !stopped && tt is None {
                        lemma_q_kids_push(gms, gs, a0, beta as int, player, budget as nat, mid, score as int);
                    }
                    gidx = gidx.push(j as int);
                    lemma_tried_kept(done0, done@, gidx0, j as int, loud@, b0);
                    gbs = gbs.push(bc);
                    gms = gms.push(mid);
                    gs = gs.push(score as int);
                }
                if score >= beta {
                    match tt {
                        Some(t) => {
                            t.store(hash, score, 0, Flag::LowerBound, None);
                        },
                        None => {},
                    }
                    proof {
                        if !stopped && tt is None {
                            assert(gs.last() == score);
                            lemma_q_value_intro(b0, alpha_in as int, beta as int, player, budget as nat, a0, loud@, gidx, gbs, gms, gs, beta as int);
                        }
                    }
                    return (beta, stopped);
                }
                if score > alpha {
                    alpha = score;
                }
            },
        }
    }
    proof {
        if !stopped && tt is None {
            if gs.len() > 0 {
                assert(gs[gs.len() - 1] < beta);
            }
            assert(q_result(a0, beta as int, gs) == alpha as int);
            lemma_q_value_intro(b0, alpha_in as int, beta as int, player, budget as nat, a0, loud@, gidx, gbs, gms, gs, alpha as int);
        }
    }
    (alpha, stopped)
}

/// The quiescence search: the stand-pat score (the static score from `player`'s side)
/// bounds the result from below, and only loud moves (captures, promotions, en passant)
/// that do not lose material by static exchange are searched, best victim first; a table
/// entry for the position may answer at once, and a stop request answers 0. Chains of loud
/// moves are cut after twice the number of cells plus two moves, more than captures and
/// promotions can make. A board that is not `searchable` answers `alpha` (or the table's
/// entry). The board holds the same position afterwards. The flag tells whether a stop
/// was seen; without a table and a stop the score is the one `q_value` describes.
pub fn q_search(
    board: &mut Board,
    alpha: i32,
    beta: i32,
    player: Player,
    nodes: &AtomicUsize,
    stop: &AtomicBool,
    tt: Option<&LockFreeTT>,
) -> (r: (i32, bool))
    requires
        old(board).wf(),
        tt matches Some(t) ==> t.wf(),
        -i32::MAX <= alpha,
        -i32::MAX <= beta,
    ensures
        final(board).wf(),
        same_position(*final(board), *old(board)),
        -i32::MAX <= r.0,
        !r.1 && tt is None ==> q_value(*old(board), alpha as int, beta as int, player, q_budget(*old(board)), r.0 as int),
{
    let total = board.geo.total_cells;
    let budget: usize = if total < 1_000_000 {
        total * 2 + 2
    } else {
        2_000_002
    };
    q_search_within(board, alpha, beta, player, nodes, stop, tt, budget)
}

/// No move of `player` is legal: no pseudo-legal move is kept (it can be made and leaves
/// the king safe) and no castling move is open.
pub open spec fn no_legal_moves(b: Board, player: Player) -> bool {
    &&& forall|m: Move|
        #[trigger] crate::movegen::pseudo_legal(b, player).contains(crate::movegen::mview(m))
            ==> !crate::legal::keep(b, player)(m)
    &&& crate::movegen::castling_moves(b, player).len() == 0
}

/// A list of the legal moves is empty when no move is legal.
pub(crate) proof fn lemma_no_legal_empty(b: Board, player: Player, l: Seq<Move>)
    requires
        no_legal_moves(b, player),
        crate::legal::legal_list(b, player, l),
    ensures
        l.len() == 0,
{
    let f = crate::legal::keep(b, player);
    let p = choose|p: Seq<Move>|
        #![trigger p.filter(f)]
        crate::movegen::views(p) == crate::movegen::pseudo_legal(b, player) && crate::movegen::views(l)
            == crate::movegen::views(p.filter(f)) + crate::movegen::castling_moves(b, player);
    if p.filter(f).len() > 0 {
        let x = p.filter(f)[0];
        p.lemma_filter_pred(f, 0);
        assert(p.filter(f).contains(x));
        p.lemma_filter_contains_rev(f, x);
        let i = choose|i: int| 0 <= i < p.len() && p[i] == x;
        assert(crate::movegen::views(p)[i] == crate::movegen::mview(x));
        assert(crate::movegen::pseudo_legal(b, player).contains(crate::movegen::mview(x)));
    }
    assert(crate::movegen::views(l).len() == 0);
}

/// What a table entry `probe` answers at once for a search of `depth` plies in
/// `alpha`..`beta`: an entry at least as deep answers with its score when exact, when a
/// lower bound lifts `alpha` to `beta`, or when an upper bound brings `beta` down to `alpha`.
pub open spec fn tt_cut(probe: Option<(i32, u8, Flag, Option<PackedMove>)>, depth: int, alpha: int, beta: int) -> Option<int> {
    match probe {
        Some((s, d, f, _)) => if d >= depth {
            match f {
                Flag::Exact => Some(s as int),
                Flag::LowerBound => if (if s > alpha { s as int } else { alpha }) >= beta {
                    Some(s as int)
                } else {
                    None
                },
                Flag::UpperBound => if alpha >= (if s < beta { s as int } else { beta }) {
                    Some(s as int)
                } else {
                    None
                },
            }
        } else {
            None
        },
        None => None,
    }
}

/// The score of a node with no legal move in the shallow search: mated, `-30000` plus
/// `100 - depth`; else a draw.
pub open spec fn shallow_terminal(b: Board, player: Player, depth: int) -> int {
    if crate::movegen::king_in_check(b, player) {
        -CHECKMATE_SCORE + (100 - depth)
    } else {
        0
    }
}

/// The promotion code kept in the table: queen 1, rook 2, bishop 3, knight 4, else 0.
fn promotion_code(p: Option<PieceType>) -> (r: u8)
    ensures
        r < 16,
{
    match p {
        Some(PieceType::Queen) => 1,
        Some(PieceType::Rook) => 2,
        Some(PieceType::Bishop) => 3,
        Some(PieceType::Knight) => 4,
        _ => 0,
    }
}

/// The move as the table keeps it, when its cells fit: the source below 65536 and the
/// target below 1024.
pub(crate) fn pack_move(board: &Board, mv: &Move) -> (r: Option<PackedMove>)
    requires
        board.wf(),
    ensures
        r matches Some(m) ==> m.to_idx < 1024,
{
    let dim = board.geo.dimension;
    if mv.from.values.len() != dim || mv.to.values.len() != dim {
        return None;
    }
    proof {
        crate::representation::lemma_cell_count_monotone(board.geo.side as nat, dim as nat, dim as nat);
    }
    match (board.coords_to_index(mv.from.values.as_slice()), board.coords_to_index(mv.to.values.as_slice())) {
        (Some(f), Some(t)) => if f < 65536 && t < 1024 {
            Some(PackedMove { from_idx: f as u16, to_idx: t as u16, promotion: promotion_code(mv.promotion) })
        } else {
            None
        },
        _ => None,
    }
}

/// The bound kind of a score `best` found in `alpha0`..`beta`.
fn bound_kind(best: i32, alpha0: i32, beta: i32) -> (r: Flag) {
    if best <= alpha0 {
        Flag::UpperBound
    } else if best >= beta {
        Flag::LowerBound
    } else {
        Flag::Exact
    }
}

/// The order key of a move in the shallow search: the value of the piece taken, 500 more
/// for a promotion, 200000 more for the table's move.
fn shallow_key(board: &Board, mv: &Move, tt_move: Option<(u16, u16)>) -> (r: i32)
    requires
        board.wf(),
{
    let dim = board.geo.dimension;
    if mv.from.values.len() != dim || mv.to.values.len() != dim {
        return 0;
    }
    proof {
        crate::representation::lemma_cell_count_monotone(board.geo.side as nat, dim as nat, dim as nat);
    }
    let from_idx: usize = match board.coords_to_index(mv.from.values.as_slice()) {
        Some(i) => i,
        None => 0,
    };
    let to_idx: usize = match board.coords_to_index(mv.to.values.as_slice()) {
        Some(i) => i,
        None => 0,
    };
    let victim = if to_idx < board.geo.total_cells {
        get_piece_value(board, to_idx)
    } else {
        0
    };
    let promo: i32 = if mv.promotion.is_some() {
        500
    } else {
        0
    };
    let tt_bonus: i32 = match tt_move {
        Some((tf, tt_to)) => if from_idx % 65536 == tf as usize && to_idx % 65536 == tt_to as usize {
            200000
        } else {
            0
        },
        None => 0,
    };
    victim + promo + tt_bonus
}

/// `r` is the value of the shallow search of `b` for `player` at `depth` plies in
/// `alpha`..`beta`, without a table and without a stop: the quiescence search at depth 0;
/// `alpha` for a board that is not `searchable`; with no legal move, mated or drawn
/// (`shallow_terminal`); else the best of the scores of the legal moves searched in turn
/// (see `sh_frame`), each the negated value of the opponent's search one ply less deep in
/// the window `-beta..-alpha_after(alpha, s.take(k))`.
pub open spec fn sh_value(b: Board, depth: nat, alpha: int, beta: int, player: Player, r: int) -> bool
    decreases depth,
{
    if depth == 0 {
        q_value(b, alpha, beta, player, q_budget(b), r)
    } else if !searchable(b) {
        r == alpha
    } else {
        exists|l: Seq<Move>, idx: Seq<int>, bs: Seq<Board>, ms: Seq<Board>, s: Seq<int>|
            #[trigger] sh_frame(b, player, alpha, beta, l, idx, bs, ms, s) && r == (if l.len() == 0 {
                shallow_terminal(b, player, depth as int)
            } else {
                alpha_after(-i32::MAX as int, s)
            }) && forall|k: int|
                0 <= k < s.len() ==> sh_value(
                    #[trigger] ms[k],
                    (depth - 1) as nat,
                    -beta,
                    -alpha_after(alpha, s.take(k)),
                    player.spec_opponent(),
                    -s[k],
                )
    }
}

/// The legal moves `l` of `player` on `b` were searched from the bound `alpha` below
/// `beta`: the moves `l[idx[k]]`, each once, were made in turn, the `k`-th on `bs[k]`
/// (holding the position of `b`) giving `ms[k]` and the score `s[k]`; the bound reached
/// `beta` after the last one only, and when it did not, every move not made cannot be
/// made and taken back.
pub open spec fn sh_frame(
    b: Board,
    player: Player,
    alpha: int,
    beta: int,
    l: Seq<Move>,
    idx: Seq<int>,
    bs: Seq<Board>,
    ms: Seq<Board>,
    s: Seq<int>,
) -> bool {
    &&& legal_list(b, player, l)
    &&& idx.len() == s.len()
    &&& bs.len() == s.len()
    &&& ms.len() == s.len()
    &&& forall|k: int| 0 <= k < idx.len() ==> 0 <= #[trigger] idx[k] < l.len()
    &&& forall|k1: int, k2: int| 0 <= k1 < k2 < idx.len() ==> idx[k1] != idx[k2]
    &&& forall|k: int|
        0 <= k < s.len() ==> {
            &&& same_position(#[trigger] bs[k], b)
            &&& playable(bs[k], l[idx[k]])
            &&& applied(bs[k], l[idx[k]], ms[k])
        }
    &&& forall|k: int| 0 <= k < s.len() - 1 ==> alpha_after(alpha, #[trigger] s.take(k + 1)) < beta
    &&& (s.len() > 0 && alpha_after(alpha, s) >= beta) || forall|j: int|
        0 <= j < l.len() && !idx.contains(j) ==> !playable(b, #[trigger] l[j])
}

/// Each move made was scored by the negated value of the opponent's shallow search one
/// ply less deep, in the window its turn left.
pub open spec fn sh_kids(ms: Seq<Board>, s: Seq<int>, depth: nat, alpha: int, beta: int, player: Player) -> bool {
    forall|k: int|
        0 <= k < s.len() ==> sh_value(
            #[trigger] ms[k],
            (depth - 1) as nat,
            -beta,
            -alpha_after(alpha, s.take(k)),
            player.spec_opponent(),
            -s[k],
        )
}

/// One more move scored after the others keeps `sh_kids`.
proof fn lemma_sh_kids_push(
    ms: Seq<Board>,
    s: Seq<int>,
    depth: nat,
    alpha: int,
    beta: int,
    player: Player,
    m: Board,
    x: int,
)
    requires
        ms.len() == s.len(),
        sh_kids(ms, s, depth, alpha, beta, player),
        sh_value(m, (depth - 1) as nat, -beta, -alpha_after(alpha, s), player.spec_opponent(), -x),
    ensures
        sh_kids(ms.push(m), s.push(x), depth, alpha, beta, player),
{
    lemma_take_push(s, x);
    assert forall|k: int| 0 <= k < s.len() + 1 implies sh_value(
        #[trigger] ms.push(m)[k],
        (depth - 1) as nat,
        -beta,
        -alpha_after(alpha, s.push(x).take(k)),
        player.spec_opponent(),
        -s.push(x)[k],
    ) by {
        if k < s.len() {
            assert(ms.push(m)[k] == ms[k]);
            assert(s.push(x).take(k) == s.take(k));
        } else {
            assert(s.push(x).take(k) == s);
        }
    }
}

/// A node whose legal moves were searched as `sh_frame` describes, each scored by the
/// value of the search below it, has the value `sh_value` gives.
proof fn lemma_sh_value_intro(
    b: Board,
    depth: nat,
    alpha: int,
    beta: int,
    player: Player,
    l: Seq<Move>,
    idx: Seq<int>,
    bs: Seq<Board>,
    ms: Seq<Board>,
    s: Seq<int>,
    r: int,
)
    requires
        depth > 0,
        searchable(b),
        sh_frame(b, player, alpha, beta, l, idx, bs, ms, s),
        sh_kids(ms, s, depth, alpha, beta, player),
        r == (if l.len() == 0 {
            shallow_terminal(b, player, depth as int)
        } else {
            alpha_after(-i32::MAX as int, s)
        }),
    ensures
        sh_value(b, depth, alpha, beta, player, r),
{
    assert(sh_frame(b, player, alpha, beta, l, idx, bs, ms, s));
}

/// The moves passed over stay unplayable when one more entry is marked done, either
/// because its move was made or because it cannot be made.
proof fn lemma_unplayable_kept(
    done0: Seq<bool>,
    done1: Seq<bool>,
    gidx0: Seq<int>,
    gidx1: Seq<int>,
    j: int,
    l: Seq<Move>,
    b0: Board,
)
    requires
        done0.len() == l.len(),
        0 <= j < l.len(),
        done1 == done0.update(j, true),
        gidx1 == gidx0.push(j) || (gidx1 == gidx0 && !playable(b0, l[j])),
        forall|i: int| 0 <= i < l.len() && done0[i] && !gidx0.contains(i) ==> !playable(b0, #[trigger] l[i]),
    ensures
        forall|i: int| 0 <= i < l.len() && done1[i] && !gidx1.contains(i) ==> !playable(b0, #[trigger] l[i]),
{
    assert forall|i: int| 0 <= i < l.len() && done1[i] && !gidx1.contains(i) implies !playable(b0, #[trigger] l[i]) by {
        if gidx1 == gidx0.push(j) {
            if i == j {
                assert(gidx1[gidx0.len() as int] == j);
            } else {
                assert(done0[i]);
                if gidx0.contains(i) {
                    let w = choose|w: int| 0 <= w < gidx0.len() && gidx0[w] == i;
                    assert(gidx1[w] == i);
                }
            }
        } else if i != j {
            assert(done0[i]);
        }
    }
}

/// A node of the shallow search once the table entry `probe` of the position was read
/// (see `minimax_shallow`): the entry's cutoff answers at once (`tt_cut`); else at depth 0
/// the quiescence search answers; else with no legal move the node is mated or drawn
/// (`shallow_terminal`); else the legal moves are searched best key first (`shallow_key`),
/// one ply less deep, until the bound reaches `beta`, and the best score is stored in the
/// table with its move. The flag tells whether a stop was seen; without a table and a
/// stop the score is the one `sh_value` describes.
#[verifier::spinoff_prover]
#[verifier::rlimit(80)]
pub fn shallow_node(
    board: &mut Board,
    depth: usize,
    alpha_in: i32,
    beta_in: i32,
    player: Player,
    nodes: &AtomicUsize,
    stop: &AtomicBool,
    tt: Option<&LockFreeTT>,
    probe: Option<(i32, u8, Flag, Option<PackedMove>)>,
) -> (r: (i32, bool))
    requires
        old(board).wf(),
        tt matches Some(t) ==> t.wf(),
        tt is None ==> probe is None,
        -i32::MAX <= alpha_in,
        -i32::MAX <= beta_in,
        depth <= 10_000,
        probe matches Some(e) ==> -32768 <= e.0 <= 32767,
    ensures
        final(board).wf(),
        same_position(*final(board), *old(board)),
        -i32::MAX <= r.0,
        tt_cut(probe, depth as int, alpha_in as int, beta_in as int) matches Some(v) ==> r.0 == v,
        tt_cut(probe, depth as int, alpha_in as int, beta_in as int) is None && depth > 0 && searchable(
            *old(board),
        ) && no_legal_moves(*old(board), player) ==> r.0 == shallow_terminal(*old(board), player, depth as int),
        !r.1 && tt is None ==> sh_value(*old(board), depth as nat, alpha_in as int, beta_in as int, player, r.0 as int),
    decreases depth, 0nat,
{
    let ghost b0 = *board;
    let hash = board.state.hash;
    let mut alpha = alpha_in;
    let mut beta = beta_in;
    let mut tt_move: Option<(u16, u16)> = None;
    match probe {
        Some((tt_score, tt_depth, tt_flag, best_m)) => {
            match best_m {
                Some(pm) => {
                    tt_move = Some((pm.from_idx, pm.to_idx));
                },
                None => {},
            }
            if tt_depth as usize >= depth {
                match tt_flag {
                    Flag::Exact => {
                        return (tt_score, false);
                    },
                    Flag::LowerBound => {
                        if tt_score > alpha {
                            alpha = tt_score;
                        }
                    },
                    Flag::UpperBound => {
                        if tt_score < beta {
                            beta = tt_score;
                        }
                    },
                }
                if alpha >= beta {
                    return (tt_score, false);
                }
            }
        },
        None => {},
    }
    let alpha0 = alpha;
    if depth == 0 {
        return q_search(board, alpha, beta, player, nodes, stop, tt);
    }
    if !is_searchable(board) {
        return (alpha, false);
    }
    let moves = board.generate_legal_moves(player).into_vec();
    if moves.len() == 0 {
        proof {
            crate::movegen::lemma_check_congruent(*board, b0, player);
            if tt is None {
                lemma_sh_value_intro(b0, depth as nat, alpha as int, beta as int, player, moves@, Seq::empty(), Seq::empty(), Seq::empty(), Seq::empty(), shallow_terminal(b0, player, depth as int));
            }
        }
        if board.in_check(player) {
            return (-CHECKMATE_SCORE + (100 - depth as i32), false);
        }
        return (0, false);
    }
    proof {
        if no_legal_moves(b0, player) {
            lemma_no_legal_empty(b0, player, moves@);
        }
    }
    let dim = board.geo.dimension;
    let mut keys: Vec<i32> = Vec::new();
    let mut done: Vec<bool> = Vec::new();
    let mut i: usize = 0;
    while i < moves.len()
        invariant
            board.wf(),
            i <= moves.len(),
            keys.len() == i,
            done.len() == i,
            forall|j: int| 0 <= j < i ==> !done[j],
        decreases moves.len() - i,
    {
        keys.push(shallow_key(board, &moves[i], tt_move));
        done.push(false);
        i += 1;
    }
    let mut best_score: i32 = -i32::MAX;
    let mut best_move: Option<PackedMove> = None;
    let mut stopped = false;
    let mut cut = false;
    let ghost mut gidx: Seq<int> = Seq::empty();
    let ghost mut gbs: Seq<Board> = Seq::empty();
    let ghost mut gms: Seq<Board> = Seq::empty();
    let ghost mut gs: Seq<int> = Seq::empty();
    loop
        invariant_except_break
            !cut,
            forall|k: int| 0 <= k < gs.len() ==> alpha_after(alpha0 as int, #[trigger] gs.take(k + 1)) < beta,
        invariant
            board.wf(),
            same_position(*board, b0),
            searchable(b0),
            dim == b0.geo.dimension,
            crate::legal::dims_ok(moves@, dim as nat),
            legal_list(b0, player, moves@),
            moves.len() > 0,
            tt matches Some(t) ==> t.wf(),
            keys.len() == moves.len(),
            done.len() == moves.len(),
            -i32::MAX <= alpha0,
            -i32::MAX <= beta,
            tt is None ==> alpha0 == alpha_in && beta == beta_in,
            -i32::MAX <= alpha,
            -i32::MAX <= best_score,
            best_move matches Some(m) ==> m.to_idx < 1024,
            alpha as int == alpha_after(alpha0 as int, gs),
            best_score as int == alpha_after(-i32::MAX as int, gs),
            b0 == *old(board),
            0 < depth <= 10_000,
            gidx.len() == gs.len(),
            gbs.len() == gs.len(),
            gms.len() == gs.len(),
            forall|k: int| 0 <= k < gidx.len() ==> 0 <= #[trigger] gidx[k] < moves.len() && done[gidx[k]],
            forall|k1: int, k2: int| 0 <= k1 < k2 < gidx.len() ==> gidx[k1] != gidx[k2],
            forall|j: int| 0 <= j < moves.len() && done[j] && !gidx.contains(j) ==> !playable(b0, #[trigger] moves@[j]),
            forall|k: int|
                0 <= k < gs.len() ==> {
                    &&& same_position(#[trigger] gbs[k], b0)
                    &&& playable(gbs[k], moves@[gidx[k]])
                    &&& applied(gbs[k], moves@[gidx[k]], gms[k])
                },
            !stopped && tt is None ==> sh_kids(gms, gs, depth as nat, alpha0 as int, beta as int, player),
        ensures
            board.wf(),
            same_position(*board, b0),
            -i32::MAX <= best_score,
            best_move matches Some(m) ==> m.to_idx < 1024,
            best_score as int == alpha_after(-i32::MAX as int, gs),
            cut ==> gs.len() > 0 && alpha_after(alpha0 as int, gs) >= beta,
            gidx.len() == gs.len(),
            gbs.len() == gs.len(),
            gms.len() == gs.len(),
            forall|k: int| 0 <= k < gidx.len() ==> 0 <= #[trigger] gidx[k] < moves.len(),
            forall|k1: int, k2: int| 0 <= k1 < k2 < gidx.len() ==> gidx[k1] != gidx[k2],
            forall|k: int| 0 <= k < gs.len() - 1 ==> alpha_after(alpha0 as int, #[trigger] gs.take(k + 1)) < beta,
            !cut ==> forall|j: int| 0 <= j < moves.len() && !gidx.contains(j) ==> !playable(b0, #[trigger] moves@[j]),
            forall|k: int|
                0 <= k < gs.len() ==> {
                    &&& same_position(#[trigger] gbs[k], b0)
                    &&& playable(gbs[k], moves@[gidx[k]])
                    &&& applied(gbs[k], moves@[gidx[k]], gms[k])
                },
            !stopped && tt is None ==> sh_kids(gms, gs, depth as nat, alpha0 as int, beta as int, player),
        decreases count_false(done@),
    {
        let j = match next_best(&keys, &done) {
            Some(j) => j,
            None => {
                break;
            },
        };
        let ghost done0 = done@;
        let ghost gidx0 = gidx;
        proof {
            lemma_count_false_set(done@, j as int);
            assert(!gidx.contains(j as int));
        }
        done.set(j, true);
        let mv = &moves[j];
        assert(mv.from@.len() == dim && mv.to@.len() == dim);
        proof {
            lemma_same_position(*board, b0, *mv, player);
        }
        let ghost bc = *board;
        match play(board, mv) {
            None => {
                proof {
                    lemma_unplayable_kept(done0, done@, gidx0, gidx, j as int, moves@, b0);
                }
            },
            Some(info) => {
                let ghost mid = *board;
                let (child, child_stopped) = if depth - 1 == 0 {
                    q_search(board, -beta, -alpha, player.opponent(), nodes, stop, tt)
                } else {
                    minimax_shallow(board, depth - 1, -beta, -alpha, player.opponent(), nodes, stop, tt)
                };
                if child_stopped {
                    stopped = true;
                }
                let score = -child;
                take_back(board, mv, info, Ghost(bc), Ghost(mid));
                proof {
                    lemma_same_trans(*board, bc, b0);
                    lemma_take_push(gs, score as int);
                    if !stopped && tt is None {
                        lemma_sh_kids_push(gms, gs, depth as nat, alpha0 as int, beta as int, player, mid, score as int);
                    }
                    gidx = gidx.push(j as int);
                    lemma_unplayable_kept(done0, done@, gidx0, gidx, j as int, moves@, b0);
                    gbs = gbs.push(bc);
                    gms = gms.push(mid);
                    let gs0 = gs;
                    gs = gs.push(score as int);
                    assert(gs.take(gs.len() as int) =~= gs);
                    assert forall|k: int| 0 <= k < gs0.len() implies #[trigger] gs.take(k + 1) == gs0.take(k + 1) by {
                        assert(gs.take(k + 1) =~= gs0.take(k + 1));
                    }
                }
                if score > best_score {
                    best_score = score;
                    best_move = pack_move(board, mv);
                }
                if score > alpha {
                    alpha = score;
                }
                if alpha >= beta {
                    cut = true;
                    break;
                }
            },
        }
    }
    match tt {
        Some(t) => {
            t.store(hash, best_score, (depth % 256) as u8, bound_kind(best_score, alpha0, beta), best_move);
        },
        None => {},
    }
    proof {
        if !stopped && tt is None {
            lemma_sh_value_intro(b0, depth as nat, alpha_in as int, beta_in as int, player, moves@, gidx, gbs, gms, gs, best_score as int);
        }
    }
    (best_score, stopped)
}

/// The shallow alpha-beta search of `depth` plies for `player` in `alpha`..`beta`: a stop
/// request answers 0; else the table entry of the position is read and the node is
/// searched (see `shallow_node`). The board holds the same position afterwards. The flag
/// tells whether a stop was seen; without a table and a stop the score is the one
/// `sh_value` describes.
pub fn minimax_shallow(
    board: &mut Board,
    depth: usize,
    alpha: i32,
    beta: i32,
    player: Player,
    nodes: &AtomicUsize,
    stop: &AtomicBool,
    tt: Option<&LockFreeTT>,
) -> (r: (i32, bool))
    requires
        old(board).wf(),
        tt matches Some(t) ==> t.wf(),
        -i32::MAX <= alpha,
        -i32::MAX <= beta,
        depth <= 10_000,
    ensures
        final(board).wf(),
        same_position(*final(board), *old(board)),
        -i32::MAX <= r.0,
        !r.1 && tt is None ==> sh_value(*old(board), depth as nat, alpha as int, beta as int, player, r.0 as int),
    decreases depth, 1nat,
{
    if stop_requested(stop) {
        return (0, true);
    }
    let probe = probe(tt, board.state.hash);
    shallow_node(board, depth, alpha, beta, player, nodes, stop, tt, probe)
}

} // verus!
