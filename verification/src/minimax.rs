//! The engine player's principal search: alpha-beta with a shared transposition table,
//! mate-distance pruning, internal iterative deepening, null-move pruning, razoring,
//! futility pruning, check extensions, late-move reductions with principal-variation
//! re-searches, killer moves and a history of quiet cutoff moves; and the root search with
//! iterative deepening and aspiration windows. Every move made is taken back, so the board
//! holds the same position when a search returns.
use vstd::prelude::*;
use std::sync::atomic::{AtomicBool, AtomicUsize, Ordering};
use crate::board::{Board, UnmakeInfo, null_made};
use crate::legal::{same_position, lemma_same_position, legal_list, dims_ok};
use crate::make_move::{move_ok, applied};
use crate::models::{Move, PieceType, Player};
use crate::representation::BoardRepresentation;
use crate::movegen::king_in_check;
use crate::search_core::{
    SCORE_LIMIT, CHECKMATE_SCORE, searchable, is_searchable, stand_pat, q_search, get_piece_value,
    tt_cut, play, take_back, lemma_same_trans, pack_move, playable, static_score, q_value, q_budget,
    alpha_after, count_false, lemma_count_false_set, lemma_take_push, fits_dims, lemma_count_false_bound,
};
use crate::see::SEE;
use crate::transposition::{Flag, LockFreeTT, PackedMove};

verus! {

/// The bound of a history entry.
pub const MAX_HISTORY: i32 = 7183;

/// Rows and columns of the late-move reduction table.
pub const LMR_TABLE_SIZE: usize = 64;

/// The killer moves (two per remaining depth, as source and target cells) and the history
/// of quiet moves that caused cutoffs (per side, per source and target cell).
pub struct SearchTables {
    pub killers: Vec<Option<(usize, usize)>>,
    pub history: Vec<i32>,
    pub cells: usize,
}

impl SearchTables {
    /// The history has one entry per side, source and target cell, each within
    /// `MAX_HISTORY`.
    pub open spec fn wf(&self) -> bool {
        &&& self.history.len() == 2 * self.cells * self.cells
        &&& forall|i: int| 0 <= i < self.history.len() ==> -MAX_HISTORY <= #[trigger] self.history[i] <= MAX_HISTORY
    }

    /// Empty tables for searches up to `max_depth` plies on a board of `cells` cells.
    pub fn new(max_depth: usize, cells: usize) -> (r: Self)
        requires
            2 * cells * cells <= usize::MAX,
            2 * max_depth + 2 <= usize::MAX,
        ensures
            r.wf(),
            r.cells == cells,
            r.killers.len() == 2 * max_depth + 2,
            forall|i: int| 0 <= i < r.killers.len() ==> r.killers[i] is None,
            forall|i: int| 0 <= i < r.history.len() ==> r.history[i] == 0,
    {
        let mut killers: Vec<Option<(usize, usize)>> = Vec::new();
        let mut i: usize = 0;
        while i < 2 * max_depth + 2
            invariant
                2 * max_depth + 2 <= usize::MAX,
                i <= 2 * max_depth + 2,
                killers.len() == i,
                forall|j: int| 0 <= j < i ==> killers[j] is None,
            decreases 2 * max_depth + 2 - i,
        {
            killers.push(None);
            i += 1;
        }
        assert(2 * cells <= 2 * cells * cells || cells == 0) by (nonlinear_arith);
        let n = 2 * cells * cells;
        let mut history: Vec<i32> = Vec::new();
        let mut j: usize = 0;
        while j < n
            invariant
                j <= n,
                history.len() == j,
                forall|k: int| 0 <= k < j ==> history[k] == 0,
            decreases n - j,
        {
            history.push(0);
            j += 1;
        }
        SearchTables { killers, history, cells }
    }
}

/// One history entry after a bonus: `entry + c - entry * |c| / MAX_HISTORY` (division
/// towards zero), `c` the bonus clamped to `MAX_HISTORY`, kept within `MAX_HISTORY`.
pub open spec fn history_after(entry: int, bonus: int) -> int {
    let c = if bonus < -MAX_HISTORY {
        -MAX_HISTORY as int
    } else if bonus > MAX_HISTORY {
        MAX_HISTORY as int
    } else {
        bonus
    };
    let a = if c < 0 {
        -c
    } else {
        c
    };
    let t = if entry >= 0 {
        (entry * a) / (MAX_HISTORY as int)
    } else {
        -(((-entry) * a) / (MAX_HISTORY as int))
    };
    let v = entry + c - t;
    if v < -MAX_HISTORY {
        -MAX_HISTORY as int
    } else if v > MAX_HISTORY {
        MAX_HISTORY as int
    } else {
        v
    }
}

/// A history entry after a bonus (see `history_after`).
pub fn update_history(entry: i32, bonus: i32) -> (r: i32)
    requires
        -MAX_HISTORY <= entry <= MAX_HISTORY,
    ensures
        r == history_after(entry as int, bonus as int),
        -MAX_HISTORY <= r <= MAX_HISTORY,
{
    let c: i64 = if bonus < -MAX_HISTORY {
        -MAX_HISTORY as i64
    } else if bonus > MAX_HISTORY {
        MAX_HISTORY as i64
    } else {
        bonus as i64
    };
    let a: i64 = if c < 0 {
        -c
    } else {
        c
    };
    let e: i64 = entry as i64;
    let t: i64 = if e >= 0 {
        assert(0 <= e * a <= 7183 * 7183) by (nonlinear_arith)
            requires
                0 <= e <= 7183,
                0 <= a <= 7183,
        ;
        (e * a) / 7183
    } else {
        assert(0 <= (-e) * a <= 7183 * 7183) by (nonlinear_arith)
            requires
                0 < -e <= 7183,
                0 <= a <= 7183,
        ;
        -(((-e) * a) / 7183)
    };
    assert(-7183 <= t <= 7183) by (nonlinear_arith)
        requires
            t == (if e >= 0 {
                (e * a) / 7183
            } else {
                -(((-e) * a) / 7183)
            }),
            -7183 <= e <= 7183,
            0 <= a <= 7183,
    ;
    let v: i64 = e + c - t;
    if v < -MAX_HISTORY as i64 {
        -MAX_HISTORY
    } else if v > MAX_HISTORY as i64 {
        MAX_HISTORY
    } else {
        v as i32
    }
}

/// Whether another thread asked the search to stop.
fn stop_requested(stop: &AtomicBool) -> bool {
    stop.load(Ordering::Relaxed)
}

/// Counts a node searched.
fn count_node(nodes: &AtomicUsize) {
    nodes.fetch_add(1, Ordering::Relaxed);
}

/// The source and target cells of a move whose squares are on the board.
fn move_cells(board: &Board, mv: &Move) -> (r: Option<(usize, usize)>)
    requires
        board.wf(),
    ensures
        r == cells(*board, *mv),
{
    let dim = board.geo.dimension;
    if mv.from.values.len() != dim || mv.to.values.len() != dim {
        return None;
    }
    proof {
        crate::representation::lemma_cell_count_monotone(board.geo.side as nat, dim as nat, dim as nat);
    }
    match (board.coords_to_index(mv.from.values.as_slice()), board.coords_to_index(mv.to.values.as_slice())) {
        (Some(f), Some(t)) => if f < board.geo.total_cells && t < board.geo.total_cells {
            Some((f, t))
        } else {
            None
        },
        _ => None,
    }
}

/// The window left by a table entry `probe` for a search of `depth` plies: a lower bound
/// at least as deep lifts `alpha`, an upper bound brings `beta` down.
pub open spec fn probed_window(probe: Option<(i32, u8, Flag, Option<PackedMove>)>, depth: int, alpha: int, beta: int) -> (int, int) {
    match probe {
        Some((s, d, f, _)) => if d >= depth {
            match f {
                Flag::LowerBound => (if s > alpha { s as int } else { alpha }, beta),
                Flag::UpperBound => (alpha, if s < beta { s as int } else { beta }),
                Flag::Exact => (alpha, beta),
            }
        } else {
            (alpha, beta)
        },
        None => (alpha, beta),
    }
}

/// Mate-distance pruning at `ply` plies from the root: no score beats mating at once
/// (`30000 - ply`) nor loses to being mated at once (`-30000 + ply`); the window `a`..`b`
/// cut to those answers at once when it closes.
pub open spec fn mate_cut(a: int, b: int, ply: int) -> Option<int> {
    let mating = CHECKMATE_SCORE - ply;
    let mated = -CHECKMATE_SCORE + ply;
    let b1 = if mating < b {
        mating
    } else {
        b
    };
    if mating < b && a >= mating {
        Some(mating)
    } else if mated > a && b1 <= mated {
        Some(mated)
    } else {
        None
    }
}

/// The order key of a move (greater first): the table's move; captures that do not lose
/// by static exchange, by victim then cheaper attacker; promotions by kind; the killers of
/// this depth; quiet moves by history; captures that lose by static exchange last.
fn order_key(
    board: &Board,
    mv: &Move,
    player: Player,
    tt_move: Option<(u16, u16)>,
    killer0: Option<(usize, usize)>,
    killer1: Option<(usize, usize)>,
    tables: &SearchTables,
) -> (r: i64)
    requires
        board.wf(),
        board.geo.side >= 2,
        board.total() <= 100_000,
        tables.wf(),
{
    let (from_idx, to_idx) = match move_cells(board, mv) {
        Some(c) => c,
        None => {
            return 0;
        },
    };
    match tt_move {
        Some((tf, tt_to)) => {
            if tf as usize == from_idx && tt_to as usize == to_idx {
                return 2_000_000_000;
            }
        },
        None => {},
    }
    let enemy = match player {
        Player::White => board.pieces.black_occupancy.get_bit(to_idx),
        Player::Black => board.pieces.white_occupancy.get_bit(to_idx),
    };
    if enemy {
        let victim = get_piece_value(board, to_idx) as i64;
        let attacker = get_piece_value(board, from_idx) as i64;
        if board.get_piece_at_index(from_idx).is_none() {
            return 0;
        }
        proof {
            crate::representation::lemma_cell_count_monotone(board.geo.side as nat, board.geo.dimension as nat, board.geo.dimension as nat);
        }
        let see = SEE::static_exchange_evaluation(board, mv) as i64;
        if see >= 0 {
            return 1_000_000 + 10 * victim - attacker;
        } else {
            return see;
        }
    }
    match mv.promotion {
        Some(p) => {
            let val: i64 = match p {
                PieceType::Queen => 900,
                PieceType::Rook => 500,
                PieceType::Bishop => 330,
                PieceType::Knight => 320,
                _ => 0,
            };
            return 800_000 + val;
        },
        None => {},
    }
    if killer0 == Some((from_idx, to_idx)) {
        return 500_000;
    }
    if killer1 == Some((from_idx, to_idx)) {
        return 400_000;
    }
    let total = board.geo.total_cells;
    let pi: usize = match player {
        Player::White => 0,
        Player::Black => 1,
    };
    let mut quiet: i64 = 0;
    if tables.cells == total {
        assert(from_idx * total + to_idx < total * total) by (nonlinear_arith)
            requires
                from_idx < total,
                to_idx < total,
        ;
        assert(pi * (total * total) <= total * total) by (nonlinear_arith)
            requires
                pi <= 1,
        ;
        assert(2 * total * total == 2 * (total * total)) by (nonlinear_arith);
        assert(pi * total * total == pi * (total * total)) by (nonlinear_arith);
        let tt2 = total * total;
        let h = pi * tt2 + (from_idx * total + to_idx);
        assert(total * total == tt2);
        quiet = tables.history[h] as i64;
    }
    200_000 + quiet
}

/// The history entry of `player`'s quiet move between cells `f` and `t`, when the tables
/// are for a board of `total` cells.
fn history_of(tables: &SearchTables, player: Player, f: usize, t: usize, total: usize) -> (r: i32)
    requires
        tables.wf(),
{
    if tables.cells != total || f >= total || t >= total {
        return 0;
    }
    let pi: usize = match player {
        Player::White => 0,
        Player::Black => 1,
    };
    assert(f * total + t < total * total) by (nonlinear_arith)
        requires
            f < total,
            t < total,
    ;
    assert(pi * (total * total) <= total * total) by (nonlinear_arith)
        requires
            pi <= 1,
    ;
    assert(2 * total * total == 2 * (total * total)) by (nonlinear_arith);
    let tt2 = total * total;
    tables.history[pi * tt2 + (f * total + t)]
}

/// The index of the first greatest key not yet `done`, if any.
fn next_best_key(keys: &Vec<i64>, done: &Vec<bool>) -> (r: Option<usize>)
    requires
        keys.len() == done.len(),
    ensures
        r matches Some(j) ==> j < keys.len() && !done[j as int],
        r is None ==> forall|j: int| 0 <= j < done.len() ==> done[j],
{
    let mut best: Option<usize> = None;
    let mut j: usize = 0;
    while j < keys.len()
        invariant
            keys.len() == done.len(),
            j <= keys.len(),
            best matches Some(b) ==> b < j && !done[b as int],
            best is None ==> forall|k: int| 0 <= k < j ==> done[k],
        decreases keys.len() - j,
    {
        if !done[j] {
            best = match best {
                Some(b) => if keys[j] > keys[b] {
                    Some(j)
                } else {
                    Some(b)
                },
                None => Some(j),
            };
        }
        j += 1;
    }
    best
}

/// Rewards a quiet move that caused a cutoff at `depth`: it becomes the first killer of
/// that depth (the old first becomes the second), and its history entry gets the bonus
/// `min(121 * depth - 75, 932)`, at least 0.
fn reward_quiet(tables: &mut SearchTables, depth: usize, player: Player, from_idx: usize, to_idx: usize)
    requires
        old(tables).wf(),
        depth <= 10_000,
    ensures
        final(tables).wf(),
        final(tables).cells == old(tables).cells,
{
    if 2 * depth + 1 < tables.killers.len() {
        let first = tables.killers[2 * depth];
        tables.killers.set(2 * depth + 1, first);
        tables.killers.set(2 * depth, Some((from_idx, to_idx)));
    }
    let total = tables.cells;
    if from_idx < total && to_idx < total {
        let pi: usize = match player {
            Player::White => 0,
            Player::Black => 1,
        };
        assert(from_idx * total + to_idx < total * total) by (nonlinear_arith)
            requires
                from_idx < total,
                to_idx < total,
        ;
        assert(pi * (total * total) <= total * total) by (nonlinear_arith)
            requires
                pi <= 1,
        ;
        assert(2 * total * total == 2 * (total * total)) by (nonlinear_arith);
        let tt2 = total * total;
        let h = pi * tt2 + (from_idx * total + to_idx);
        let raw: i32 = 121 * (depth as i32) - 75;
        let bonus: i32 = if raw > 932 {
            932
        } else if raw < 0 {
            0
        } else {
            raw
        };
        let updated = update_history(tables.history[h], bonus);
        tables.history.set(h, updated);
    }
}

/// The late-move reduction of the `index`-th legal move (from 0) at `depth`: none for the
/// first two moves, below depth 3, for captures and promotions, or in check; else the
/// table's entry for `min(depth, 63)` and `min(index, 63)` (cut to `0..=64`), one less at
/// a principal-variation node and one more elsewhere, less by the move's history over 2048
/// (clamped to 2 either way), at least 0, and leaving at least one ply.
fn reduction(
    lmr: &Vec<Vec<i32>>,
    depth: usize,
    index: usize,
    quiet: bool,
    in_check: bool,
    pv_node: bool,
    hist: i32,
) -> (r: usize)
    requires
        1 <= depth,
    ensures
        r == 0 || r < depth - 1,
        index < 2 || depth < 3 || !quiet || in_check ==> r == 0,
{
    if index < 2 || depth < 3 || !quiet || in_check {
        return 0;
    }
    let d_idx = if depth < LMR_TABLE_SIZE {
        depth
    } else {
        LMR_TABLE_SIZE - 1
    };
    let m_idx = if index < LMR_TABLE_SIZE {
        index
    } else {
        LMR_TABLE_SIZE - 1
    };
    let mut r: i32 = if d_idx < lmr.len() && m_idx < lmr[d_idx].len() {
        let e = lmr[d_idx][m_idx];
        if e < 0 {
            0
        } else if e > 64 {
            64
        } else {
            e
        }
    } else {
        0
    };
    if pv_node {
        r = r - 1;
    } else {
        r = r + 1;
    }
    let h = hist / 2048;
    let adj: i32 = if h < -2 {
        -2
    } else if h > 2 {
        2
    } else {
        h
    };
    r = r - adj;
    let mut red: usize = if r < 0 {
        0
    } else {
        r as usize
    };
    if depth - 1 < red {
        red = depth - 2;
    }
    if red >= depth - 1 {
        red = if depth >= 3 {
            depth - 2
        } else {
            0
        };
    }
    red
}

/// The upper bound after mate-distance pruning at `ply` plies: no score beats mating at
/// once (`30000 - ply`).
pub open spec fn mate_beta(beta: int, ply: int) -> int {
    if CHECKMATE_SCORE - ply < beta {
        CHECKMATE_SCORE - ply
    } else {
        beta
    }
}

/// The lower bound after mate-distance pruning at `ply` plies: no score loses to being
/// mated at once (`-30000 + ply`).
pub open spec fn mate_alpha(alpha: int, ply: int) -> int {
    if -CHECKMATE_SCORE + ply > alpha {
        -CHECKMATE_SCORE + ply
    } else {
        alpha
    }
}

/// The margin of razoring at `depth` plies: 300, 500, else 700.
pub open spec fn razor_margin(depth: int) -> int {
    if depth == 1 {
        300
    } else if depth == 2 {
        500
    } else {
        700
    }
}

/// The depth of the search after a null move at `depth` plies: `min(3 + depth / 3,
/// depth - 1)` plies less, less the ply passed.
pub open spec fn null_depth(depth: int) -> int {
    let rr = if 3 + depth / 3 < depth - 1 {
        3 + depth / 3
    } else {
        depth - 1
    };
    depth - 1 - rr
}

/// A null move is tried: allowed, at depth 3 or more, out of check, with a static score at
/// least `beta` and `beta` above the lowest score.
pub open spec fn null_tried(allow_null: bool, depth: int, in_check: bool, static_eval: int, beta: int) -> bool {
    allow_null && depth >= 3 && !in_check && static_eval >= beta && beta > -i32::MAX
}

/// The source and target cells of a move whose squares are on the board.
pub open spec fn cells(b: Board, mv: Move) -> Option<(usize, usize)> {
    if mv.from@.len() == b.geo.dimension && mv.to@.len() == b.geo.dimension {
        match (b.spec_index(mv.from@), b.spec_index(mv.to@)) {
            (Some(f), Some(t)) => if f < b.total() && t < b.total() {
                Some((f, t))
            } else {
                None
            },
            _ => None,
        }
    } else {
        None
    }
}

/// A quiet move: it takes nothing and does not promote.
pub open spec fn quiet_move(b: Board, mv: Move) -> bool {
    &&& mv.promotion is None
    &&& !(cells(b, mv) matches Some((f, t)) && b.piece_at(t as int) is Some)
}

/// The score `x` of the `k`-th move searched at a node of `depth` plies whose bound was
/// `ak` below `beta`, from the searches `c1`, `c2`, `c3` (depth, window and value) of the
/// board it gave at the depth `base`: the first with the full window; the others with the
/// null window (reduced, where `lmr` allows, by less than `depth - 1` plies), searched
/// again unreduced when they beat `ak` after a reduction, and with the full window when
/// inside it.
pub open spec fn mm_scored(
    k: int,
    ak: int,
    beta: int,
    depth: int,
    base: int,
    lmr: bool,
    c1: (Board, int, int, int, int),
    c2: Option<(Board, int, int, int, int)>,
    c3: Option<(Board, int, int, int, int)>,
    x: int,
) -> bool {
    if k == 0 {
        &&& c1.1 == base
        &&& c1.2 == -beta
        &&& c1.3 == -ak
        &&& c1.4 == -x
        &&& c2 is None
        &&& c3 is None
    } else {
        let scout = if ak < i32::MAX {
            -ak - 1
        } else {
            -i32::MAX as int
        };
        let sc1 = -c1.4;
        let sc2 = match c2 {
            Some(c) => -c.4,
            None => sc1,
        };
        &&& c1.2 == scout
        &&& c1.3 == -ak
        &&& 0 <= c1.1
        &&& if lmr {
            base - (depth - 1) < c1.1 <= base
        } else {
            c1.1 == base
        }
        &&& (c2 is Some) == (sc1 > ak && c1.1 < base)
        &&& c2 matches Some(c) ==> c.1 == base && c.2 == scout && c.3 == -ak
        &&& (c3 is Some) == (sc2 > ak && sc2 < beta)
        &&& c3 matches Some(c) ==> c.1 == base && c.2 == -beta && c.3 == -ak
        &&& x == match c3 {
            Some(c) => -c.4,
            None => sc2,
        }
    }
}

/// A legal move the principal search passes over at `b`: it cannot be made and taken
/// back, or futility pruning skips it (quiet, giving no check).
pub open spec fn mm_passed(b: Board, mv: Move, do_fut: bool, player: Player) -> bool {
    ||| !playable(b, mv)
    ||| exists|c: Board, n: Board|
        #![trigger applied(c, mv, n)]
        same_position(c, b) && applied(c, mv, n) && do_fut && quiet_move(c, mv) && !king_in_check(
            n,
            player.spec_opponent(),
        )
}

/// Each move searched at a node was made on a board holding its position, was not
/// skipped by futility pruning, and was scored as `mm_scored` describes.
#[verifier::opaque]
pub open spec fn mm_trace(
    b: Board,
    depth: int,
    a: int,
    beta: int,
    player: Player,
    ic: bool,
    do_fut: bool,
    l: Seq<Move>,
    idx: Seq<int>,
    bs: Seq<Board>,
    ms: Seq<Board>,
    s: Seq<int>,
    c1: Seq<(Board, int, int, int, int)>,
    c2: Seq<Option<(Board, int, int, int, int)>>,
    c3: Seq<Option<(Board, int, int, int, int)>>,
) -> bool {
    forall|k: int|
        0 <= k < s.len() ==> {
            &&& same_position(#[trigger] bs[k], b)
            &&& playable(bs[k], l[idx[k]])
            &&& applied(bs[k], l[idx[k]], ms[k])
            &&& same_position(c1[k].0, ms[k])
            &&& c2[k] matches Some(c) ==> same_position(c.0, ms[k])
            &&& c3[k] matches Some(c) ==> same_position(c.0, ms[k])
            &&& !(do_fut && quiet_move(bs[k], l[idx[k]]) && !king_in_check(ms[k], player.spec_opponent()))
            &&& mm_scored(
                k,
                alpha_after(a, s.take(k)),
                beta,
                depth,
                if king_in_check(ms[k], player.spec_opponent()) {
                    depth
                } else {
                    depth - 1
                },
                !(k < 2 || depth < 3 || !quiet_move(bs[k], l[idx[k]]) || ic),
                c1[k],
                c2[k],
                c3[k],
                s[k],
            )
        }
}

/// One more move made and scored keeps `mm_trace`.
proof fn lemma_mm_trace_push(
    b: Board,
    depth: int,
    a: int,
    beta: int,
    player: Player,
    ic: bool,
    do_fut: bool,
    l: Seq<Move>,
    idx: Seq<int>,
    bs: Seq<Board>,
    ms: Seq<Board>,
    s: Seq<int>,
    c1: Seq<(Board, int, int, int, int)>,
    c2: Seq<Option<(Board, int, int, int, int)>>,
    c3: Seq<Option<(Board, int, int, int, int)>>,
    j: int,
    bc: Board,
    mid: Board,
    x: int,
    e1: (Board, int, int, int, int),
    e2: Option<(Board, int, int, int, int)>,
    e3: Option<(Board, int, int, int, int)>,
)
    requires
        idx.len() == s.len(),
        bs.len() == s.len(),
        ms.len() == s.len(),
        c1.len() == s.len(),
        c2.len() == s.len(),
        c3.len() == s.len(),
        mm_trace(b, depth, a, beta, player, ic, do_fut, l, idx, bs, ms, s, c1, c2, c3),
        same_position(bc, b),
        playable(bc, l[j]),
        applied(bc, l[j], mid),
        same_position(e1.0, mid),
        e2 matches Some(c) ==> same_position(c.0, mid),
        e3 matches Some(c) ==> same_position(c.0, mid),
        !(do_fut && quiet_move(bc, l[j]) && !king_in_check(mid, player.spec_opponent())),
        mm_scored(
            s.len() as int,
            alpha_after(a, s),
            beta,
            depth,
            if king_in_check(mid, player.spec_opponent()) {
                depth
            } else {
                depth - 1
            },
            !(s.len() < 2 || depth < 3 || !quiet_move(bc, l[j]) || ic),
            e1,
            e2,
            e3,
            x,
        ),
    ensures
        mm_trace(
            b,
            depth,
            a,
            beta,
            player,
            ic,
            do_fut,
            l,
            idx.push(j),
            bs.push(bc),
            ms.push(mid),
            s.push(x),
            c1.push(e1),
            c2.push(e2),
            c3.push(e3),
        ),
{
    reveal(mm_trace);
    lemma_take_push(s, x);
    let s2 = s.push(x);
    assert forall|k: int| 0 <= k < s2.len() implies {
        &&& same_position(#[trigger] bs.push(bc)[k], b)
        &&& playable(bs.push(bc)[k], l[idx.push(j)[k]])
        &&& applied(bs.push(bc)[k], l[idx.push(j)[k]], ms.push(mid)[k])
        &&& same_position(c1.push(e1)[k].0, ms.push(mid)[k])
        &&& c2.push(e2)[k] matches Some(c) ==> same_position(c.0, ms.push(mid)[k])
        &&& c3.push(e3)[k] matches Some(c) ==> same_position(c.0, ms.push(mid)[k])
        &&& !(do_fut && quiet_move(bs.push(bc)[k], l[idx.push(j)[k]]) && !king_in_check(ms.push(mid)[k], player.spec_opponent()))
        &&& mm_scored(
            k,
            alpha_after(a, s2.take(k)),
            beta,
            depth,
            if king_in_check(ms.push(mid)[k], player.spec_opponent()) {
                depth
            } else {
                depth - 1
            },
            !(k < 2 || depth < 3 || !quiet_move(bs.push(bc)[k], l[idx.push(j)[k]]) || ic),
            c1.push(e1)[k],
            c2.push(e2)[k],
            c3.push(e3)[k],
            s2[k],
        )
    } by {
        if k < s.len() {
            assert(bs.push(bc)[k] == bs[k]);
            assert(idx.push(j)[k] == idx[k]);
            assert(ms.push(mid)[k] == ms[k]);
            assert(c1.push(e1)[k] == c1[k]);
            assert(c2.push(e2)[k] == c2[k]);
            assert(c3.push(e3)[k] == c3[k]);
            assert(s2[k] == s[k]);
            assert(s2.take(k) == s.take(k));
        } else {
            assert(s2.take(k) == s);
        }
    }
}

/// The legal moves `l` of a node of `depth` plies (in check `ic`, static score `se`) were
/// searched from the bound `a` below `beta`: the moves `l[idx[k]]`, each once, were made in
/// turn, the `k`-th on `bs[k]` giving `ms[k]`, not skipped by futility pruning, and scored
/// `s[k]` by the searches `c1[k]`, `c2[k]`, `c3[k]` (see `mm_scored`); a move that gives
/// check is searched one ply deeper. The bound reached `beta` after the last one only, and
/// when it did not every move not made was passed over (`mm_passed`).
pub open spec fn mm_moves(
    b: Board,
    depth: int,
    a: int,
    beta: int,
    player: Player,
    ic: bool,
    se: int,
    l: Seq<Move>,
    idx: Seq<int>,
    bs: Seq<Board>,
    ms: Seq<Board>,
    s: Seq<int>,
    c1: Seq<(Board, int, int, int, int)>,
    c2: Seq<Option<(Board, int, int, int, int)>>,
    c3: Seq<Option<(Board, int, int, int, int)>>,
) -> bool {
    let do_fut = depth <= 6 && !ic && se + 77 * depth < a;
    &&& idx.len() == s.len()
    &&& bs.len() == s.len()
    &&& ms.len() == s.len()
    &&& c1.len() == s.len()
    &&& c2.len() == s.len()
    &&& c3.len() == s.len()
    &&& forall|k: int| 0 <= k < idx.len() ==> 0 <= #[trigger] idx[k] < l.len()
    &&& forall|k1: int, k2: int| 0 <= k1 < k2 < idx.len() ==> idx[k1] != idx[k2]
    &&& mm_trace(b, depth, a, beta, player, ic, do_fut, l, idx, bs, ms, s, c1, c2, c3)
    &&& forall|k: int| 0 <= k < s.len() - 1 ==> alpha_after(a, #[trigger] s.take(k + 1)) < beta
    &&& (s.len() > 0 && alpha_after(a, s) >= beta) || forall|j: int|
        0 <= j < l.len() && !idx.contains(j) ==> mm_passed(b, #[trigger] l[j], do_fut, player)
}

/// What a node of the principal search does once the window is `a`..`beta`, the board
/// searchable and the depth left (see `mm_value`): a null move from `nb` whose search
/// scored `vn`; razoring by the quiescence search `qv` of the copy `rc`; the legal moves `l`
/// (listed on `lb`) searched as `mm_moves` describes; and the result `r`.
pub open spec fn mm_frame(
    b: Board,
    depth: nat,
    a: int,
    beta: int,
    player: Player,
    ply: int,
    allow_null: bool,
    nb: Board,
    ni: UnmakeInfo,
    vn: int,
    rc: Board,
    qv: int,
    lb: Board,
    l: Seq<Move>,
    idx: Seq<int>,
    bs: Seq<Board>,
    ms: Seq<Board>,
    s: Seq<int>,
    c1: Seq<(Board, int, int, int, int)>,
    c2: Seq<Option<(Board, int, int, int, int)>>,
    c3: Seq<Option<(Board, int, int, int, int)>>,
    r: int,
) -> bool {
    let ic = king_in_check(b, player);
    let se = static_score(b, player);
    let nt = null_tried(allow_null, depth as int, ic, se, beta);
    &&& nt ==> null_made(b, nb, ni)
    &&& if nt && -vn >= beta {
        r == beta
    } else {
        let rz = depth <= 3 && !ic && se + razor_margin(depth as int) < a;
        &&& rz ==> same_position(rc, b) && q_value(rc, a, beta, player, q_budget(rc), qv)
        &&& if rz && qv < a {
            r == qv
        } else {
            &&& same_position(lb, b)
            &&& legal_list(lb, player, l)
            &&& if l.len() == 0 {
                r == (if ic {
                    -CHECKMATE_SCORE + ply
                } else {
                    0
                })
            } else {
                &&& mm_moves(b, depth as int, a, beta, player, ic, se, l, idx, bs, ms, s, c1, c2, c3)
                &&& r == alpha_after(-i32::MAX as int, s)
            }
        }
    }
}

/// `r` is the value of the principal search of `b` for `player` at `depth` plies in
/// `alpha`..`beta`, `ply` plies from the root, without a table and without a stop: the
/// answer of mate-distance pruning (`mate_cut`); else, in the window it leaves, the
/// quiescence search at depth 0 or 10,000 plies from the root; the lower bound for a board
/// that is not `searchable`; else what `mm_frame` describes, each search below it (the
/// null move's and the moves') having the value this function gives one ply further.
pub open spec fn mm_value(
    b: Board,
    depth: nat,
    alpha: int,
    beta: int,
    player: Player,
    ply: int,
    allow_null: bool,
    r: int,
) -> bool
    decreases 10_000 - ply, depth,
{
    if mate_cut(alpha, beta, ply) is Some {
        r == mate_cut(alpha, beta, ply)->0
    } else if depth == 0 || ply >= 10_000 {
        q_value(b, mate_alpha(alpha, ply), mate_beta(beta, ply), player, q_budget(b), r)
    } else if !searchable(b) {
        r == mate_alpha(alpha, ply)
    } else {
        exists|
            nb: Board,
            ni: UnmakeInfo,
            vn: int,
            rc: Board,
            qv: int,
            lb: Board,
            l: Seq<Move>,
            idx: Seq<int>,
            bs: Seq<Board>,
            ms: Seq<Board>,
            s: Seq<int>,
            c1: Seq<(Board, int, int, int, int)>,
            c2: Seq<Option<(Board, int, int, int, int)>>,
            c3: Seq<Option<(Board, int, int, int, int)>>,
        |
            #[trigger] mm_frame(
                b,
                depth,
                mate_alpha(alpha, ply),
                mate_beta(beta, ply),
                player,
                ply,
                allow_null,
                nb,
                ni,
                vn,
                rc,
                qv,
                lb,
                l,
                idx,
                bs,
                ms,
                s,
                c1,
                c2,
                c3,
                r,
            ) && (null_tried(
                allow_null,
                depth as int,
                king_in_check(b, player),
                static_score(b, player),
                mate_beta(beta, ply),
            ) ==> mm_value(
                nb,
                null_depth(depth as int) as nat,
                -mate_beta(beta, ply),
                -mate_beta(beta, ply) + 1,
                player.spec_opponent(),
                ply + 1,
                false,
                vn,
            )) && forall|k: int|
                0 <= k < s.len() ==> {
                    &&& mm_value(
                        (#[trigger] c1[k]).0,
                        c1[k].1 as nat,
                        c1[k].2,
                        c1[k].3,
                        player.spec_opponent(),
                        ply + 1,
                        true,
                        c1[k].4,
                    )
                    &&& c2[k] matches Some(c) ==> mm_value(
                        c.0,
                        c.1 as nat,
                        c.2,
                        c.3,
                        player.spec_opponent(),
                        ply + 1,
                        true,
                        c.4,
                    )
                    &&& c3[k] matches Some(c) ==> mm_value(
                        c.0,
                        c.1 as nat,
                        c.2,
                        c.3,
                        player.spec_opponent(),
                        ply + 1,
                        true,
                        c.4,
                    )
                }
    }
}

/// Each move searched has the values `mm_value` gives to its searches.
pub open spec fn mm_kids(
    c1: Seq<(Board, int, int, int, int)>,
    c2: Seq<Option<(Board, int, int, int, int)>>,
    c3: Seq<Option<(Board, int, int, int, int)>>,
    player: Player,
    ply: int,
) -> bool {
    forall|k: int|
        0 <= k < c1.len() ==> {
            &&& mm_value(
                (#[trigger] c1[k]).0,
                c1[k].1 as nat,
                c1[k].2,
                c1[k].3,
                player.spec_opponent(),
                ply + 1,
                true,
                c1[k].4,
            )
            &&& c2[k] matches Some(c) ==> mm_value(
                c.0,
                c.1 as nat,
                c.2,
                c.3,
                player.spec_opponent(),
                ply + 1,
                true,
                c.4,
            )
            &&& c3[k] matches Some(c) ==> mm_value(
                c.0,
                c.1 as nat,
                c.2,
                c.3,
                player.spec_opponent(),
                ply + 1,
                true,
                c.4,
            )
        }
}

/// The score of passing the turn at a node of `depth` plies (3 or more): the opponent's
/// search `min(3 + depth / 3, depth - 1)` plies shallower with the null window
/// `-beta..-beta + 1`, taken back afterwards. The flag tells whether a stop was seen; the
/// ghost values are the board after passing and what passing recorded.
fn null_move_score(
    board: &mut Board,
    depth: usize,
    beta: i32,
    player: Player,
    ply: i32,
    tt: Option<&LockFreeTT>,
    lmr: &Vec<Vec<i32>>,
    tables: &mut SearchTables,
    nodes: &AtomicUsize,
    stop: &AtomicBool,
) -> (r: (i32, bool, Ghost<Board>, Ghost<UnmakeInfo>))
    requires
        old(board).wf(),
        tt matches Some(t) ==> t.wf(),
        old(tables).wf(),
        -i32::MAX < beta,
        3 <= depth <= 10_000,
        0 <= ply < 10_000,
    ensures
        final(board).wf(),
        same_position(*final(board), *old(board)),
        final(tables).wf(),
        final(tables).cells == old(tables).cells,
        -i32::MAX <= r.0,
        null_made(*old(board), r.2@, r.3@),
        !r.1 && tt is None ==> mm_value(
            r.2@,
            null_depth(depth as int) as nat,
            -beta,
            -beta + 1,
            player.spec_opponent(),
            ply + 1,
            false,
            r.0 as int,
        ),
    decreases 10_000 - ply, depth, 0nat,
{
    let ghost b0 = *board;
    let rr: usize = if 3 + depth / 3 < depth - 1 {
        3 + depth / 3
    } else {
        depth - 1
    };
    let info = board.make_null_move();
    let ghost mid = *board;
    let (child, stopped) = minimax(board, depth - 1 - rr, -beta, -beta + 1, player.opponent(), ply + 1, false, tt, lmr, tables, nodes, stop);
    let ghost cur = *board;
    board.unmake_null_move(info);
    proof {
        assert forall|j: int| #[trigger] board.pieces.bits(j) == b0.pieces.bits(j) by {
            assert(cur.pieces.bits(j) == mid.pieces.bits(j));
        }
        assert(cur.state.history@ == mid.state.history@);
        assert(mid.state.history@ == b0.state.history@.push(b0.state.hash));
        assert(cur.state.history@.len() > 0);
        assert(board.state.history@ =~= b0.state.history@);
        assert(board.state.hash == b0.state.hash);
    }
    (child, stopped, Ghost(mid), Ghost(info))
}

/// Searches the legal moves `moves` of a node of `depth` plies holding the position of
/// `node` (see `minimax_node`) and returns the best score (`-i32::MAX` when no move was
/// searched), the best move as the table keeps it, whether a stop was seen, and the trace
/// `mm_moves` describes: the moves made, the boards before and after them, their scores
/// and the searches that gave them.
#[verifier::spinoff_prover]
#[verifier::rlimit(100)]
fn search_moves(
    board: &mut Board,
    moves: &Vec<Move>,
    depth: usize,
    alpha_in: i32,
    beta: i32,
    player: Player,
    ply: i32,
    tt_move: Option<(u16, u16)>,
    in_check: bool,
    static_eval: i32,
    tt: Option<&LockFreeTT>,
    lmr: &Vec<Vec<i32>>,
    tables: &mut SearchTables,
    nodes: &AtomicUsize,
    stop: &AtomicBool,
    Ghost(node): Ghost<Board>,
) -> (r: (i32, Option<PackedMove>, bool, Ghost<(Seq<int>, Seq<Board>, Seq<Board>, Seq<int>, Seq<(Board, int, int, int, int)>, Seq<Option<(Board, int, int, int, int)>>, Seq<Option<(Board, int, int, int, int)>>)>))
    requires
        old(board).wf(),
        same_position(*old(board), node),
        searchable(node),
        node.total() <= 100_000,
        dims_ok(moves@, node.geo.dimension as nat),
        tt matches Some(t) ==> t.wf(),
        old(tables).wf(),
        -i32::MAX <= alpha_in,
        -i32::MAX <= beta,
        0 < depth <= 10_000,
        0 <= ply < 10_000,
        in_check == king_in_check(node, player),
        static_eval == static_score(node, player),
        -SCORE_LIMIT <= static_eval <= SCORE_LIMIT,
    ensures
        final(board).wf(),
        same_position(*final(board), node),
        final(tables).wf(),
        final(tables).cells == old(tables).cells,
        -i32::MAX <= r.0,
        r.1 matches Some(m) ==> m.to_idx < 1024,
        r.0 as int == alpha_after(-i32::MAX as int, r.3@.3),
        r.3@.2.len() == r.3@.3.len(),
        !r.2 ==> mm_moves(
            node,
            depth as int,
            alpha_in as int,
            beta as int,
            player,
            in_check,
            static_eval as int,
            moves@,
            r.3@.0,
            r.3@.1,
            r.3@.2,
            r.3@.3,
            r.3@.4,
            r.3@.5,
            r.3@.6,
        ),
        !r.2 && tt is None ==> mm_kids(r.3@.4, r.3@.5, r.3@.6, player, ply as int),
    decreases 10_000 - ply, depth, 0nat,
{
    let mut alpha = alpha_in;
    let dim = board.geo.dimension;
    let k0: Option<(usize, usize)> = if 2 * depth + 1 < tables.killers.len() {
        tables.killers[2 * depth]
    } else {
        None
    };
    let k1: Option<(usize, usize)> = if 2 * depth + 1 < tables.killers.len() {
        tables.killers[2 * depth + 1]
    } else {
        None
    };
    let mut keys: Vec<i64> = Vec::new();
    let mut done: Vec<bool> = Vec::new();
    let mut i: usize = 0;
    while i < moves.len()
        invariant
            board.wf(),
            board.geo.side >= 2,
            board.total() <= 100_000,
            tables.wf(),
            i <= moves.len(),
            keys.len() == i,
            done.len() == i,
            forall|j: int| 0 <= j < i ==> !done[j],
        decreases moves.len() - i,
    {
        keys.push(order_key(board, &moves[i], player, tt_move, k0, k1, tables));
        done.push(false);
        i += 1;
    }
    let pv_node = (beta as i64) > (alpha as i64) + 1;
    let do_futility = depth <= 6 && !in_check && (static_eval as i64) + 77 * (depth as i64) < (alpha as i64);
    let mut best_score: i32 = -i32::MAX;
    let mut best_move: Option<PackedMove> = None;
    let mut stopped = false;
    let mut cut = false;
    let mut legal_idx: usize = 0;
    proof {
        lemma_count_false_bound(done@);
        reveal(mm_trace);
    }
    let ghost mut gidx: Seq<int> = Seq::empty();
    let ghost mut gbs: Seq<Board> = Seq::empty();
    let ghost mut gms: Seq<Board> = Seq::empty();
    let ghost mut gs: Seq<int> = Seq::empty();
    let ghost mut g1: Seq<(Board, int, int, int, int)> = Seq::empty();
    let ghost mut g2: Seq<Option<(Board, int, int, int, int)>> = Seq::empty();
    let ghost mut g3: Seq<Option<(Board, int, int, int, int)>> = Seq::empty();
    loop
        invariant_except_break
            !cut,
            forall|k: int| 0 <= k < gs.len() ==> alpha_after(alpha_in as int, #[trigger] gs.take(k + 1)) < beta,
        invariant
            board.wf(),
            same_position(*board, node),
            searchable(node),
            node.total() <= 100_000,
            dim == node.geo.dimension,
            dims_ok(moves@, dim as nat),
            tt matches Some(t) ==> t.wf(),
            tables.wf(),
            tables.cells == old(tables).cells,
            keys.len() == moves.len(),
            done.len() == moves.len(),
            -i32::MAX <= alpha_in,
            -i32::MAX <= beta,
            -i32::MAX <= alpha,
            -i32::MAX <= best_score,
            best_move matches Some(m) ==> m.to_idx < 1024,
            alpha as int == alpha_after(alpha_in as int, gs),
            best_score as int == alpha_after(-i32::MAX as int, gs),
            0 < depth <= 10_000,
            0 <= ply < 10_000,
            in_check == king_in_check(node, player),
            static_eval == static_score(node, player),
            -SCORE_LIMIT <= static_eval <= SCORE_LIMIT,
            do_futility == (depth <= 6 && !in_check && static_eval + 77 * depth < alpha_in),
            legal_idx == gs.len(),
            gidx.len() == gs.len(),
            gbs.len() == gs.len(),
            gms.len() == gs.len(),
            g1.len() == gs.len(),
            g2.len() == gs.len(),
            g3.len() == gs.len(),
            forall|k: int| 0 <= k < gidx.len() ==> 0 <= #[trigger] gidx[k] < moves.len() && done[gidx[k]],
            forall|k1: int, k2: int| 0 <= k1 < k2 < gidx.len() ==> gidx[k1] != gidx[k2],
            forall|j: int|
                0 <= j < moves.len() && done[j] && !gidx.contains(j) ==> mm_passed(
                    node,
                    #[trigger] moves@[j],
                    do_futility,
                    player,
                ),
            mm_trace(node, depth as int, alpha_in as int, beta as int, player, in_check, do_futility, moves@, gidx, gbs, gms, gs, g1, g2, g3),
            gidx.len() + count_false(done@) <= moves.len(),
            !stopped && tt is None ==> mm_kids(g1, g2, g3, player, ply as int),
        ensures
            board.wf(),
            same_position(*board, node),
            tables.wf(),
            tables.cells == old(tables).cells,
            -i32::MAX <= best_score,
            best_move matches Some(m) ==> m.to_idx < 1024,
            best_score as int == alpha_after(-i32::MAX as int, gs),
            gms.len() == gs.len(),
            !stopped ==> mm_moves(
                node,
                depth as int,
                alpha_in as int,
                beta as int,
                player,
                in_check,
                static_eval as int,
                moves@,
                gidx,
                gbs,
                gms,
                gs,
                g1,
                g2,
                g3,
            ),
            !stopped && tt is None ==> mm_kids(g1, g2, g3, player, ply as int),
        decreases count_false(done@),
    {
        let j = match next_best_key(&keys, &done) {
            Some(j) => j,
            None => {
                break;
            },
        };
        let ghost done0 = done@;
        let ghost gidx0 = gidx;
        proof {
            lemma_count_false_set(done@, j as int);
            assert(!gidx.contains(j as int));
        }
        done.set(j, true);
        let mv = &moves[j];
        assert(mv.from@.len() == dim && mv.to@.len() == dim);
        proof {
            lemma_same_position(*board, node, *mv, player);
        }
        let cells = move_cells(board, mv);
        let capture = match cells {
            Some((_, t)) => board.get_piece_at_index(t).is_some(),
            None => false,
        };
        let quiet = !capture && mv.promotion.is_none();
        assert(quiet == quiet_move(*board, *mv));
        let hist: i32 = match cells {
            Some((f, t)) => history_of(tables, player, f, t, board.geo.total_cells),
            None => 0,
        };
        let ghost bc = *board;
        match play(board, mv) {
            None => {
                proof {
                    lemma_mm_passed_kept(done0, done@, gidx0, gidx, j as int, moves@, node, do_futility, player);
                }
            },
            Some(info) => {
                let ghost mid = *board;
                assert(board.geo == node.geo);
                let gives_check = board.in_check(player.opponent());
                if do_futility && quiet && !gives_check {
                    take_back(board, mv, info, Ghost(bc), Ghost(mid));
                    proof {
                        lemma_same_trans(*board, bc, node);
                        assert(applied(bc, moves@[j as int], mid));
                        assert(mm_passed(node, moves@[j as int], do_futility, player));
                        lemma_mm_passed_kept(done0, done@, gidx0, gidx, j as int, moves@, node, do_futility, player);
                    }
                } else {
                    let red = reduction(lmr, depth, legal_idx, quiet, in_check, pv_node, hist);
                    let base: usize = if gives_check {
                        depth
                    } else {
                        depth - 1
                    };
                    let ghost mut e1: (Board, int, int, int, int) = (mid, 0, 0, 0, 0);
                    let ghost mut e2: Option<(Board, int, int, int, int)> = None;
                    let ghost mut e3: Option<(Board, int, int, int, int)> = None;
                    let score: i32 = if legal_idx == 0 {
                        let ghost cb = *board;
                        let (v, st) = minimax(board, base, -beta, -alpha, player.opponent(), ply + 1, true, tt, lmr, tables, nodes, stop);
                        if st {
                            stopped = true;
                        }
                        proof {
                            assert(same_position(cb, mid));
                            lemma_same_trans(*board, cb, mid);
                            e1 = (cb, base as int, -beta as int, -alpha as int, v as int);
                        }
                        -v
                    } else {
                        let scout: i32 = if alpha < i32::MAX {
                            -alpha - 1
                        } else {
                            -i32::MAX
                        };
                        let ghost cb1 = *board;
                        let (v1, st1) = minimax(board, base - red, scout, -alpha, player.opponent(), ply + 1, true, tt, lmr, tables, nodes, stop);
                        if st1 {
                            stopped = true;
                        }
                        proof {
                            assert(same_position(cb1, mid));
                            lemma_same_trans(*board, cb1, mid);
                            e1 = (cb1, (base - red) as int, scout as int, -alpha as int, v1 as int);
                        }
                        let mut sc = -v1;
                        if sc > alpha && red > 0 {
                            let ghost cb2 = *board;
                            let (v2, st2) = minimax(board, base, scout, -alpha, player.opponent(), ply + 1, true, tt, lmr, tables, nodes, stop);
                            if st2 {
                                stopped = true;
                            }
                            proof {
                                lemma_same_trans(*board, cb2, mid);
                                e2 = Some((cb2, base as int, scout as int, -alpha as int, v2 as int));
                            }
                            sc = -v2;
                        }
                        if sc > alpha && sc < beta {
                            let ghost cb3 = *board;
                            let (v3, st3) = minimax(board, base, -beta, -alpha, player.opponent(), ply + 1, true, tt, lmr, tables, nodes, stop);
                            if st3 {
                                stopped = true;
                            }
                            proof {
                                lemma_same_trans(*board, cb3, mid);
                                e3 = Some((cb3, base as int, -beta as int, -alpha as int, v3 as int));
                            }
                            sc = -v3;
                        }
                        sc
                    };
                    take_back(board, mv, info, Ghost(bc), Ghost(mid));
                    proof {
                        lemma_same_trans(*board, bc, node);
                        lemma_take_push(gs, score as int);
                        if !stopped && tt is None {
                            lemma_mm_kids_push(g1, g2, g3, player, ply as int, e1, e2, e3);
                        }
                        lemma_mm_trace_push(node, depth as int, alpha_in as int, beta as int, player, in_check, do_futility, moves@, gidx, gbs, gms, gs, g1, g2, g3, j as int, bc, mid, score as int, e1, e2, e3);
                        gidx = gidx.push(j as int);
                        lemma_mm_passed_kept(done0, done@, gidx0, gidx, j as int, moves@, node, do_futility, player);
                        let gs0 = gs;
                        gbs = gbs.push(bc);
                        gms = gms.push(mid);
                        gs = gs.push(score as int);
                        g1 = g1.push(e1);
                        g2 = g2.push(e2);
                        g3 = g3.push(e3);
                        assert(gs.take(gs.len() as int) =~= gs);
                        assert forall|k: int| 0 <= k < gs0.len() implies #[trigger] gs.take(k + 1) == gs0.take(k + 1) by {
                            assert(gs.take(k + 1) =~= gs0.take(k + 1));
                        }
                    }
                    legal_idx += 1;
                    if score > best_score {
                        best_score = score;
                        best_move = pack_move(board, mv);
                    }
                    if score > alpha {
                        alpha = score;
                    }
                    if alpha >= beta {
                        if quiet {
                            match cells {
                                Some((f, t)) => {
                                    reward_quiet(tables, depth, player, f, t);
                                },
                                None => {},
                            }
                        }
                        cut = true;
                        break;
                    }
                    if stop_requested(stop) {
                        stopped = true;
                        break;
                    }
                }
            },
        }
    }
    (best_score, best_move, stopped, Ghost((gidx, gbs, gms, gs, g1, g2, g3)))
}

/// The legal moves passed over stay passed over when one more entry is marked done, its
/// move made and searched or passed over.
proof fn lemma_mm_passed_kept(
    done0: Seq<bool>,
    done1: Seq<bool>,
    gidx0: Seq<int>,
    gidx1: Seq<int>,
    j: int,
    l: Seq<Move>,
    node: Board,
    do_fut: bool,
    player: Player,
)
    requires
        done0.len() == l.len(),
        0 <= j < l.len(),
        done1 == done0.update(j, true),
        gidx1 == gidx0.push(j) || (gidx1 == gidx0 && mm_passed(node, l[j], do_fut, player)),
        forall|i: int| 0 <= i < l.len() && done0[i] && !gidx0.contains(i) ==> mm_passed(node, #[trigger] l[i], do_fut, player),
    ensures
        forall|i: int| 0 <= i < l.len() && done1[i] && !gidx1.contains(i) ==> mm_passed(node, #[trigger] l[i], do_fut, player),
{
    assert forall|i: int| 0 <= i < l.len() && done1[i] && !gidx1.contains(i) implies mm_passed(node, #[trigger] l[i], do_fut, player) by {
        if gidx1 == gidx0.push(j) {
            if i == j {
                assert(gidx1[gidx0.len() as int] == j);
            } else {
                assert(done0[i]);
                if gidx0.contains(i) {
                    let w = choose|w: int| 0 <= w < gidx0.len() && gidx0[w] == i;
                    assert(gidx1[w] == i);
                }
            }
        } else if i != j {
            assert(done0[i]);
        }
    }
}

/// One more move searched after the others keeps `mm_kids`.
proof fn lemma_mm_kids_push(
    c1: Seq<(Board, int, int, int, int)>,
    c2: Seq<Option<(Board, int, int, int, int)>>,
    c3: Seq<Option<(Board, int, int, int, int)>>,
    player: Player,
    ply: int,
    e1: (Board, int, int, int, int),
    e2: Option<(Board, int, int, int, int)>,
    e3: Option<(Board, int, int, int, int)>,
)
    requires
        c2.len() == c1.len(),
        c3.len() == c1.len(),
        mm_kids(c1, c2, c3, player, ply),
        mm_value(e1.0, e1.1 as nat, e1.2, e1.3, player.spec_opponent(), ply + 1, true, e1.4),
        e2 matches Some(c) ==> mm_value(c.0, c.1 as nat, c.2, c.3, player.spec_opponent(), ply + 1, true, c.4),
        e3 matches Some(c) ==> mm_value(c.0, c.1 as nat, c.2, c.3, player.spec_opponent(), ply + 1, true, c.4),
    ensures
        mm_kids(c1.push(e1), c2.push(e2), c3.push(e3), player, ply),
{
    assert forall|k: int| 0 <= k < c1.len() + 1 implies {
        &&& mm_value(
            (#[trigger] c1.push(e1)[k]).0,
            c1.push(e1)[k].1 as nat,
            c1.push(e1)[k].2,
            c1.push(e1)[k].3,
            player.spec_opponent(),
            ply + 1,
            true,
            c1.push(e1)[k].4,
        )
        &&& c2.push(e2)[k] matches Some(c) ==> mm_value(c.0, c.1 as nat, c.2, c.3, player.spec_opponent(), ply + 1, true, c.4)
        &&& c3.push(e3)[k] matches Some(c) ==> mm_value(c.0, c.1 as nat, c.2, c.3, player.spec_opponent(), ply + 1, true, c.4)
    } by {
        if k < c1.len() {
            assert(c1.push(e1)[k] == c1[k]);
            assert(c2.push(e2)[k] == c2[k]);
            assert(c3.push(e3)[k] == c3[k]);
        } else {
            assert(c1.push(e1)[k] == e1);
            assert(c2.push(e2)[k] == e2);
            assert(c3.push(e3)[k] == e3);
        }
    }
}

/// A node whose moves were searched as `mm_frame` describes, each search below it having
/// the value `mm_value` gives, has the value `r`.
proof fn lemma_mm_value_intro(
    b: Board,
    depth: nat,
    alpha: int,
    beta: int,
    player: Player,
    ply: int,
    allow_null: bool,
    nb: Board,
    ni: UnmakeInfo,
    vn: int,
    rc: Board,
    qv: int,
    lb: Board,
    l: Seq<Move>,
    idx: Seq<int>,
    bs: Seq<Board>,
    ms: Seq<Board>,
    s: Seq<int>,
    c1: Seq<(Board, int, int, int, int)>,
    c2: Seq<Option<(Board, int, int, int, int)>>,
    c3: Seq<Option<(Board, int, int, int, int)>>,
    r: int,
)
    requires
        mate_cut(alpha, beta, ply) is None,
        depth > 0,
        ply < 10_000,
        searchable(b),
        mm_frame(
            b,
            depth,
            mate_alpha(alpha, ply),
            mate_beta(beta, ply),
            player,
            ply,
            allow_null,
            nb,
            ni,
            vn,
            rc,
            qv,
            lb,
            l,
            idx,
            bs,
            ms,
            s,
            c1,
            c2,
            c3,
            r,
        ),
        null_tried(
            allow_null,
            depth as int,
            king_in_check(b, player),
            static_score(b, player),
            mate_beta(beta, ply),
        ) ==> mm_value(
            nb,
            null_depth(depth as int) as nat,
            -mate_beta(beta, ply),
            -mate_beta(beta, ply) + 1,
            player.spec_opponent(),
            ply + 1,
            false,
            vn,
        ),
        c2.len() == c1.len(),
        c3.len() == c1.len(),
        c1.len() == s.len(),
        mm_kids(c1, c2, c3, player, ply),
    ensures
        mm_value(b, depth, alpha, beta, player, ply, allow_null, r),
{
    reveal_with_fuel(mm_value, 2);
    let ma = mate_alpha(alpha, ply);
    let mb = mate_beta(beta, ply);
    assert(mm_frame(b, depth, ma, mb, player, ply, allow_null, nb, ni, vn, rc, qv, lb, l, idx, bs, ms, s, c1, c2, c3, r));
    assert(forall|k: int|
        0 <= k < s.len() ==> {
            &&& mm_value(
                (#[trigger] c1[k]).0,
                c1[k].1 as nat,
                c1[k].2,
                c1[k].3,
                player.spec_opponent(),
                ply + 1,
                true,
                c1[k].4,
            )
            &&& c2[k] matches Some(c) ==> mm_value(c.0, c.1 as nat, c.2, c.3, player.spec_opponent(), ply + 1, true, c.4)
            &&& c3[k] matches Some(c) ==> mm_value(c.0, c.1 as nat, c.2, c.3, player.spec_opponent(), ply + 1, true, c.4)
        });
    assert(!(depth == 0 || ply >= 10_000));
    assert(mate_cut(alpha, beta, ply) is None);
}

/// A node of the principal search once the table entry `probe` of the position was read
/// (see `minimax`): the entry's cutoff answers at once (`tt_cut`), else it narrows the
/// window (`probed_window`); mate-distance pruning may answer next (`mate_cut`); at depth 0
/// the quiescence search answers, as it does 10,000 plies from the root; a board that is
/// not `searchable` answers `alpha`. With a table, at a principal-variation node
/// (`beta > alpha + 1`) of depth 5 or more with no table move, a search two plies
/// shallower on a copy of the board fills the table, whose move is then tried first. Out
/// of check, with `allow_null`, at depth 3 or more and a static score at least `beta`, a
/// null move searched `min(3 + depth / 3, depth - 1)` plies shallower with a null window
/// that still fails high answers `beta`. Out of check at depth 3 or less, when the static
/// score plus 300, 500 or 700 (by depth) is below `alpha`, a quiescence search on a copy of
/// the board that stays below `alpha` answers. With no legal move the node is mated
/// (`-30000 + ply`) or drawn (0). Else the legal moves are searched best key first
/// (`order_key`), quiet moves that give no check skipped at depth 6 or less when the
/// static score plus `77 * depth` is below `alpha` and the side is not in check; a move
/// that gives check is searched one ply deeper than the others: the first with the full
/// window, the others with a null window, reduced late quiet moves (`reduction`) searched
/// again unreduced when they beat `alpha`, and searched again with the full window when
/// inside it; a quiet move that causes a cutoff is rewarded (`reward_quiet`); the search
/// stops between moves when asked. The best score is stored with its move and bound kind,
/// and returned. The flag tells whether a stop was seen; without a table and a stop the
/// score is the one `mm_value` describes.
#[verifier::spinoff_prover]
#[verifier::rlimit(100)]
pub fn minimax_node(
    board: &mut Board,
    depth: usize,
    alpha_in: i32,
    beta_in: i32,
    player: Player,
    ply: i32,
    allow_null: bool,
    tt: Option<&LockFreeTT>,
    lmr: &Vec<Vec<i32>>,
    tables: &mut SearchTables,
    nodes: &AtomicUsize,
    stop: &AtomicBool,
    probe: Option<(i32, u8, Flag, Option<PackedMove>)>,
) -> (r: (i32, bool))
    requires
        old(board).wf(),
        tt matches Some(t) ==> t.wf(),
        tt is None ==> probe is None,
        old(tables).wf(),
        -i32::MAX <= alpha_in,
        -i32::MAX <= beta_in,
        depth <= 10_000,
        0 <= ply <= 10_000,
        probe matches Some(e) ==> -32768 <= e.0 <= 32767,
    ensures
        final(board).wf(),
        same_position(*final(board), *old(board)),
        final(tables).wf(),
        final(tables).cells == old(tables).cells,
        -i32::MAX <= r.0,
        tt_cut(probe, depth as int, alpha_in as int, beta_in as int) matches Some(v) ==> r.0 == v,
        !r.1 && tt is None ==> mm_value(
            *old(board),
            depth as nat,
            alpha_in as int,
            beta_in as int,
            player,
            ply as int,
            allow_null,
            r.0 as int,
        ),
    decreases 10_000 - ply, depth, 1nat,
{
    let ghost b0 = *board;
    let hash = board.state.hash;
    let mut alpha = alpha_in;
    let mut beta = beta_in;
    let mut tt_move: Option<(u16, u16)> = None;
    match probe {
        Some((tt_score, tt_depth, tt_flag, best_m)) => {
            match best_m {
                Some(pm) => {
                    tt_move = Some((pm.from_idx, pm.to_idx));
                },
                None => {},
            }
            if tt_depth as usize >= depth {
                match tt_flag {
                    Flag::Exact => {
                        return (tt_score, false);
                    },
                    Flag::LowerBound => {
                        if tt_score > alpha {
                            alpha = tt_score;
                        }
                    },
                    Flag::UpperBound => {
                        if tt_score < beta {
                            beta = tt_score;
                        }
                    },
                }
                if alpha >= beta {
                    return (tt_score, false);
                }
            }
        },
        None => {},
    }
    let mating = CHECKMATE_SCORE - ply;
    if mating < beta {
        beta = mating;
        if alpha >= mating {
            return (mating, false);
        }
    }
    let mated = -CHECKMATE_SCORE + ply;
    if mated > alpha {
        alpha = mated;
        if beta <= mated {
            return (mated, false);
        }
    }
    assert(tt is None ==> alpha == mate_alpha(alpha_in as int, ply as int) && beta == mate_beta(beta_in as int, ply as int));
    let alpha0 = alpha;
    if depth == 0 || ply >= 10_000 {
        return q_search(board, alpha, beta, player, nodes, stop, tt);
    }
    if !is_searchable(board) {
        return (alpha, false);
    }
    proof {
        crate::search_core::lemma_fits_small(b0);
    }
    match tt {
        Some(t) => {
            if (beta as i64) > (alpha as i64) + 1 && tt_move.is_none() && depth >= 5 {
                let mut copy = board.duplicate();
                let _ = minimax(&mut copy, depth - 2, alpha, beta, player, ply, allow_null, tt, lmr, tables, nodes, stop);
                match crate::search_core::probe(Some(t), hash) {
                    Some((_, _, _, Some(pm))) => {
                        tt_move = Some((pm.from_idx, pm.to_idx));
                    },
                    _ => {},
                }
            }
        },
        None => {},
    }
    let in_check = board.in_check(player);
    let static_eval = stand_pat(board, player);
    let null_tried_now = allow_null && depth >= 3 && !in_check && static_eval >= beta && beta > -i32::MAX;
    let ghost mut nb: Board = b0;
    let ghost mut ni: UnmakeInfo = UnmakeInfo { captured: None, en_passant_target: None, castling_rights: 0 };
    let ghost mut vn: int = 0;
    let mut stopped = false;
    if null_tried_now {
        let (child, st, Ghost(n), Ghost(i)) = null_move_score(board, depth, beta, player, ply, tt, lmr, tables, nodes, stop);
        if st {
            stopped = true;
        }
        proof {
            nb = n;
            ni = i;
            vn = child as int;
        }
        if -child >= beta {
            proof {
                if !stopped && tt is None {
                    lemma_mm_value_intro(b0, depth as nat, alpha_in as int, beta_in as int, player, ply as int, allow_null, nb, ni, vn, b0, 0, b0, Seq::empty(), Seq::empty(), Seq::empty(), Seq::empty(), Seq::empty(), Seq::empty(), Seq::empty(), Seq::empty(), beta as int);
                }
            }
            return (beta, stopped);
        }
    }
    let razor: i32 = if depth == 1 {
        300
    } else if depth == 2 {
        500
    } else {
        700
    };
    let ghost mut rc: Board = b0;
    let ghost mut qv: int = 0;
    if depth <= 3 && !in_check && static_eval + razor < alpha {
        let mut probe_board = board.duplicate();
        proof {
            lemma_same_trans(probe_board, *board, b0);
            rc = probe_board;
        }
        let (q, st) = q_search(&mut probe_board, alpha, beta, player, nodes, stop, tt);
        if st {
            stopped = true;
        }
        proof {
            qv = q as int;
        }
        if q < alpha {
            proof {
                if !stopped && tt is None {
                    lemma_mm_value_intro(b0, depth as nat, alpha_in as int, beta_in as int, player, ply as int, allow_null, nb, ni, vn, rc, qv, b0, Seq::empty(), Seq::empty(), Seq::empty(), Seq::empty(), Seq::empty(), Seq::empty(), Seq::empty(), Seq::empty(), q as int);
                }
            }
            return (q, stopped);
        }
    }
    let ghost b1 = *board;
    let moves = board.generate_legal_moves(player).into_vec();
    proof {
        lemma_same_trans(*board, b1, b0);
        crate::movegen::lemma_check_congruent(*board, b0, player);
    }
    if moves.len() == 0 {
        proof {
            if !stopped && tt is None {
                lemma_mm_value_intro(b0, depth as nat, alpha_in as int, beta_in as int, player, ply as int, allow_null, nb, ni, vn, rc, qv, b1, moves@, Seq::empty(), Seq::empty(), Seq::empty(), Seq::empty(), Seq::empty(), Seq::empty(), Seq::empty(), if in_check { mated as int } else { 0 });
            }
        }
        if in_check {
            return (mated, stopped);
        }
        return (0, stopped);
    }
    let (best_score, best_move, moves_stopped, Ghost(trace)) = search_moves(board, &moves, depth, alpha, beta, player, ply, tt_move, in_check, static_eval, tt, lmr, tables, nodes, stop, Ghost(b0));
    if moves_stopped {
        stopped = true;
    }
    match tt {
        Some(t) => {
            let flag = if best_score <= alpha0 {
                Flag::UpperBound
            } else if best_score >= beta {
                Flag::LowerBound
            } else {
                Flag::Exact
            };
            t.store(hash, best_score, (depth % 256) as u8, flag, best_move);
        },
        None => {},
    }
    proof {
        if !stopped && tt is None {
            lemma_mm_value_intro(b0, depth as nat, alpha_in as int, beta_in as int, player, ply as int, allow_null, nb, ni, vn, rc, qv, b1, moves@, trace.0, trace.1, trace.2, trace.3, trace.4, trace.5, trace.6, best_score as int);
        }
    }
    (best_score, stopped)
}

/// The principal search of `depth` plies for `player` in `alpha`..`beta`, `ply` plies
/// from the root: the node is counted, a stop request answers 0, and the table entry of
/// the position is read before the node is searched (see `minimax_node`). The board holds
/// the same position afterwards. The flag tells whether a stop was seen; without a table
/// and a stop the score is the one `mm_value` describes.
pub fn minimax(
    board: &mut Board,
    depth: usize,
    alpha: i32,
    beta: i32,
    player: Player,
    ply: i32,
    allow_null: bool,
    tt: Option<&LockFreeTT>,
    lmr: &Vec<Vec<i32>>,
    tables: &mut SearchTables,
    nodes: &AtomicUsize,
    stop: &AtomicBool,
) -> (r: (i32, bool))
    requires
        old(board).wf(),
        tt matches Some(t) ==> t.wf(),
        old(tables).wf(),
        -i32::MAX <= alpha,
        -i32::MAX <= beta,
        depth <= 10_000,
        0 <= ply <= 10_000,
    ensures
        final(board).wf(),
        same_position(*final(board), *old(board)),
        final(tables).wf(),
        final(tables).cells == old(tables).cells,
        -i32::MAX <= r.0,
        !r.1 && tt is None ==> mm_value(
            *old(board),
            depth as nat,
            alpha as int,
            beta as int,
            player,
            ply as int,
            allow_null,
            r.0 as int,
        ),
    decreases 10_000 - ply, depth, 2nat,
{
    count_node(nodes);
    if stop_requested(stop) {
        return (0, true);
    }
    let probe = crate::search_core::probe(tt, board.state.hash);
    minimax_node(board, depth, alpha, beta, player, ply, allow_null, tt, lmr, tables, nodes, stop, probe)
}


/// Whether a move is kept as legal depends only on its squares and promotion.
proof fn lemma_keep_view(b: Board, player: Player, m1: Move, m2: Move)
    requires
        crate::movegen::mview(m1) == crate::movegen::mview(m2),
    ensures
        crate::legal::keep(b, player)(m1) == crate::legal::keep(b, player)(m2),
{
    assert(m1.from@ == m2.from@ && m1.to@ == m2.to@ && m1.promotion == m2.promotion);
    assert(move_ok(b, m1) == move_ok(b, m2));
    assert(crate::make_move::moving(b, m1) == crate::make_move::moving(b, m2));
    assert(crate::make_move::ep_capture(b, m1) == crate::make_move::ep_capture(b, m2));
    assert(crate::make_move::castle_rook(b, m1) == crate::make_move::castle_rook(b, m2));
    assert(crate::make_move::placed_piece(b, m1) == crate::make_move::placed_piece(b, m2));
    assert(crate::make_move::new_ep(b, m1) == crate::make_move::new_ep(b, m2));
    assert(crate::make_move::rights_after(b, m1) == crate::make_move::rights_after(b, m2));
    assert(crate::make_move::applied_hash(b, m1) == crate::make_move::applied_hash(b, m2));
    assert forall|j: int| #[trigger] crate::make_move::applied_bits(b, m1, j)
        == crate::make_move::applied_bits(b, m2, j) by {}
    assert forall|n: Board| #[trigger] applied(b, m1, n) == applied(b, m2, n) by {}
    if crate::movegen::check_after(b, m1, player) {
        assert forall|n: Board| #[trigger] applied(b, m2, n) implies crate::movegen::king_in_check(n, player) by {
            assert(applied(b, m1, n));
        }
    }
    if crate::movegen::check_after(b, m2, player) {
        assert forall|n: Board| #[trigger] applied(b, m1, n) implies crate::movegen::king_in_check(n, player) by {
            assert(applied(b, m2, n));
        }
    }
}

/// Two lists of the legal moves have the same length.
proof fn lemma_legal_list_len(b: Board, player: Player, l1: Seq<Move>, l2: Seq<Move>)
    requires
        legal_list(b, player, l1),
        legal_list(b, player, l2),
    ensures
        l1.len() == l2.len(),
{
    let f = crate::legal::keep(b, player);
    let p1 = choose|p: Seq<Move>|
        #![trigger p.filter(f)]
        crate::movegen::views(p) == crate::movegen::pseudo_legal(b, player) && crate::movegen::views(l1)
            == crate::movegen::views(p.filter(f)) + crate::movegen::castling_moves(b, player);
    let p2 = choose|p: Seq<Move>|
        #![trigger p.filter(f)]
        crate::movegen::views(p) == crate::movegen::pseudo_legal(b, player) && crate::movegen::views(l2)
            == crate::movegen::views(p.filter(f)) + crate::movegen::castling_moves(b, player);
    lemma_filter_same_len(p1, p2, b, player);
    assert(crate::movegen::views(l1).len() == l1.len());
    assert(crate::movegen::views(l2).len() == l2.len());
}

/// Filtering two lists of moves with the same views keeps as many moves.
proof fn lemma_filter_same_len(p1: Seq<Move>, p2: Seq<Move>, b: Board, player: Player)
    requires
        crate::movegen::views(p1) == crate::movegen::views(p2),
    ensures
        p1.filter(crate::legal::keep(b, player)).len() == p2.filter(crate::legal::keep(b, player)).len(),
    decreases p1.len(),
{
    let f = crate::legal::keep(b, player);
    assert(p1.len() == crate::movegen::views(p1).len());
    assert(p2.len() == crate::movegen::views(p2).len());
    reveal(Seq::filter);
    if p1.len() > 0 {
        let n = p1.len() - 1;
        assert(crate::movegen::views(p1.drop_last()) =~= crate::movegen::views(p1).drop_last());
        assert(crate::movegen::views(p2.drop_last()) =~= crate::movegen::views(p2).drop_last());
        lemma_filter_same_len(p1.drop_last(), p2.drop_last(), b, player);
        assert(crate::movegen::views(p1)[n] == crate::movegen::views(p2)[n]);
        lemma_keep_view(b, player, p1.last(), p2.last());
    }
}

/// The index of the first greatest score of `s` (0 when there is none).
pub open spec fn best_of(s: Seq<int>) -> int
    decreases s.len(),
{
    if s.len() <= 1 {
        0
    } else {
        let p = best_of(s.drop_last());
        if s.last() > s[p] {
            s.len() - 1
        } else {
            p
        }
    }
}

/// The first greatest score is one of the scores.
proof fn lemma_best_of_range(s: Seq<int>)
    ensures
        s.len() > 0 ==> 0 <= best_of(s) < s.len(),
    decreases s.len(),
{
    if s.len() > 1 {
        lemma_best_of_range(s.drop_last());
    }
}

/// The first greatest score stays within the scores as one more is pushed.
proof fn lemma_best_of_push(s: Seq<int>, x: int)
    ensures
        best_of(s.push(x)) == (if s.len() == 0 {
            0
        } else if x > s[best_of(s)] {
            s.len() as int
        } else {
            best_of(s)
        }),
        s.len() > 0 ==> 0 <= best_of(s) < s.len(),
    decreases s.len(),
{
    assert(s.push(x).drop_last() =~= s);
    if s.len() > 1 {
        lemma_best_of_push(s.drop_last(), s.last());
        assert(s.drop_last().push(s.last()) =~= s);
    }
}

/// One pass of the root search over `moves` in order, at `depth` plies in `alpha`..`beta`
/// from `b`: the moves `moves[tried[k]]`, in increasing order, were made on `bs[k]`
/// (holding the position of `b`) giving `ms[k]` and scored `s[k]`; only the last score may
/// reach `beta` (`failed_high` tells whether it did), and when none did every other move
/// does not fit the board or cannot be made and taken back.
pub open spec fn root_pass_ok(
    b: Board,
    moves: Seq<Move>,
    beta: int,
    tried: Seq<int>,
    bs: Seq<Board>,
    ms: Seq<Board>,
    s: Seq<int>,
    failed_high: bool,
) -> bool {
    &&& tried.len() == s.len()
    &&& bs.len() == s.len()
    &&& ms.len() == s.len()
    &&& forall|k: int| 0 <= k < tried.len() ==> 0 <= #[trigger] tried[k] < moves.len()
    &&& forall|k1: int, k2: int| 0 <= k1 < k2 < tried.len() ==> tried[k1] < tried[k2]
    &&& forall|k: int|
        0 <= k < s.len() ==> {
            &&& same_position(#[trigger] bs[k], b)
            &&& fits_dims(bs[k], moves[tried[k]])
            &&& playable(bs[k], moves[tried[k]])
            &&& applied(bs[k], moves[tried[k]], ms[k])
        }
    &&& forall|k: int| 0 <= k < s.len() - 1 ==> #[trigger] s[k] < beta
    &&& failed_high == (s.len() > 0 && s.last() >= beta)
    &&& !failed_high ==> forall|j: int|
        0 <= j < moves.len() && !tried.contains(j) ==> !fits_dims(b, #[trigger] moves[j]) || !playable(b, moves[j])
}

/// Each move of a root pass was scored by the negated value of the opponent's principal
/// search one ply less deep, one ply from the root, in the window its turn left.
pub open spec fn root_kids(ms: Seq<Board>, s: Seq<int>, depth: int, alpha: int, beta: int, player: Player) -> bool {
    forall|k: int|
        0 <= k < s.len() ==> mm_value(
            #[trigger] ms[k],
            (depth - 1) as nat,
            -beta,
            -alpha_after(alpha, s.take(k)),
            player.spec_opponent(),
            1,
            true,
            -s[k],
        )
}

/// One pass of the root search at `depth` plies over `moves` in order, in the window
/// `alpha`..`beta`: returns the best score and the index of its first move (none before a
/// first move was searched), whether a score reached `beta` (the pass then ends), and
/// whether a stop was requested (the pass then ends, dropping the score of the move in
/// progress); the ghost value is the pass as `root_pass_ok` describes it.
#[verifier::spinoff_prover]
#[verifier::rlimit(80)]
fn root_pass(
    board: &mut Board,
    moves: &Vec<Move>,
    depth: usize,
    alpha: i32,
    beta: i32,
    player: Player,
    tt: Option<&LockFreeTT>,
    lmr: &Vec<Vec<i32>>,
    tables: &mut SearchTables,
    nodes: &AtomicUsize,
    stop: &AtomicBool,
) -> (r: (i32, Option<usize>, bool, bool, Ghost<(Seq<int>, Seq<Board>, Seq<Board>, Seq<int>)>))
    requires
        old(board).wf(),
        searchable(*old(board)),
        tt matches Some(t) ==> t.wf(),
        old(tables).wf(),
        -i32::MAX <= alpha,
        -i32::MAX <= beta,
        1 <= depth <= 10_000,
    ensures
        final(board).wf(),
        same_position(*final(board), *old(board)),
        final(tables).wf(),
        final(tables).cells == old(tables).cells,
        -i32::MAX <= r.0,
        r.1 matches Some(i) ==> i < moves.len(),
        !r.3 ==> root_pass_ok(*old(board), moves@, beta as int, r.4@.0, r.4@.1, r.4@.2, r.4@.3, r.2),
        !r.3 ==> (r.1 is None <==> r.4@.3.len() == 0),
        !r.3 && r.4@.3.len() > 0 ==> r.1 == Some(r.4@.0[best_of(r.4@.3)] as usize) && r.0 == r.4@.3[best_of(r.4@.3)],
        !r.3 && tt is None ==> root_kids(r.4@.2, r.4@.3, depth as int, alpha as int, beta as int, player),
{
    let ghost b0 = *board;
    let dim = board.geo.dimension;
    let mut best: i32 = -i32::MAX;
    let mut best_idx: Option<usize> = None;
    let mut alpha_inner = alpha;
    let mut failed_high = false;
    let mut stopped = false;
    let ghost mut gt: Seq<int> = Seq::empty();
    let ghost mut gbs: Seq<Board> = Seq::empty();
    let ghost mut gms: Seq<Board> = Seq::empty();
    let ghost mut gs: Seq<int> = Seq::empty();
    let mut i: usize = 0;
    while i < moves.len()
        invariant_except_break
            !failed_high,
            !stopped,
            forall|k: int| 0 <= k < gs.len() ==> #[trigger] gs[k] < beta,
            forall|k: int| 0 <= k < gt.len() ==> #[trigger] gt[k] < i,
            forall|j: int| 0 <= j < i && !gt.contains(j) ==> !fits_dims(b0, #[trigger] moves@[j]) || !playable(b0, moves@[j]),
        invariant
            board.wf(),
            same_position(*board, b0),
            searchable(b0),
            dim == b0.geo.dimension,
            tt matches Some(t) ==> t.wf(),
            tables.wf(),
            tables.cells == old(tables).cells,
            b0 == *old(board),
            -i32::MAX <= alpha,
            -i32::MAX <= beta,
            -i32::MAX <= alpha_inner,
            -i32::MAX <= best,
            1 <= depth <= 10_000,
            i <= moves.len(),
            alpha_inner as int == alpha_after(alpha as int, gs),
            gt.len() == gs.len(),
            gbs.len() == gs.len(),
            gms.len() == gs.len(),
            forall|k: int| 0 <= k < gt.len() ==> 0 <= #[trigger] gt[k] < moves.len(),
            best_idx matches Some(j) ==> j < moves.len(),
            forall|k1: int, k2: int| 0 <= k1 < k2 < gt.len() ==> gt[k1] < gt[k2],
            forall|k: int|
                0 <= k < gs.len() ==> {
                    &&& same_position(#[trigger] gbs[k], b0)
                    &&& fits_dims(gbs[k], moves@[gt[k]])
                    &&& playable(gbs[k], moves@[gt[k]])
                    &&& applied(gbs[k], moves@[gt[k]], gms[k])
                },
            forall|k: int| 0 <= k < gs.len() - 1 ==> #[trigger] gs[k] < beta,
            failed_high == (gs.len() > 0 && gs.last() >= beta),
            best_idx is None <==> gs.len() == 0,
            gs.len() > 0 ==> best_idx == Some(gt[best_of(gs)] as usize) && best as int == gs[best_of(gs)],
            !stopped && tt is None ==> root_kids(gms, gs, depth as int, alpha as int, beta as int, player),
        ensures
            board.wf(),
            same_position(*board, b0),
            tables.wf(),
            tables.cells == old(tables).cells,
            -i32::MAX <= best,
            gt.len() == gs.len(),
            gbs.len() == gs.len(),
            gms.len() == gs.len(),
            best_idx matches Some(j) ==> j < moves.len(),
            !stopped ==> root_pass_ok(b0, moves@, beta as int, gt, gbs, gms, gs, failed_high),
            best_idx is None <==> gs.len() == 0,
            gs.len() > 0 ==> best_idx == Some(gt[best_of(gs)] as usize) && best as int == gs[best_of(gs)],
            !stopped && tt is None ==> root_kids(gms, gs, depth as int, alpha as int, beta as int, player),
        decreases moves.len() - i,
    {
        let mv = &moves[i];
        let ghost gt0 = gt;
        if mv.from.values.len() == dim && mv.to.values.len() == dim {
            proof {
                lemma_same_position(*board, b0, *mv, player);
            }
            let ghost bc = *board;
            match play(board, mv) {
                None => {},
                Some(info) => {
                    let ghost mid = *board;
                    let (child, child_stopped) = minimax(board, depth - 1, -beta, -alpha_inner, player.opponent(), 1, true, tt, lmr, tables, nodes, stop);
                    let score = -child;
                    take_back(board, mv, info, Ghost(bc), Ghost(mid));
                    proof {
                        lemma_same_trans(*board, bc, b0);
                    }
                    let stop_now = stop_requested(stop);
                    if stop_now || child_stopped {
                        stopped = true;
                        break;
                    }
                    proof {
                        lemma_take_push(gs, score as int);
                        lemma_best_of_push(gs, score as int);
                        if tt is None {
                            assert forall|k: int| 0 <= k < gs.len() + 1 implies mm_value(
                                #[trigger] gms.push(mid)[k],
                                (depth - 1) as nat,
                                -beta,
                                -alpha_after(alpha as int, gs.push(score as int).take(k)),
                                player.spec_opponent(),
                                1,
                                true,
                                -gs.push(score as int)[k],
                            ) by {
                                if k < gs.len() {
                                    assert(gms.push(mid)[k] == gms[k]);
                                    assert(gs.push(score as int).take(k) == gs.take(k));
                                } else {
                                    assert(gs.push(score as int).take(k) == gs);
                                }
                            }
                        }
                        gt = gt.push(i as int);
                        gbs = gbs.push(bc);
                        gms = gms.push(mid);
                        gs = gs.push(score as int);
                    }
                    if best_idx.is_none() || score > best {
                        best = score;
                        best_idx = Some(i);
                    }
                    if score > alpha_inner {
                        alpha_inner = score;
                    }
                    if score >= beta {
                        failed_high = true;
                        break;
                    }
                },
            }
        }
        proof {
            assert forall|j: int| 0 <= j < i + 1 && !gt.contains(j) implies !fits_dims(b0, #[trigger] moves@[j]) || !playable(b0, moves@[j]) by {
                if j < i {
                    if gt0.contains(j) {
                        let w = choose|w: int| 0 <= w < gt0.len() && gt0[w] == j;
                        assert(gt[w] == j);
                    }
                } else if gt.len() > gt0.len() {
                    assert(gt[gt0.len() as int] == j);
                }
            }
        }
        i += 1;
    }
    (best, best_idx, failed_high, stopped, Ghost((gt, gbs, gms, gs)))
}

/// The root search of `player`'s moves `root_moves` on a copy of `board`, by iterative
/// deepening from 1 to `depth` plies: below depth 5 with the full window, from depth 5 in
/// an aspiration window of 50 around the previous score, widened (by a third more each
/// time) after a fail-low or fail-high, at most 32 times. It returns the index of the best
/// move of the last completed depth (the first move when none completed), the score of the
/// last pass, and whether a stop ended the search. A board that is not `searchable` gives
/// the first move and 0. `None` exactly when there is no move. Without a table and a stop,
/// the last pass, at `depth` plies (with the full window below depth 5), is one
/// `root_pass_ok` and `root_kids` describe, and the index is that of its best move when it
/// searched one.
#[verifier::rlimit(60)]
pub fn search_subset(
    board: &Board,
    player: Player,
    root_moves: &Vec<Move>,
    depth: usize,
    tt: Option<&LockFreeTT>,
    lmr: &Vec<Vec<i32>>,
    tables: &mut SearchTables,
    nodes: &AtomicUsize,
    stop: &AtomicBool,
) -> (r: Option<(usize, i32, bool)>)
    requires
        board.wf(),
        tt matches Some(t) ==> t.wf(),
        old(tables).wf(),
        depth <= 10_000,
    ensures
        r is None <==> root_moves.len() == 0,
        r matches Some((i, s, st)) ==> i < root_moves.len() && -i32::MAX <= s,
        final(tables).wf(),
        final(tables).cells == old(tables).cells,
        r matches Some((i, sc, st)) ==> (!st && tt is None && searchable(*board) && depth >= 1 ==> exists|
            pb: Board,
            a: int,
            bt: int,
            tried: Seq<int>,
            bs: Seq<Board>,
            ms: Seq<Board>,
            s: Seq<int>,
            fh: bool,
        |
            #![trigger root_pass_ok(pb, root_moves@, bt, tried, bs, ms, s, fh), root_kids(ms, s, depth as int, a, bt, player)]
            {
                &&& same_position(pb, *board)
                &&& root_pass_ok(pb, root_moves@, bt, tried, bs, ms, s, fh)
                &&& root_kids(ms, s, depth as int, a, bt, player)
                &&& depth <= 4 ==> a == -i32::MAX && bt == i32::MAX
                &&& s.len() > 0 ==> i == tried[best_of(s)] && sc == s[best_of(s)]
            }),
{
    if root_moves.len() == 0 {
        return None;
    }
    let mut work = board.duplicate();
    if !is_searchable(&work) {
        return Some((0, 0, false));
    }
    let mut best_idx: usize = 0;
    let mut best_score: i32 = 0;
    let mut prev: i32 = 0;
    let mut stopped = false;
    let ghost mut lpb: Board = *board;
    let ghost mut la: int = 0;
    let ghost mut lbt: int = 0;
    let ghost mut ltried: Seq<int> = Seq::empty();
    let ghost mut lbs: Seq<Board> = Seq::empty();
    let ghost mut lms: Seq<Board> = Seq::empty();
    let ghost mut ls: Seq<int> = Seq::empty();
    let ghost mut lfh: bool = false;
    let mut d: usize = 1;
    while d <= depth
        invariant_except_break
            !stopped,
        invariant
            work.wf(),
            searchable(work),
            same_position(work, *board),
            tt matches Some(t) ==> t.wf(),
            tables.wf(),
            tables.cells == old(tables).cells,
            depth <= 10_000,
            1 <= d <= depth + 1,
            root_moves.len() > 0,
            best_idx < root_moves.len(),
            -i32::MAX <= best_score,
            -i32::MAX <= prev,
            !stopped && tt is None && d > 1 ==> {
                &&& same_position(lpb, *board)
                &&& root_pass_ok(lpb, root_moves@, lbt, ltried, lbs, lms, ls, lfh)
                &&& root_kids(lms, ls, (d - 1) as int, la, lbt, player)
                &&& d - 1 <= 4 ==> la == -i32::MAX && lbt == i32::MAX
                &&& ls.len() > 0 ==> best_idx == ltried[best_of(ls)] && best_score == ls[best_of(ls)]
            },
        ensures
            -i32::MAX <= best_score,
            best_idx < root_moves.len(),
            tables.wf(),
            tables.cells == old(tables).cells,
            !stopped ==> d == depth + 1,
            !stopped && tt is None && d > 1 ==> {
                &&& same_position(lpb, *board)
                &&& root_pass_ok(lpb, root_moves@, lbt, ltried, lbs, lms, ls, lfh)
                &&& root_kids(lms, ls, (d - 1) as int, la, lbt, player)
                &&& d - 1 <= 4 ==> la == -i32::MAX && lbt == i32::MAX
                &&& ls.len() > 0 ==> best_idx == ltried[best_of(ls)] && best_score == ls[best_of(ls)]
            },
        decreases depth + 1 - d,
    {
        let mut delta: i32 = 50;
        let mut alpha: i32 = if d > 4 && prev > -i32::MAX + 50 {
            prev - 50
        } else {
            -i32::MAX
        };
        let mut beta: i32 = if d > 4 && prev < i32::MAX - 50 {
            prev + 50
        } else {
            i32::MAX
        };
        let mut tries: usize = 0;
        loop
            invariant_except_break
                !stopped,
                !stopped && tt is None && d > 1 ==> {
                    &&& same_position(lpb, *board)
                    &&& root_pass_ok(lpb, root_moves@, lbt, ltried, lbs, lms, ls, lfh)
                    &&& root_kids(lms, ls, (d - 1) as int, la, lbt, player)
                    &&& d - 1 <= 4 ==> la == -i32::MAX && lbt == i32::MAX
                    &&& ls.len() > 0 ==> best_idx == ltried[best_of(ls)] && best_score == ls[best_of(ls)]
                },
            invariant
                work.wf(),
                searchable(work),
                same_position(work, *board),
                tt matches Some(t) ==> t.wf(),
                tables.wf(),
                tables.cells == old(tables).cells,
                1 <= d <= depth <= 10_000,
                root_moves.len() > 0,
                best_idx < root_moves.len(),
                -i32::MAX <= best_score,
                -i32::MAX <= prev,
                -i32::MAX <= alpha,
                -i32::MAX <= beta,
                50 <= delta <= SCORE_LIMIT,
                tries <= 32,
                d <= 4 ==> alpha == -i32::MAX && beta == i32::MAX,
            ensures
                work.wf(),
                searchable(work),
                same_position(work, *board),
                tables.wf(),
                tables.cells == old(tables).cells,
                best_idx < root_moves.len(),
                -i32::MAX <= best_score,
                -i32::MAX <= prev,
                !stopped && tt is None ==> {
                    &&& same_position(lpb, *board)
                    &&& root_pass_ok(lpb, root_moves@, lbt, ltried, lbs, lms, ls, lfh)
                    &&& root_kids(lms, ls, d as int, la, lbt, player)
                    &&& d <= 4 ==> la == -i32::MAX && lbt == i32::MAX
                    &&& ls.len() > 0 ==> best_idx == ltried[best_of(ls)] && best_score == ls[best_of(ls)]
                },
            decreases 32 - tries,
        {
            let ghost w0 = work;
            let (score, idx, failed_high, was_stopped, Ghost(tr)) = root_pass(&mut work, root_moves, d, alpha, beta, player, tt, lmr, tables, nodes, stop);
            proof {
                crate::legal::lemma_same_position(work, w0, root_moves@[0], player);
                lemma_same_trans(work, w0, *board);
            }
            if was_stopped {
                best_score = score;
                stopped = true;
                break;
            }
            let failed_low = score <= alpha;
            if d > 4 && tries < 32 && (failed_low || failed_high) {
                tries += 1;
                if failed_low {
                    beta = ((alpha as i64 + beta as i64) / 2) as i32;
                    alpha = if (alpha as i64) - (delta as i64) > -(i32::MAX as i64) {
                        alpha - delta
                    } else {
                        -i32::MAX
                    };
                } else {
                    beta = if (beta as i64) + (delta as i64) < i32::MAX as i64 {
                        beta + delta
                    } else {
                        i32::MAX
                    };
                }
                delta = if delta + delta / 3 < SCORE_LIMIT {
                    delta + delta / 3
                } else {
                    SCORE_LIMIT
                };
                continue;
            }
            best_score = score;
            match idx {
                Some(i) => {
                    best_idx = i;
                },
                None => {},
            }
            prev = score;
            proof {
                lemma_best_of_range(tr.3);
                lpb = w0;
                la = alpha as int;
                lbt = beta as int;
                ltried = tr.0;
                lbs = tr.1;
                lms = tr.2;
                ls = tr.3;
                lfh = failed_high;
            }
            break;
        }
        if stopped {
            break;
        }
        d += 1;
    }
    Some((best_idx, best_score, stopped))
}

/// The move the engine plays for `player` on `board`: the legal moves are listed and the
/// root search (`search_subset`) picks one. On a `searchable` board it is `None` exactly
/// when `player` has no legal move, and else one of the legal moves; a board that is not
/// `searchable` gives `None`. The flag tells whether a stop ended the search; without a
/// table and a stop, the move is the best one of the last pass of the root search over the
/// legal moves, at `depth` plies (see `search_subset`).
pub fn get_best_move(
    board: &mut Board,
    player: Player,
    depth: usize,
    tt: Option<&LockFreeTT>,
    lmr: &Vec<Vec<i32>>,
    tables: &mut SearchTables,
    nodes: &AtomicUsize,
    stop: &AtomicBool,
) -> (r: (Option<Move>, bool))
    requires
        old(board).wf(),
        tt matches Some(t) ==> t.wf(),
        old(tables).wf(),
        depth <= 10_000,
    ensures
        final(board).wf(),
        same_position(*final(board), *old(board)),
        !searchable(*old(board)) ==> r.0 is None,
        searchable(*old(board)) ==> (r.0 is None <==> exists|l: Seq<Move>|
            legal_list(*old(board), player, l) && l.len() == 0),
        r.0 matches Some(m) ==> exists|l: Seq<Move>| legal_list(*old(board), player, l) && l.contains(m),
        r.0 matches Some(m) ==> (!r.1 && tt is None && depth >= 1 ==> exists|
            l: Seq<Move>,
            pb: Board,
            a: int,
            bt: int,
            tried: Seq<int>,
            bs: Seq<Board>,
            ms: Seq<Board>,
            s: Seq<int>,
            fh: bool,
        |
            #![trigger root_pass_ok(pb, l, bt, tried, bs, ms, s, fh), root_kids(ms, s, depth as int, a, bt, player)]
            {
                &&& legal_list(*old(board), player, l)
                &&& same_position(pb, *old(board))
                &&& root_pass_ok(pb, l, bt, tried, bs, ms, s, fh)
                &&& root_kids(ms, s, depth as int, a, bt, player)
                &&& depth <= 4 ==> a == -i32::MAX && bt == i32::MAX
                &&& s.len() > 0 ==> m == l[tried[best_of(s)]]
            }),
        final(tables).wf(),
        final(tables).cells == old(tables).cells,
{
    let ghost b0 = *board;
    if !is_searchable(board) {
        proof {
            assert(same_position(*board, b0));
        }
        return (None, false);
    }
    let mut moves = board.generate_legal_moves(player).into_vec();
    proof {
        assert(legal_list(b0, player, moves@));
        assert forall|l: Seq<Move>| legal_list(b0, player, l) implies l.len() == moves@.len() by {
            lemma_legal_list_len(b0, player, l, moves@);
        }
    }
    let ghost b2 = *board;
    match search_subset(board, player, &moves, depth, tt, lmr, tables, nodes, stop) {
        None => (None, false),
        Some((i, sc, st)) => {
            let ghost ls = moves@;
            let m = moves.remove(i);
            proof {
                assert(ls[i as int] == m);
                assert(ls.contains(m));
                if !st && tt is None && depth >= 1 {
                    let (pb, a, bt, tried, bs, ms, s, fh) = choose|
                        pb: Board,
                        a: int,
                        bt: int,
                        tried: Seq<int>,
                        bs: Seq<Board>,
                        ms: Seq<Board>,
                        s: Seq<int>,
                        fh: bool,
                    |
                        {
                            &&& same_position(pb, b2)
                            &&& root_pass_ok(pb, ls, bt, tried, bs, ms, s, fh)
                            &&& root_kids(ms, s, depth as int, a, bt, player)
                            &&& depth <= 4 ==> a == -i32::MAX && bt == i32::MAX
                            &&& s.len() > 0 ==> i == tried[best_of(s)] && sc == s[best_of(s)]
                        };
                    lemma_same_trans(pb, b2, b0);
                    assert(root_pass_ok(pb, ls, bt, tried, bs, ms, s, fh) && root_kids(ms, s, depth as int, a, bt, player));
                }
            }
            (Some(m), st)
        },
    }
}

} // verus!
