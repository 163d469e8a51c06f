//! Static evaluation in centipawns from White's side: material, centre distance and
//! mobility of each piece, king safety, pawn structure, bishop pair, rooks on open files,
//! castling rights and a trade bonus, blended between middlegame and endgame by phase.
use vstd::prelude::*;
use crate::attacks::{owned, first_on_ray, ray_cell, threat_hit};
use crate::board::Board;
use crate::geometry::{coords_of, twice_center_dist, DirectionInfo};
use crate::make_move::axis_dist;
use crate::models::{PieceType, Player};
use crate::movegen::{gen_kind, kind_moves, owned_pred, lowest_king, cell_vals};
use crate::mobility::lemma_kind_moves_len;
use crate::representation::BoardRepresentation;
use crate::sliders::{sorted_cells, lemma_sorted_cells, lemma_sorted_cells_stop};

verus! {

pub const PAWN_MG: i32 = 100;
pub const PAWN_EG: i32 = 150;
pub const KNIGHT_MG: i32 = 320;
pub const KNIGHT_EG: i32 = 300;
pub const BISHOP_MG: i32 = 330;
pub const BISHOP_EG: i32 = 330;
pub const ROOK_MG: i32 = 500;
pub const ROOK_EG: i32 = 500;
pub const QUEEN_MG: i32 = 900;
pub const QUEEN_EG: i32 = 900;

/// Truncating division, as `/` on `i32` rounds towards zero.
pub open spec fn tdiv(a: int, b: int) -> int {
    if a >= 0 {
        a / b
    } else {
        -((-a) / b)
    }
}

/// The kind a piece on cell `i` is evaluated as: pawn, knight, bishop, rook, queen, by the
/// first kind bitboard holding the cell, else king.
pub open spec fn eval_kind(b: Board, i: int) -> PieceType {
    match gen_kind(b, i) {
        Some(k) => k,
        None => PieceType::King,
    }
}

/// The middlegame value of a piece, counting pawns and kings as nothing.
pub open spec fn value_mg(pt: PieceType) -> int {
    match pt {
        PieceType::Knight => 320,
        PieceType::Bishop => 330,
        PieceType::Rook => 500,
        PieceType::Queen => 900,
        _ => 0,
    }
}

/// Material (middlegame, endgame) and phase weight of a piece kind.
pub open spec fn material(pt: PieceType) -> (int, int, int) {
    match pt {
        PieceType::Pawn => (100, 150, 0),
        PieceType::Knight => (320, 300, 1),
        PieceType::Bishop => (330, 330, 1),
        PieceType::Rook => (500, 500, 2),
        PieceType::Queen => (900, 900, 4),
        PieceType::King => (0, 0, 0),
    }
}

/// Centre-distance term (middlegame, endgame) of a piece kind at distance `d`: a penalty,
/// except a king's middlegame bonus.
pub open spec fn centre_term(pt: PieceType, d: int) -> (int, int) {
    match pt {
        PieceType::Pawn => (-d * 2, -d * 5),
        PieceType::Knight => (-d * 4, -d * 4),
        PieceType::Bishop => (-d * 1, -d * 1),
        PieceType::Rook => (-d * 0, -d * 0),
        PieceType::Queen => (-d * 1, -d * 2),
        PieceType::King => (d * 5, -d * 10),
    }
}

/// Mobility weights (middlegame, endgame) of a piece kind.
pub open spec fn mobility_weight(pt: PieceType) -> (int, int) {
    match pt {
        PieceType::Knight => (4, 4),
        PieceType::Bishop => (5, 5),
        PieceType::Rook => (2, 4),
        PieceType::Queen => (1, 2),
        _ => (0, 0),
    }
}

/// The terms of the piece of kind `pt` of `player` on cell `i`: (middlegame, endgame, phase).
pub open spec fn piece_terms(b: Board, i: int, pt: PieceType, player: Player) -> (int, int, int) {
    let (m_mg, m_eg, ph) = material(pt);
    let (c_mg, c_eg) = centre_term(pt, b.geo.cache.center_dist@[i] as int);
    let mob = if pt != PieceType::Pawn && pt != PieceType::King {
        kind_moves(b, i, player, pt).len() as int
    } else {
        0
    };
    let (w_mg, w_eg) = mobility_weight(pt);
    (m_mg + c_mg + mob * w_mg, m_eg + c_eg + mob * w_eg, ph)
}

/// The cells of `player`'s pieces in increasing order.
pub open spec fn cells_of(b: Board, player: Player) -> Seq<usize> {
    sorted_cells(owned_pred(b, player), b.total())
}

/// Summed over the listed cells of `player`: middlegame, endgame, phase and non-pawn
/// material.
pub open spec fn piece_sums(b: Board, cells: Seq<usize>, player: Player) -> (int, int, int, int)
    decreases cells.len(),
{
    if cells.len() == 0 {
        (0, 0, 0, 0)
    } else {
        let (mg, eg, ph, npm) = piece_sums(b, cells.drop_last(), player);
        let i = cells.last() as int;
        let pt = eval_kind(b, i);
        let (t_mg, t_eg, t_ph) = piece_terms(b, i, pt, player);
        (mg + t_mg, eg + t_eg, ph + t_ph, npm + if pt != PieceType::Pawn && pt != PieceType::King {
            value_mg(pt)
        } else {
            0
        })
    }
}

/// A bound on every mobility count of the board.
pub open spec fn mobility_max(b: Board) -> int {
    b.geo.cache.knight_offsets.len() + b.total() * (b.geo.cache.rook_directions.len()
        + b.geo.cache.bishop_directions.len())
}

/// A bound on the terms of one piece.
pub open spec fn piece_max(b: Board) -> int {
    1000 + 10 * (b.geo.dimension * b.geo.side) + 5 * mobility_max(b)
}

/// The board is small enough for the evaluation's `i32` sums: one piece term per cell
/// stays below 10^8 in all.
pub open spec fn eval_fits(b: Board) -> bool {
    b.total() * piece_max(b) <= 100_000_000
}

/// The evaluated kind of a cell, as the bitboards give it.
fn kind_at(board: &Board, i: usize) -> (r: PieceType)
    requires
        board.wf(),
        i < board.total(),
    ensures
        r == eval_kind(*board, i as int),
{
    if board.pieces.pawns.get_bit(i) {
        PieceType::Pawn
    } else if board.pieces.knights.get_bit(i) {
        PieceType::Knight
    } else if board.pieces.bishops.get_bit(i) {
        PieceType::Bishop
    } else if board.pieces.rooks.get_bit(i) {
        PieceType::Rook
    } else if board.pieces.queens.get_bit(i) {
        PieceType::Queen
    } else {
        PieceType::King
    }
}

/// The cells of `player`'s pieces in increasing order.
pub(crate) fn player_cells(board: &Board, player: Player) -> (r: Vec<usize>)
    requires
        board.wf(),
    ensures
        r@ == cells_of(*board, player),
        forall|j: int| 0 <= j < r.len() ==> (#[trigger] r@[j] as int) < board.total() && owned(
            *board,
            r@[j] as int,
            player,
        ),
{
    let cells = match player {
        Player::White => board.pieces.white_occupancy.iter_indices(),
        Player::Black => board.pieces.black_occupancy.iter_indices(),
    };
    proof {
        let b = *board;
        let nn = b.pieces.cells();
        assert forall|x: int| 0 <= x < nn && #[trigger] owned_pred(b, player)(x) implies cells@.contains(
            x as usize,
        ) by {
            assert(owned(b, x, player));
        }
        assert forall|j: int| 0 <= j < cells@.len() implies (#[trigger] cells@[j] as int) < nn
            && owned_pred(b, player)(cells@[j] as int) by {
            assert(owned(b, cells@[j] as int, player));
        }
        lemma_sorted_cells(cells@, owned_pred(b, player), nn);
        assert forall|x: int| b.total() <= x < nn implies !#[trigger] owned_pred(b, player)(x) by {
            assert(b.pieces.bits(x) == crate::pieces::empty_bits());
        }
        lemma_sorted_cells_stop(owned_pred(b, player), b.total(), nn);
        assert forall|j: int| 0 <= j < cells.len() implies (#[trigger] cells@[j] as int) < b.total()
            && owned(b, cells@[j] as int, player) by {
            if cells@[j] as int >= b.total() {
                assert(b.pieces.bits(cells@[j] as int) == crate::pieces::empty_bits());
            }
        }
    }
    cells
}

/// Twice the distance to the centre is at most the number of axes times `side`.
proof fn lemma_twice_center_dist(vals: Seq<u8>, side: int)
    requires
        side >= 1,
        forall|d: int| 0 <= d < vals.len() ==> (#[trigger] vals[d] as int) < side,
    ensures
        0 <= twice_center_dist(vals, side) <= vals.len() * side,
    decreases vals.len(),
{
    if vals.len() > 0 {
        let r = vals.drop_last();
        assert forall|d: int| 0 <= d < r.len() implies (#[trigger] r[d] as int) < side by {
            assert(r[d] == vals[d]);
        }
        lemma_twice_center_dist(r, side);
        assert(vals.len() * side == r.len() * side + side) by (nonlinear_arith)
            requires
                vals.len() == r.len() + 1,
        ;
    }
}

/// The centre distance of a cell is at most the number of axes times `side`.
proof fn lemma_center_dist_bound(b: Board, i: int)
    requires
        b.wf(),
        0 <= i < b.total(),
    ensures
        0 <= b.geo.cache.center_dist@[i] <= b.geo.dimension * b.geo.side,
{
    let c = coords_of(i as nat, b.geo.dimension as nat, b.geo.side as nat);
    crate::board::lemma_coords_index_inverse(
        b.geo.dimension as nat,
        b.geo.side as nat,
        i as nat,
        c,
    );
    lemma_twice_center_dist(c, b.geo.side as int);
}

/// One piece's terms, each within `piece_max`.
proof fn lemma_piece_terms_bound(b: Board, i: int, pt: PieceType, player: Player)
    requires
        b.wf(),
        0 <= i < b.total(),
    ensures
        -piece_max(b) <= piece_terms(b, i, pt, player).0 <= piece_max(b),
        -piece_max(b) <= piece_terms(b, i, pt, player).1 <= piece_max(b),
        0 <= piece_terms(b, i, pt, player).2 <= 4,
{
    lemma_center_dist_bound(b, i);
    lemma_kind_moves_len(b, i, player, pt);
    let d = b.geo.cache.center_dist@[i] as int;
    let m = kind_moves(b, i, player, pt).len() as int;
    assert(0 <= m <= mobility_max(b));
    assert(0 <= d <= b.geo.dimension * b.geo.side);
}

/// The terms of the piece of kind `pt` of `player` on cell `i` (see `piece_terms`).
fn evaluate_piece(board: &Board, index: usize, piece_type: PieceType, player: Player) -> (r: (i32, i32, i32))
    requires
        board.wf(),
        board.geo.side >= 2,
        index < board.total(),
        eval_fits(*board),
    ensures
        r.0 == piece_terms(*board, index as int, piece_type, player).0,
        r.1 == piece_terms(*board, index as int, piece_type, player).1,
        r.2 == piece_terms(*board, index as int, piece_type, player).2,
{
    proof {
        lemma_piece_terms_bound(*board, index as int, piece_type, player);
        lemma_center_dist_bound(*board, index as int);
        lemma_kind_moves_len(*board, index as int, player, piece_type);
        assert(board.total() * piece_max(*board) >= piece_max(*board)) by (nonlinear_arith)
            requires
                board.total() >= 1,
                piece_max(*board) >= 0,
        ;
    }
    let (mat_mg, mat_eg, ph): (i32, i32, i32) = match piece_type {
        PieceType::Pawn => (PAWN_MG, PAWN_EG, 0),
        PieceType::Knight => (KNIGHT_MG, KNIGHT_EG, 1),
        PieceType::Bishop => (BISHOP_MG, BISHOP_EG, 1),
        PieceType::Rook => (ROOK_MG, ROOK_EG, 2),
        PieceType::Queen => (QUEEN_MG, QUEEN_EG, 4),
        PieceType::King => (0, 0, 0),
    };
    let d = board.geo.cache.center_dist[index];
    let (c_mg, c_eg): (i32, i32) = match piece_type {
        PieceType::Pawn => (-d * 2, -d * 5),
        PieceType::Knight => (-d * 4, -d * 4),
        PieceType::Bishop => (-d * 1, -d * 1),
        PieceType::Rook => (-d * 0, -d * 0),
        PieceType::Queen => (-d * 1, -d * 2),
        PieceType::King => (d * 5, -d * 10),
    };
    let mut mg = mat_mg + c_mg;
    let mut eg = mat_eg + c_eg;
    if piece_type != PieceType::Pawn && piece_type != PieceType::King {
        let mobility = crate::mobility::count_piece_mobility_for(board, index, piece_type, Some(player));
        let (w_mg, w_eg): (i32, i32) = match piece_type {
            PieceType::Knight => (4, 4),
            PieceType::Bishop => (5, 5),
            PieceType::Rook => (2, 4),
            PieceType::Queen => (1, 2),
            _ => (0, 0),
        };
        mg = mg + mobility * w_mg;
        eg = eg + mobility * w_eg;
    }
    (mg, eg, ph)
}

/// The static evaluator.
pub struct Evaluator;

impl Evaluator {
    /// The middlegame value of a piece kind (knight 320, bishop 330, rook 500, queen 900;
    /// pawn and king 0).
    pub fn piece_value_mg(piece_type: PieceType) -> (r: i32)
        ensures
            r == value_mg(piece_type),
    {
        match piece_type {
            PieceType::Knight => KNIGHT_MG,
            PieceType::Bishop => BISHOP_MG,
            PieceType::Rook => ROOK_MG,
            PieceType::Queen => QUEEN_MG,
            _ => 0,
        }
    }
}

/// The pieces of `player`, summed (see `piece_sums`).
fn piece_scores(board: &Board, player: Player) -> (r: (i32, i32, i32, i32))
    requires
        board.wf(),
        board.geo.side >= 2,
        eval_fits(*board),
    ensures
        r.0 == piece_sums(*board, cells_of(*board, player), player).0,
        r.1 == piece_sums(*board, cells_of(*board, player), player).1,
        r.2 == piece_sums(*board, cells_of(*board, player), player).2,
        r.3 == piece_sums(*board, cells_of(*board, player), player).3,
        -100_000_000 <= r.0 <= 100_000_000,
        -100_000_000 <= r.1 <= 100_000_000,
        0 <= r.2 <= 4 * board.total(),
        0 <= r.3 <= 900 * board.total(),
{
    let cells = player_cells(board, player);
    let ghost b = *board;
    let ghost pm = piece_max(b);
    proof {
        crate::mobility::lemma_sorted_cells_len(owned_pred(b, player), b.total());
        assert(pm >= 1000);
        assert(b.total() <= 100_000) by (nonlinear_arith)
            requires
                b.total() * pm <= 100_000_000,
                pm >= 1000,
        ;
    }
    let mut mg: i32 = 0;
    let mut eg: i32 = 0;
    let mut ph: i32 = 0;
    let mut npm: i32 = 0;
    let mut j: usize = 0;
    while j < cells.len()
        invariant
            b == *board,
            board.wf(),
            board.geo.side >= 2,
            eval_fits(*board),
            pm == piece_max(b),
            pm >= 0,
            b.total() <= 100_000,
            cells@ == cells_of(b, player),
            cells.len() <= b.total(),
            forall|q: int| 0 <= q < cells.len() ==> (#[trigger] cells@[q] as int) < b.total(),
            j <= cells.len(),
            (mg as int, eg as int, ph as int, npm as int) == piece_sums(b, cells@.take(j as int), player),
            -(j * pm) <= mg <= j * pm,
            -(j * pm) <= eg <= j * pm,
            0 <= ph <= 4 * j,
            0 <= npm <= 900 * j,
        decreases cells.len() - j,
    {
        let i = cells[j];
        let pt = kind_at(board, i);
        let (t_mg, t_eg, t_ph) = evaluate_piece(board, i, pt, player);
        proof {
            lemma_piece_terms_bound(b, i as int, pt, player);
            assert(cells@.take(j + 1).drop_last() =~= cells@.take(j as int));
            assert(cells@.take(j + 1).last() == i);
            assert((j + 1) * pm == j * pm + pm) by (nonlinear_arith);
            assert((j + 1) * pm <= b.total() * pm) by (nonlinear_arith)
                requires
                    j + 1 <= b.total(),
                    pm >= 0,
            ;
        }
        mg = mg + t_mg;
        eg = eg + t_eg;
        ph = ph + t_ph;
        if pt != PieceType::Pawn && pt != PieceType::King {
            npm = npm + Evaluator::piece_value_mg(pt);
        }
        j += 1;
    }
    proof {
        assert(cells@.take(cells.len() as int) =~= cells@);
        assert(j * pm <= b.total() * pm) by (nonlinear_arith)
            requires
                j <= b.total(),
                pm >= 0,
        ;
    }
    (mg, eg, ph, npm)
}

/// The number of listed cells holding a piece of kind `pt`.
pub open spec fn count_kind(b: Board, cells: Seq<usize>, pt: PieceType) -> int
    decreases cells.len(),
{
    if cells.len() == 0 {
        0
    } else {
        count_kind(b, cells.drop_last(), pt) + if crate::attacks::kind_has(b, cells.last() as int, pt) {
            1int
        } else {
            0
        }
    }
}

/// White's edge in bishop pairs: (30, 50) for each side with two bishops or more.
pub open spec fn bishop_pair_terms(b: Board) -> (int, int) {
    let w = if count_kind(b, cells_of(b, Player::White), PieceType::Bishop) >= 2 { 1int } else { 0 };
    let k = if count_kind(b, cells_of(b, Player::Black), PieceType::Bishop) >= 2 { 1int } else { 0 };
    ((w - k) * 30, (w - k) * 50)
}

/// The number of `player`'s bishops.
fn bishop_count(board: &Board, player: Player) -> (r: u32)
    requires
        board.wf(),
    ensures
        r == count_kind(*board, cells_of(*board, player), PieceType::Bishop),
{
    let cells = player_cells(board, player);
    let ghost b = *board;
    let mut count: u32 = 0;
    let mut j: usize = 0;
    proof {
        crate::mobility::lemma_sorted_cells_len(owned_pred(b, player), b.total());
    }
    while j < cells.len()
        invariant
            b == *board,
            board.wf(),
            cells@ == cells_of(b, player),
            cells.len() <= b.total(),
            b.total() <= 64 * 65536,
            j <= cells.len(),
            count == count_kind(b, cells@.take(j as int), PieceType::Bishop),
            count <= j,
        decreases cells.len() - j,
    {
        let i = cells[j];
        proof {
            assert(cells@.take(j + 1).drop_last() =~= cells@.take(j as int));
            assert(cells@.take(j + 1).last() == i);
        }
        if board.pieces.bishops.get_bit(i) {
            count = count + 1;
        }
        j += 1;
    }
    proof {
        assert(cells@.take(cells.len() as int) =~= cells@);
    }
    count
}

/// Whether a pawn of `player` stands on the file column of cell `i`: the cells that
/// differ from it on axis 0 only.
pub open spec fn file_has_pawn(b: Board, i: int, player: Player) -> bool {
    let side = b.geo.side as int;
    let base = i - i % side;
    exists|r: int|
        0 <= r < side && owned(b, #[trigger] (base + r), player) && b.pieces.pawns.has(base + r)
}

/// The file-column terms of a rook of `player` on cell `i`: open (15, 10), half-open
/// (8, 5), else none.
pub open spec fn rook_file_terms(b: Board, i: int, player: Player) -> (int, int) {
    let mine = file_has_pawn(b, i, player);
    let theirs = file_has_pawn(b, i, player.spec_opponent());
    if !mine && !theirs {
        (15, 10)
    } else if !mine {
        (8, 5)
    } else {
        (0, 0)
    }
}

/// The file-column terms of `player`'s rooks among the listed cells.
pub open spec fn rook_file_sums(b: Board, cells: Seq<usize>, player: Player) -> (int, int)
    decreases cells.len(),
{
    if cells.len() == 0 {
        (0, 0)
    } else {
        let (mg, eg) = rook_file_sums(b, cells.drop_last(), player);
        let i = cells.last() as int;
        if b.pieces.rooks.has(i) {
            let (a, c) = rook_file_terms(b, i, player);
            (mg + a, eg + c)
        } else {
            (mg, eg)
        }
    }
}

/// Whether a pawn of `player` stands on the file column of cell `piece_idx`.
fn file_column_has_pawn(board: &Board, piece_idx: usize, player: Player) -> (r: bool)
    requires
        board.wf(),
        piece_idx < board.total(),
    ensures
        r == file_has_pawn(*board, piece_idx as int, player),
{
    let side = board.geo.side;
    assert(piece_idx % side <= piece_idx) by (nonlinear_arith)
        requires
            side > 0,
    ;
    let base = piece_idx - (piece_idx % side);
    let mut rank: usize = 0;
    while rank < side
        invariant
            board.wf(),
            side == board.geo.side,
            base == piece_idx as int - (piece_idx as int) % (side as int),
            base + side <= usize::MAX,
            rank <= side,
            forall|q: int| 0 <= q < rank ==> !(owned(*board, #[trigger] (base + q), player)
                && board.pieces.pawns.has(base + q)),
        decreases side - rank,
    {
        let idx = base + rank;
        let mine = match player {
            Player::White => board.pieces.white_occupancy.get_bit(idx),
            Player::Black => board.pieces.black_occupancy.get_bit(idx),
        };
        if mine && board.pieces.pawns.get_bit(idx) {
            return true;
        }
        rank += 1;
    }
    false
}

/// The first occupied cell within `m` steps along `dir` from `o` is a pawn of `player`.
pub open spec fn pawn_shield(b: Board, o: int, dir: Seq<isize>, player: Player, m: int) -> bool {
    exists|k: int|
        k <= m && first_on_ray(b, o, dir, k) && owned(b, #[trigger] ray_cell(b, o, dir, k), player)
            && b.pieces.pawns.has(ray_cell(b, o, dir, k))
}

/// Counts of the listed directions from `o` that no pawn of `player` shields within `m`
/// steps, and of those whose first piece is an `enemy` piece of one of `types`.
pub open spec fn open_lines(
    b: Board,
    o: int,
    dirs: Seq<DirectionInfo>,
    player: Player,
    m: int,
    types: Seq<PieceType>,
) -> (int, int)
    decreases dirs.len(),
{
    if dirs.len() == 0 {
        (0, 0)
    } else {
        let (open, attacked) = open_lines(b, o, dirs.drop_last(), player, m, types);
        let dir = dirs.last().offsets@;
        if !pawn_shield(b, o, dir, player, m) {
            (open + 1, attacked + if threat_hit(b, o, dir, player.spec_opponent(), types) {
                1int
            } else {
                0
            })
        } else {
            (open, attacked)
        }
    }
}

/// The largest distance along one axis between two coordinates, over the first `n` axes.
pub open spec fn chebyshev(a: Seq<u8>, c: Seq<u8>, n: nat) -> int
    decreases n,
{
    if n == 0 {
        0
    } else {
        let prev = chebyshev(a, c, (n - 1) as nat);
        let d = axis_dist(a[n - 1], c[n - 1]);
        if d > prev {
            d
        } else {
            prev
        }
    }
}

/// The closeness to the king on `k` of the enemy queens (weight 4) and rooks (weight 2)
/// among the listed cells: `side - 1` less the Chebyshev distance, at least 0.
pub open spec fn tropism(b: Board, k: int, cells: Seq<usize>) -> int
    decreases cells.len(),
{
    if cells.len() == 0 {
        0
    } else {
        let prev = tropism(b, k, cells.drop_last());
        let e = cells.last() as int;
        let q = b.pieces.queens.has(e);
        let r = b.pieces.rooks.has(e);
        if !q && !r {
            prev
        } else {
            let dim = b.geo.dimension as nat;
            let side = b.geo.side as nat;
            let cheb = chebyshev(coords_of(k as nat, dim, side), coords_of(e as nat, dim, side), dim);
            let prox = if side - 1 - cheb > 0 {
                side - 1 - cheb
            } else {
                0
            };
            prev + prox * if q {
                4int
            } else {
                2
            }
        }
    }
}

/// The weight of an enemy piece next to the king: queen 6, rook 3, bishop or knight 2,
/// pawn 1.
pub open spec fn contact_weight(b: Board, t: int) -> int {
    if b.pieces.queens.has(t) {
        6
    } else if b.pieces.rooks.has(t) {
        3
    } else if b.pieces.bishops.has(t) || b.pieces.knights.has(t) {
        2
    } else if b.pieces.pawns.has(t) {
        1
    } else {
        0
    }
}

/// Over the listed cells around the king: the `player` pawns ahead of rank `rank`
/// (shelter), and the weight of the enemy pieces (contact).
pub open spec fn zone_counts(b: Board, cells: Seq<usize>, player: Player, rank: u8) -> (int, int)
    decreases cells.len(),
{
    if cells.len() == 0 {
        (0, 0)
    } else {
        let (shelter, contact) = zone_counts(b, cells.drop_last(), player, rank);
        let t = cells.last() as int;
        let r = coords_of(t as nat, b.geo.dimension as nat, b.geo.side as nat)[0];
        let ahead = match player {
            Player::White => r > rank,
            Player::Black => r < rank,
        };
        let s2 = shelter + if ahead && owned(b, t, player) && b.pieces.pawns.has(t) {
            1int
        } else {
            0
        };
        let c2 = contact + if owned(b, t, player.spec_opponent()) {
            contact_weight(b, t)
        } else {
            0
        };
        (s2, c2)
    }
}

/// The number of king steps moving forward (`1`) or backward (`-1`) along axis 0.
pub open spec fn forward_steps(offs: Seq<Vec<isize>>, sgn: int) -> int
    decreases offs.len(),
{
    if offs.len() == 0 {
        0
    } else {
        forward_steps(offs.drop_last(), sgn) + if offs.last()@[0] * sgn > 0 {
            1int
        } else {
            0
        }
    }
}

/// The king-safety terms of `player`'s king on `k`, seen from that side: pawn shelter ahead,
/// open and attacked lines, heavy-piece closeness and enemy contact, each scaled by the
/// size of the board's tables.
pub open spec fn king_terms(b: Board, k: int, player: Player) -> (int, int) {
    let cache = b.geo.cache;
    let side = b.geo.side as int;
    let dim = b.geo.dimension as nat;
    let zone = cache.king_offsets.len() as int;
    let fwd = forward_steps(cache.king_offsets@, if player == Player::White { 1 } else { -1 });
    let total_dirs = cache.rook_directions.len() + cache.bishop_directions.len();
    let max_scan = if 3 < side - 1 { 3 } else { side - 1 };
    let max_dist = side - 1;
    let king_rank = coords_of(k as nat, dim, side as nat)[0];
    let (shelter, contact) = zone_counts(b, cache.king_targets@[k]@, player, king_rank);
    let (ro, ra) = open_lines(b, k, cache.rook_directions@, player, max_scan, seq![PieceType::Rook, PieceType::Queen]);
    let (bo, ba) = open_lines(b, k, cache.bishop_directions@, player, max_scan, seq![PieceType::Bishop, PieceType::Queen]);
    let open = ro + bo;
    let attacked = ra + ba;
    let trop = tropism(b, k, cells_of(b, player.spec_opponent()));
    let norm = max_dist * 8;
    let s_mg = if fwd > 0 { shelter * 160 / fwd } else { 0 };
    let l_mg = if total_dirs > 0 { open * 80 / total_dirs + attacked * 120 / total_dirs } else { 0 };
    let l_eg = if total_dirs > 0 { open * 10 / total_dirs + attacked * 15 / total_dirs } else { 0 };
    let t_mg = if norm > 0 { trop * 50 / norm } else { 0 };
    let t_eg = if norm > 0 { trop * 10 / norm } else { 0 };
    let c_mg = contact * 70 / (zone * 6);
    let c_eg = contact * 10 / (zone * 6);
    (s_mg - l_mg - t_mg - c_mg, -l_eg - t_eg - c_eg)
}

/// The king-safety terms from White's side: White's king terms less Black's, for each side
/// that has a king (its lowest king cell); none when the king has no steps.
pub open spec fn king_safety(b: Board) -> (int, int) {
    if b.geo.cache.king_offsets.len() == 0 {
        (0, 0)
    } else {
        let w = if exists|k: int| lowest_king(b, Player::White, k) {
            king_terms(b, choose|k: int| lowest_king(b, Player::White, k), Player::White)
        } else {
            (0, 0)
        };
        let k = if exists|k: int| lowest_king(b, Player::Black, k) {
            king_terms(b, choose|k: int| lowest_king(b, Player::Black, k), Player::Black)
        } else {
            (0, 0)
        };
        (w.0 - k.0, w.1 - k.1)
    }
}

proof fn lemma_open_lines_bound(
    b: Board,
    o: int,
    dirs: Seq<DirectionInfo>,
    player: Player,
    m: int,
    types: Seq<PieceType>,
)
    ensures
        0 <= open_lines(b, o, dirs, player, m, types).1 <= open_lines(b, o, dirs, player, m, types).0
            <= dirs.len(),
    decreases dirs.len(),
{
    if dirs.len() > 0 {
        lemma_open_lines_bound(b, o, dirs.drop_last(), player, m, types);
    }
}

proof fn lemma_zone_counts_bound(b: Board, cells: Seq<usize>, player: Player, rank: u8)
    ensures
        0 <= zone_counts(b, cells, player, rank).0 <= cells.len(),
        0 <= zone_counts(b, cells, player, rank).1 <= 6 * cells.len(),
    decreases cells.len(),
{
    if cells.len() > 0 {
        lemma_zone_counts_bound(b, cells.drop_last(), player, rank);
    }
}

proof fn lemma_chebyshev_bound(a: Seq<u8>, c: Seq<u8>, n: nat)
    ensures
        0 <= chebyshev(a, c, n),
    decreases n,
{
    if n > 0 {
        lemma_chebyshev_bound(a, c, (n - 1) as nat);
    }
}

proof fn lemma_tropism_bound(b: Board, k: int, cells: Seq<usize>)
    ensures
        0 <= tropism(b, k, cells) <= 4 * b.geo.side * cells.len(),
    decreases cells.len(),
{
    if cells.len() > 0 {
        lemma_tropism_bound(b, k, cells.drop_last());
        let dim = b.geo.dimension as nat;
        let side = b.geo.side as nat;
        let e = cells.last() as int;
        lemma_chebyshev_bound(coords_of(k as nat, dim, side), coords_of(e as nat, dim, side), dim);
        assert(4 * b.geo.side * cells.len() == 4 * b.geo.side * (cells.len() - 1) + 4 * b.geo.side)
            by (nonlinear_arith);
    }
}

proof fn lemma_forward_steps_bound(offs: Seq<Vec<isize>>, sgn: int)
    ensures
        0 <= forward_steps(offs, sgn) <= offs.len(),
    decreases offs.len(),
{
    if offs.len() > 0 {
        lemma_forward_steps_bound(offs.drop_last(), sgn);
    }
}

/// The lowest cell holding a king of `player`, if any.
fn lowest_king_cell(board: &Board, player: Player) -> (r: Option<usize>)
    requires
        board.wf(),
    ensures
        r is None <==> !exists|k: int| lowest_king(*board, player, k),
        r matches Some(k) ==> lowest_king(*board, player, k as int),
{
    match board.get_king_coordinate(player) {
        Some(c) => {
            proof {
                crate::representation::lemma_cell_count_monotone(
                    board.geo.side as nat,
                    c@.len(),
                    board.geo.dimension as nat,
                );
            }
            let idx = board.coords_to_index(c.values.as_slice());
            proof {
                let b = *board;
                let k = choose|k: int|
                    0 <= k < b.total() && #[trigger] b.pieces.kings.has(k) && b.owned_by(k, player)
                        && c@ == coords_of(k as nat, b.geo.dimension as nat, b.geo.side as nat)
                        && forall|j: int| 0 <= j < k ==> !(#[trigger] b.pieces.kings.has(j) && b.owned_by(j, player));
                crate::board::lemma_coords_index_inverse(b.geo.dimension as nat, b.geo.side as nat, k as nat, c@);
                assert(lowest_king(b, player, k));
            }
            idx
        },
        None => {
            proof {
                assert forall|k: int| !lowest_king(*board, player, k) by {
                    if 0 <= k < board.total() {
                        assert(!(board.pieces.kings.has(k) && board.owned_by(k, player)));
                    }
                }
            }
            None
        },
    }
}

/// King steps moving along axis 0 in the direction `sgn`.
fn forward_count(offs: &Vec<Vec<isize>>, sgn: isize) -> (r: i32)
    requires
        sgn == 1 || sgn == -1,
        offs.len() <= 0x10_0000,
        forall|t: int| 0 <= t < offs.len() ==> (#[trigger] offs@[t])@.len() >= 1,
        forall|t: int| 0 <= t < offs.len() ==> -2 <= (#[trigger] offs@[t])@[0] <= 2,
    ensures
        r == forward_steps(offs@, sgn as int),
{
    let mut count: i32 = 0;
    let mut t: usize = 0;
    while t < offs.len()
        invariant
            sgn == 1 || sgn == -1,
            offs.len() <= 0x10_0000,
            forall|q: int| 0 <= q < offs.len() ==> (#[trigger] offs@[q])@.len() >= 1,
            forall|q: int| 0 <= q < offs.len() ==> -2 <= (#[trigger] offs@[q])@[0] <= 2,
            t <= offs.len(),
            count == forward_steps(offs@.take(t as int), sgn as int),
            0 <= count <= t,
        decreases offs.len() - t,
    {
        proof {
            assert(offs@.take(t + 1).drop_last() =~= offs@.take(t as int));
            assert(offs@.take(t + 1).last() == offs@[t as int]);
        }
        let v = offs[t][0];
        if v * sgn > 0 {
            count = count + 1;
        }
        t += 1;
    }
    proof {
        assert(offs@.take(offs.len() as int) =~= offs@);
    }
    count
}

/// The king steps of the cache have one entry per axis, each in `-1..=1`.
proof fn lemma_king_offsets_shape(b: Board)
    requires
        b.wf(),
    ensures
        forall|t: int| 0 <= t < b.geo.cache.king_offsets.len() ==> (#[trigger] b.geo.cache.king_offsets@[t])@.len()
            == b.geo.dimension,
        forall|t: int| 0 <= t < b.geo.cache.king_offsets.len() ==> -1 <= (#[trigger] b.geo.cache.king_offsets@[t])@[0] <= 1,
{
    let dim = b.geo.dimension as nat;
    let pred = |v: Seq<isize>| crate::calculators::is_king_step(v);
    let steps = crate::calculators::all_steps(dim);
    let offs = crate::calculators::view_dirs(b.geo.cache.king_offsets@);
    assert(offs == steps.filter(pred));
    assert forall|t: int| 0 <= t < b.geo.cache.king_offsets.len() implies (#[trigger] b.geo.cache.king_offsets@[t])@.len()
        == b.geo.dimension && -1 <= b.geo.cache.king_offsets@[t]@[0] <= 1 by {
        let x = offs[t];
        assert(x == b.geo.cache.king_offsets@[t]@);
        assert(offs.contains(x));
        steps.lemma_filter_contains_rev(pred, x);
        let i = choose|i: int| 0 <= i < steps.len() && steps[i] == x;
        assert(x == crate::calculators::ternary_dir(i as nat, dim));
        let v = crate::calculators::ternary_value((((i as nat) / crate::calculators::pow3(0)) % 3) as int);
        assert(x[0] == v);
    }
}

/// The cache holds at most `3^dim` king steps.
proof fn lemma_king_offsets_count(b: Board)
    requires
        b.wf(),
    ensures
        b.geo.cache.king_offsets.len() <= 0x10_0000,
{
    let pred = |v: Seq<isize>| crate::calculators::is_king_step(v);
    let steps = crate::calculators::all_steps(b.geo.dimension as nat);
    steps.lemma_filter_len(pred);
    assert(crate::calculators::view_dirs(b.geo.cache.king_offsets@).len() == b.geo.cache.king_offsets.len());
}

/// The counts of `open_lines` for the directions of the cache list `dirs`.
fn open_line_counts(
    board: &Board,
    k: usize,
    dirs: &Vec<DirectionInfo>,
    player: Player,
    max_scan: usize,
    types: &[PieceType],
) -> (r: (i32, i32))
    requires
        board.wf(),
        board.geo.side >= 2,
        k < board.total(),
        dirs.len() <= 0x10_0000,
        forall|t: int| 0 <= t < dirs.len() ==> crate::attacks::dir_ok(*board, #[trigger] dirs@[t]),
    ensures
        r.0 == open_lines(*board, k as int, dirs@, player, max_scan as int, types@).0,
        r.1 == open_lines(*board, k as int, dirs@, player, max_scan as int, types@).1,
{
    let mut open: i32 = 0;
    let mut attacked: i32 = 0;
    let mut t: usize = 0;
    while t < dirs.len()
        invariant
            board.wf(),
            board.geo.side >= 2,
            k < board.total(),
            dirs.len() <= 0x10_0000,
            forall|q: int| 0 <= q < dirs.len() ==> crate::attacks::dir_ok(*board, #[trigger] dirs@[q]),
            t <= dirs.len(),
            (open as int, attacked as int) == open_lines(*board, k as int, dirs@.take(t as int), player, max_scan as int, types@),
            0 <= attacked <= open <= t,
        decreases dirs.len() - t,
    {
        let di = &dirs[t];
        proof {
            assert(dirs@.take(t + 1).drop_last() =~= dirs@.take(t as int));
            assert(dirs@.take(t + 1).last() == dirs@[t as int]);
            lemma_open_lines_bound(*board, k as int, dirs@.take(t as int), player, max_scan as int, types@);
        }
        let shielded = match board.first_blocker_within(k, di, max_scan) {
            Some(c) => {
                let mine = match player {
                    Player::White => board.pieces.white_occupancy.get_bit(c),
                    Player::Black => board.pieces.black_occupancy.get_bit(c),
                };
                let r = mine && board.pieces.pawns.get_bit(c);
                proof {
                    let b = *board;
                    let o = k as int;
                    let dir = di.offsets@;
                    let kk = choose|kk: int| kk <= max_scan && first_on_ray(b, o, dir, kk) && c == #[trigger] ray_cell(b, o, dir, kk);
                    if pawn_shield(b, o, dir, player, max_scan as int) {
                        let k2 = choose|k2: int| k2 <= max_scan && first_on_ray(b, o, dir, k2) && owned(b, #[trigger] ray_cell(b, o, dir, k2), player) && b.pieces.pawns.has(ray_cell(b, o, dir, k2));
                        crate::attacks::lemma_first_unique(b, o, dir, kk, k2);
                    }
                }
                r
            },
            None => {
                proof {
                    let b = *board;
                    let o = k as int;
                    let dir = di.offsets@;
                    if pawn_shield(b, o, dir, player, max_scan as int) {
                        let k2 = choose|k2: int| k2 <= max_scan && first_on_ray(b, o, dir, k2) && owned(b, #[trigger] ray_cell(b, o, dir, k2), player) && b.pieces.pawns.has(ray_cell(b, o, dir, k2));
                        assert(!crate::attacks::occupied(b, ray_cell(b, o, dir, k2)));
                    }
                }
                false
            },
        };
        if !shielded {
            open = open + 1;
            if board.scan_ray_for_threat_idx(k, di, player.opponent(), types) {
                attacked = attacked + 1;
            }
        }
        t += 1;
    }
    proof {
        assert(dirs@.take(dirs.len() as int) =~= dirs@);
    }
    (open, attacked)
}

/// The distance along one axis between two values.
fn axis_gap(a: u8, c: u8) -> (r: i32)
    ensures
        r == axis_dist(a, c),
{
    if a >= c {
        (a - c) as i32
    } else {
        (c - a) as i32
    }
}

/// The closeness of the enemy queens and rooks to the king on `k` (see `tropism`).
fn tropism_score(board: &Board, k: usize, enemy: Player) -> (r: i32)
    requires
        board.wf(),
        k < board.total(),
        eval_fits(*board),
    ensures
        r == tropism(*board, k as int, cells_of(*board, enemy)),
{
    let ghost b = *board;
    let cells = player_cells(board, enemy);
    let kc = board.index_to_coords(k);
    let dim = board.geo.dimension;
    let max_dist: i32 = (board.geo.side - 1) as i32;
    proof {
        crate::mobility::lemma_sorted_cells_len(owned_pred(b, enemy), b.total());
        assert(b.total() * b.geo.side <= 5_000_000) by (nonlinear_arith)
            requires
                b.total() * piece_max(b) <= 100_000_000,
                piece_max(b) >= 10 * (b.geo.dimension * b.geo.side),
                b.geo.dimension >= 2,
                b.geo.side >= 1,
        ;
    }
    let mut trop: i32 = 0;
    let mut j: usize = 0;
    while j < cells.len()
        invariant
            b == *board,
            board.wf(),
            cells@ == cells_of(b, enemy),
            cells.len() <= b.total(),
            b.total() * b.geo.side <= 5_000_000,
            forall|q: int| 0 <= q < cells.len() ==> (#[trigger] cells@[q] as int) < b.total(),
            k < b.total(),
            kc@ == coords_of(k as nat, b.geo.dimension as nat, b.geo.side as nat),
            dim == b.geo.dimension,
            max_dist == b.geo.side - 1,
            j <= cells.len(),
            trop == tropism(b, k as int, cells@.take(j as int)),
            0 <= trop <= 4 * b.geo.side * j,
        decreases cells.len() - j,
    {
        let e = cells[j];
        proof {
            assert(cells@.take(j + 1).drop_last() =~= cells@.take(j as int));
            assert(cells@.take(j + 1).last() == e);
            assert(4 * b.geo.side * (j + 1) <= 4 * b.geo.side * b.total()) by (nonlinear_arith)
                requires
                    j + 1 <= b.total(),
            ;
            assert(4 * b.geo.side * (j + 1) == 4 * b.geo.side * j + 4 * b.geo.side) by (nonlinear_arith);
            assert(4 * b.geo.side * b.total() <= 20_000_000) by (nonlinear_arith)
                requires
                    b.total() * b.geo.side <= 5_000_000,
            ;
        }
        let q = board.pieces.queens.get_bit(e);
        let r = board.pieces.rooks.get_bit(e);
        if q || r {
            let ec = board.index_to_coords(e);
            let mut cheb: i32 = 0;
            let mut d: usize = 0;
            while d < dim
                invariant
                    kc@.len() == dim,
                    ec@.len() == dim,
                    d <= dim,
                    cheb == chebyshev(kc@, ec@, d as nat),
                    0 <= cheb <= 255,
                decreases dim - d,
            {
                let g = axis_gap(kc.get(d), ec.get(d));
                if g > cheb {
                    cheb = g;
                }
                d += 1;
            }
            let prox: i32 = if max_dist - cheb > 0 {
                max_dist - cheb
            } else {
                0
            };
            let w: i32 = if q {
                4
            } else {
                2
            };
            trop = trop + prox * w;
        }
        j += 1;
    }
    proof {
        assert(cells@.take(cells.len() as int) =~= cells@);
    }
    trop
}

proof fn lemma_tropism_scale(trop: int, s: int, t: int, nm: int, w: int)
    requires
        0 <= trop <= 4 * s * t,
        nm == (s - 1) * 8,
        s >= 2,
        t >= 0,
        w >= 0,
    ensures
        0 <= trop * w / nm <= w * t,
{
    assert(4 * s * t <= nm * t) by (nonlinear_arith)
        requires
            nm == (s - 1) * 8,
            s >= 2,
            t >= 0,
    ;
    assert(0 <= trop * w <= (nm * t) * w) by (nonlinear_arith)
        requires
            0 <= trop <= nm * t,
            w >= 0,
    ;
    vstd::arithmetic::div_mod::lemma_div_is_ordered(trop * w, (nm * t) * w, nm);
    vstd::arithmetic::div_mod::lemma_div_is_ordered(0, trop * w, nm);
    assert((nm * t) * w == nm * (w * t)) by (nonlinear_arith);
    vstd::arithmetic::div_mod::lemma_div_multiples_vanish(w * t, nm);
}

/// Shelter and contact around the king on `k` (see `zone_counts`).
fn zone_scores(board: &Board, k: usize, player: Player, rank: u8) -> (r: (i32, i32))
    requires
        board.wf(),
        k < board.total(),
    ensures
        r.0 == zone_counts(*board, board.geo.cache.king_targets@[k as int]@, player, rank).0,
        r.1 == zone_counts(*board, board.geo.cache.king_targets@[k as int]@, player, rank).1,
{
    let ghost b = *board;
    let targets = board.geo.cache.king_targets[k].as_slice();
    proof {
        let c = coords_of(k as nat, b.geo.dimension as nat, b.geo.side as nat);
        crate::mobility::lemma_leaper_targets_len(c, crate::calculators::view_dirs(b.geo.cache.king_offsets@), b.geo.side as int);
        crate::representation::lemma_cell_count_monotone(b.geo.side as nat, c.len(), b.geo.dimension as nat);
        crate::geometry::lemma_leaper_targets_bound(c, crate::calculators::view_dirs(b.geo.cache.king_offsets@), b.geo.side as nat);
        lemma_king_offsets_count(b);
    }
    let mut shelter: i32 = 0;
    let mut contact: i32 = 0;
    let mut j: usize = 0;
    while j < targets.len()
        invariant
            b == *board,
            board.wf(),
            targets@ == b.geo.cache.king_targets@[k as int]@,
            targets.len() <= 0x10_0000,
            forall|q: int| 0 <= q < targets.len() ==> (#[trigger] targets@[q] as int) < b.total(),
            j <= targets.len(),
            (shelter as int, contact as int) == zone_counts(b, targets@.take(j as int), player, rank),
            0 <= shelter <= j,
            0 <= contact <= 6 * j,
        decreases targets.len() - j,
    {
        let t = targets[j];
        proof {
            assert(targets@.take(j + 1).drop_last() =~= targets@.take(j as int));
            assert(targets@.take(j + 1).last() == t);
        }
        let r = board.geo.cache.index_to_coords[t].get(0);
        let ahead = match player {
            Player::White => r > rank,
            Player::Black => r < rank,
        };
        let (mine, theirs) = match player {
            Player::White => (board.pieces.white_occupancy.get_bit(t), board.pieces.black_occupancy.get_bit(t)),
            Player::Black => (board.pieces.black_occupancy.get_bit(t), board.pieces.white_occupancy.get_bit(t)),
        };
        if ahead && mine && board.pieces.pawns.get_bit(t) {
            shelter = shelter + 1;
        }
        if theirs {
            let w: i32 = if board.pieces.queens.get_bit(t) {
                6
            } else if board.pieces.rooks.get_bit(t) {
                3
            } else if board.pieces.bishops.get_bit(t) || board.pieces.knights.get_bit(t) {
                2
            } else if board.pieces.pawns.get_bit(t) {
                1
            } else {
                0
            };
            contact = contact + w;
        }
        j += 1;
    }
    proof {
        assert(targets@.take(targets.len() as int) =~= targets@);
    }
    (shelter, contact)
}

/// The cache holds at most `3^dim` slider directions of each kind.
proof fn lemma_dir_counts(b: Board)
    requires
        b.wf(),
    ensures
        b.geo.cache.rook_directions.len() <= 32,
        b.geo.cache.bishop_directions.len() <= 0x10_0000,
{
    let pred = |v: Seq<isize>| crate::calculators::is_bishop_dir(v);
    let steps = crate::calculators::all_steps(b.geo.dimension as nat);
    steps.lemma_filter_len(pred);
}

/// A side has at most one lowest king cell.
proof fn lemma_lowest_king_unique(b: Board, player: Player, k1: int, k2: int)
    requires
        lowest_king(b, player, k1),
        lowest_king(b, player, k2),
    ensures
        k1 == k2,
{
    if k1 < k2 {
        assert(!(b.pieces.kings.has(k1) && owned(b, k1, player)));
    } else if k2 < k1 {
        assert(!(b.pieces.kings.has(k2) && owned(b, k2, player)));
    }
}

/// The king-safety terms of `player`'s king on `k` (see `king_terms`).
fn king_terms_at(board: &Board, k: usize, player: Player) -> (r: (i32, i32))
    requires
        board.wf(),
        board.geo.side >= 2,
        k < board.total(),
        eval_fits(*board),
        board.geo.cache.king_offsets.len() > 0,
    ensures
        r.0 == king_terms(*board, k as int, player).0,
        r.1 == king_terms(*board, k as int, player).1,
        -200_000_000 <= r.0 <= 200_000_000,
        -200_000_000 <= r.1 <= 200_000_000,
{
    let ghost b = *board;
    proof {
        lemma_king_offsets_shape(b);
        lemma_king_offsets_count(b);
        lemma_dir_counts(b);
        crate::attacks::lemma_cache_dirs_ok(b);
    }
    let zone: i32 = board.geo.cache.king_offsets.len() as i32;
    let sgn: isize = match player {
        Player::White => 1,
        Player::Black => -1,
    };
    let fwd = forward_count(&board.geo.cache.king_offsets, sgn);
    let nr: i32 = board.geo.cache.rook_directions.len() as i32;
    let nb: i32 = board.geo.cache.bishop_directions.len() as i32;
    let total_dirs = nr + nb;
    let side = board.geo.side;
    let max_scan: usize = if 3 < side - 1 {
        3
    } else {
        side - 1
    };
    let max_dist: i32 = (side - 1) as i32;
    let kc = board.index_to_coords(k);
    let king_rank = kc.get(0);
    let (shelter, contact) = zone_scores(board, k, player, king_rank);
    let rq = [PieceType::Rook, PieceType::Queen];
    let bq = [PieceType::Bishop, PieceType::Queen];
    proof {
        assert(rq@ =~= seq![PieceType::Rook, PieceType::Queen]);
        assert(bq@ =~= seq![PieceType::Bishop, PieceType::Queen]);
    }
    let (ro, ra) = open_line_counts(board, k, &board.geo.cache.rook_directions, player, max_scan, rq.as_slice());
    let (bo, ba) = open_line_counts(board, k, &board.geo.cache.bishop_directions, player, max_scan, bq.as_slice());
    let trop = tropism_score(board, k, player.opponent());
    proof {
        let c = coords_of(k as nat, b.geo.dimension as nat, b.geo.side as nat);
        crate::mobility::lemma_leaper_targets_len(c, crate::calculators::view_dirs(b.geo.cache.king_offsets@), b.geo.side as int);
        lemma_zone_counts_bound(b, b.geo.cache.king_targets@[k as int]@, player, king_rank);
        lemma_open_lines_bound(b, k as int, b.geo.cache.rook_directions@, player, max_scan as int, rq@);
        lemma_open_lines_bound(b, k as int, b.geo.cache.bishop_directions@, player, max_scan as int, bq@);
        lemma_tropism_bound(b, k as int, cells_of(b, player.spec_opponent()));
        crate::mobility::lemma_sorted_cells_len(owned_pred(b, player.spec_opponent()), b.total());
        lemma_forward_steps_bound(b.geo.cache.king_offsets@, sgn as int);
        let ln = cells_of(b, player.spec_opponent()).len();
        assert(4 * b.geo.side * ln <= 4 * b.geo.side * b.total()) by (nonlinear_arith)
            requires
                ln <= b.total(),
        ;
        assert(b.total() * b.geo.side <= 5_000_000) by (nonlinear_arith)
            requires
                b.total() * piece_max(b) <= 100_000_000,
                piece_max(b) >= 10 * (b.geo.dimension * b.geo.side),
                b.geo.dimension >= 2,
                b.geo.side >= 1,
        ;
        assert(4 * b.geo.side * b.total() <= 20_000_000 && b.total() <= 2_500_000) by (nonlinear_arith)
            requires
                b.total() * b.geo.side <= 5_000_000,
                b.geo.side >= 2,
        ;
    }
    let open = ro + bo;
    let attacked = ra + ba;
    let norm = max_dist * 8;
    let s_mg: i32 = if fwd > 0 {
        proof {
            let f = fwd as int;
            assert(shelter * 160 / f <= shelter * 160) by (nonlinear_arith)
                requires
                    f >= 1,
                    shelter >= 0,
            ;
        }
        shelter * 160 / fwd
    } else {
        0
    };
    let (l_mg, l_eg): (i32, i32) = if total_dirs > 0 {
        proof {
            let td = total_dirs as int;
            assert(open * 80 / td <= 80 && attacked * 120 / td <= 120 && open * 10 / td <= 10
                && attacked * 15 / td <= 15) by (nonlinear_arith)
                requires
                    0 <= attacked <= open <= td,
                    td > 0,
            ;
        }
        (open * 80 / total_dirs + attacked * 120 / total_dirs, open * 10 / total_dirs + attacked * 15
            / total_dirs)
    } else {
        (0, 0)
    };
    let (t_mg, t_eg): (i32, i32) = if norm > 0 {
        proof {
            let nm = norm as int;
            lemma_tropism_scale(trop as int, b.geo.side as int, b.total() as int, nm, 50);
            lemma_tropism_scale(trop as int, b.geo.side as int, b.total() as int, nm, 10);
        }
        (trop * 50 / norm, trop * 10 / norm)
    } else {
        (0, 0)
    };
    proof {
        let z = zone as int;
        assert(contact * 70 / (z * 6) <= 70 && contact * 10 / (z * 6) <= 10) by (nonlinear_arith)
            requires
                0 <= contact <= 6 * z,
                z > 0,
        ;
    }
    let c_mg = contact * 70 / (zone * 6);
    let c_eg = contact * 10 / (zone * 6);
    (s_mg - l_mg - t_mg - c_mg, 0 - l_eg - t_eg - c_eg)
}

/// The king-safety terms from White's side (see `king_safety`).
fn evaluate_king_safety(board: &Board) -> (r: (i32, i32))
    requires
        board.wf(),
        board.geo.side >= 2,
        eval_fits(*board),
    ensures
        r.0 == king_safety(*board).0,
        r.1 == king_safety(*board).1,
        -400_000_000 <= r.0 <= 400_000_000,
        -400_000_000 <= r.1 <= 400_000_000,
{
    if board.geo.cache.king_offsets.len() == 0 {
        return (0, 0);
    }
    let w = match lowest_king_cell(board, Player::White) {
        Some(k) => {
            proof {
                let c = choose|c: int| lowest_king(*board, Player::White, c);
                lemma_lowest_king_unique(*board, Player::White, c, k as int);
            }
            king_terms_at(board, k, Player::White)
        },
        None => (0, 0),
    };
    let bl = match lowest_king_cell(board, Player::Black) {
        Some(k) => {
            proof {
                let c = choose|c: int| lowest_king(*board, Player::Black, c);
                lemma_lowest_king_unique(*board, Player::Black, c, k as int);
            }
            king_terms_at(board, k, Player::Black)
        },
        None => (0, 0),
    };
    (w.0 - bl.0, w.1 - bl.1)
}

/// `player`'s pawn cells in increasing order.
pub open spec fn pawn_cells(b: Board, player: Player) -> Seq<usize> {
    cells_of(b, player).filter(|i: usize| b.pieces.pawns.has(i as int))
}

/// The coordinates agree on every axis from 2 on.
pub open spec fn higher_match(a: Seq<u8>, c: Seq<u8>, dim: int) -> bool {
    forall|d: int| 2 <= d < dim ==> #[trigger] a[d] == c[d]
}

/// The enemy pawn on cell `e` stops a pawn of `player` on `c` from being passed: same
/// higher axes, same or adjacent file, and ahead (or level on an adjacent file).
pub open spec fn blocks_passage(b: Board, c: Seq<u8>, e: int, player: Player) -> bool {
    let ec = cell_vals(b, e);
    let fd = axis_dist(ec[1], c[1]);
    let ahead = match player {
        Player::White => ec[0] > c[0],
        Player::Black => ec[0] < c[0],
    };
    higher_match(c, ec, b.geo.dimension as int) && fd <= 1 && (ahead || (ec[0] == c[0] && fd
        == 1))
}

/// No enemy pawn stops the pawn.
pub open spec fn is_passed(b: Board, c: Seq<u8>, player: Player, enemy: Seq<usize>) -> bool {
    forall|k: int| 0 <= k < enemy.len() ==> !blocks_passage(b, c, #[trigger] enemy[k] as int, player)
}

/// No own pawn on an adjacent file with the same higher axes.
pub open spec fn is_isolated(b: Board, c: Seq<u8>, mine: Seq<usize>) -> bool {
    forall|k: int|
        0 <= k < mine.len() ==> !(axis_dist(cell_vals(b, #[trigger] mine[k] as int)[1], c[1]) == 1
            && higher_match(c, cell_vals(b, mine[k] as int), b.geo.dimension as int))
}

/// Another own pawn on the same file with the same higher axes.
pub open spec fn is_doubled(b: Board, c: Seq<u8>, mine: Seq<usize>, i: int) -> bool {
    exists|k: int|
        0 <= k < mine.len() && #[trigger] mine[k] as int != i && cell_vals(b, mine[k] as int)[1]
            == c[1] && higher_match(c, cell_vals(b, mine[k] as int), b.geo.dimension as int)
}

/// The cells from which a pawn of `player` would capture on `i`.
pub open spec fn defenders(b: Board, i: int, player: Player) -> Seq<usize> {
    match player {
        Player::White => b.geo.cache.black_pawn_capture_targets@[i]@,
        Player::Black => b.geo.cache.white_pawn_capture_targets@[i]@,
    }
}

/// An own pawn defends the pawn on `i`.
pub open spec fn is_connected(b: Board, i: int, player: Player) -> bool {
    exists|j: int|
        0 <= j < defenders(b, i, player).len() && owned(b, #[trigger] defenders(b, i, player)[j] as int, player)
            && b.pieces.pawns.has(defenders(b, i, player)[j] as int)
}

/// The structure terms of `player`'s pawn on `i`, seen from that side: passed (bonus
/// growing with advancement), isolated, doubled, connected.
pub open spec fn pawn_terms(b: Board, i: int, player: Player, mine: Seq<usize>, enemy: Seq<usize>) -> (int, int) {
    let c = cell_vals(b, i);
    let adv = match player {
        Player::White => c[0] as int,
        Player::Black => b.geo.side - 1 - c[0],
    };
    let (p_mg, p_eg): (int, int) = if is_passed(b, c, player, enemy) {
        (20 + adv * 3, 40 + adv * 6)
    } else {
        (0, 0)
    };
    let (i_mg, i_eg): (int, int) = if is_isolated(b, c, mine) {
        (10, 15)
    } else {
        (0, 0)
    };
    let (d_mg, d_eg): (int, int) = if is_doubled(b, c, mine, i) {
        (10, 15)
    } else {
        (0, 0)
    };
    let (c_mg, c_eg): (int, int) = if is_connected(b, i, player) {
        (5, 8)
    } else {
        (0, 0)
    };
    (p_mg - i_mg - d_mg + c_mg, p_eg - i_eg - d_eg + c_eg)
}

/// The structure terms of the listed pawns of `player`.
pub open spec fn pawn_sums(b: Board, cells: Seq<usize>, player: Player, mine: Seq<usize>, enemy: Seq<usize>) -> (int, int)
    decreases cells.len(),
{
    if cells.len() == 0 {
        (0, 0)
    } else {
        let (mg, eg) = pawn_sums(b, cells.drop_last(), player, mine, enemy);
        let (a, c) = pawn_terms(b, cells.last() as int, player, mine, enemy);
        (mg + a, eg + c)
    }
}

/// The pawn-structure terms of `player`'s pawns, seen from that side.
pub open spec fn pawn_side(b: Board, player: Player) -> (int, int) {
    pawn_sums(b, pawn_cells(b, player), player, pawn_cells(b, player), pawn_cells(b, player.spec_opponent()))
}

/// `player`'s pawn cells in increasing order.
fn get_pawn_indices(board: &Board, player: Player) -> (r: Vec<usize>)
    requires
        board.wf(),
    ensures
        r@ == pawn_cells(*board, player),
        forall|j: int| 0 <= j < r.len() ==> (#[trigger] r@[j] as int) < board.total(),
        r.len() <= board.total(),
{
    let ghost b = *board;
    let cells = player_cells(board, player);
    let ghost f = |i: usize| b.pieces.pawns.has(i as int);
    let mut out: Vec<usize> = Vec::new();
    let mut j: usize = 0;
    proof {
        crate::mobility::lemma_sorted_cells_len(owned_pred(b, player), b.total());
    }
    while j < cells.len()
        invariant
            b == *board,
            board.wf(),
            cells@ == cells_of(b, player),
            cells.len() <= b.total(),
            forall|q: int| 0 <= q < cells.len() ==> (#[trigger] cells@[q] as int) < b.total(),
            f == (|i: usize| b.pieces.pawns.has(i as int)),
            j <= cells.len(),
            out@ == cells@.take(j as int).filter(f),
            out.len() <= j,
            forall|q: int| 0 <= q < out.len() ==> (#[trigger] out@[q] as int) < b.total(),
        decreases cells.len() - j,
    {
        let i = cells[j];
        proof {
            crate::legal::lemma_filter_take(cells@, f, j as int);
        }
        if board.pieces.pawns.get_bit(i) {
            out.push(i);
        }
        j += 1;
    }
    proof {
        assert(cells@.take(cells.len() as int) =~= cells@);
    }
    out
}

/// Whether the coordinates agree on every axis from 2 on.
fn higher_dims_match(a: &crate::inline::CoordVals, c: &crate::inline::CoordVals, dim: usize) -> (r: bool)
    requires
        a@.len() == dim,
        c@.len() == dim,
    ensures
        r == higher_match(a@, c@, dim as int),
{
    let mut d: usize = 2;
    while d < dim
        invariant
            a@.len() == dim,
            c@.len() == dim,
            2 <= d,
            forall|q: int| 2 <= q < d && q < dim ==> a@[q] == c@[q],
        decreases dim - d,
    {
        if a.get(d) != c.get(d) {
            return false;
        }
        d += 1;
    }
    true
}

/// Whether no pawn among `enemy` stops the pawn of `player` on coordinates `c`.
fn is_passed_pawn(board: &Board, c: &crate::inline::CoordVals, player: Player, enemy: &Vec<usize>) -> (r: bool)
    requires
        board.wf(),
        c@.len() == board.geo.dimension,
        forall|q: int| 0 <= q < enemy.len() ==> (#[trigger] enemy@[q] as int) < board.total(),
    ensures
        r == is_passed(*board, c@, player, enemy@),
{
    let ghost b = *board;
    let dim = board.geo.dimension;
    let rank = c.get(0);
    let file = c.get(1);
    let mut j: usize = 0;
    while j < enemy.len()
        invariant
            b == *board,
            board.wf(),
            dim == b.geo.dimension,
            c@.len() == dim,
            rank == c@[0],
            file == c@[1],
            forall|q: int| 0 <= q < enemy.len() ==> (#[trigger] enemy@[q] as int) < b.total(),
            j <= enemy.len(),
            forall|q: int| 0 <= q < j ==> !blocks_passage(b, c@, #[trigger] enemy@[q] as int, player),
        decreases enemy.len() - j,
    {
        let e = enemy[j];
        let ec = &board.geo.cache.index_to_coords[e];
        assert(ec@ == cell_vals(b, e as int));
        if higher_dims_match(c, ec, dim) {
            let fd = axis_gap(ec.get(1), file);
            if fd <= 1 {
                let er = ec.get(0);
                let ahead = match player {
                    Player::White => er > rank,
                    Player::Black => er < rank,
                };
                if ahead || (er == rank && fd == 1) {
                    assert(blocks_passage(b, c@, enemy@[j as int] as int, player));
                    return false;
                }
            }
        }
        j += 1;
    }
    true
}

/// Whether no pawn among `mine` stands on a file next to coordinates `c` with the same
/// higher axes.
fn is_isolated_pawn(board: &Board, c: &crate::inline::CoordVals, mine: &Vec<usize>) -> (r: bool)
    requires
        board.wf(),
        c@.len() == board.geo.dimension,
        forall|q: int| 0 <= q < mine.len() ==> (#[trigger] mine@[q] as int) < board.total(),
    ensures
        r == is_isolated(*board, c@, mine@),
{
    let ghost b = *board;
    let dim = board.geo.dimension;
    let file = c.get(1);
    let mut j: usize = 0;
    while j < mine.len()
        invariant
            b == *board,
            board.wf(),
            dim == b.geo.dimension,
            c@.len() == dim,
            file == c@[1],
            forall|q: int| 0 <= q < mine.len() ==> (#[trigger] mine@[q] as int) < b.total(),
            j <= mine.len(),
            forall|q: int|
                0 <= q < j ==> !(axis_dist(cell_vals(b, #[trigger] mine@[q] as int)[1], c@[1]) == 1
                    && higher_match(c@, cell_vals(b, mine@[q] as int), dim as int)),
        decreases mine.len() - j,
    {
        let o = mine[j];
        let oc = &board.geo.cache.index_to_coords[o];
        assert(oc@ == cell_vals(b, o as int));
        if axis_gap(oc.get(1), file) == 1 && higher_dims_match(c, oc, dim) {
            return false;
        }
        j += 1;
    }
    true
}

/// Whether another pawn among `mine` than the one on `self_idx` stands on the file of
/// coordinates `c` with the same higher axes.
fn is_doubled_pawn(board: &Board, c: &crate::inline::CoordVals, mine: &Vec<usize>, self_idx: usize) -> (r: bool)
    requires
        board.wf(),
        c@.len() == board.geo.dimension,
        forall|q: int| 0 <= q < mine.len() ==> (#[trigger] mine@[q] as int) < board.total(),
    ensures
        r == is_doubled(*board, c@, mine@, self_idx as int),
{
    let ghost b = *board;
    let dim = board.geo.dimension;
    let file = c.get(1);
    let mut j: usize = 0;
    while j < mine.len()
        invariant
            b == *board,
            board.wf(),
            dim == b.geo.dimension,
            c@.len() == dim,
            file == c@[1],
            forall|q: int| 0 <= q < mine.len() ==> (#[trigger] mine@[q] as int) < b.total(),
            j <= mine.len(),
            forall|q: int|
                0 <= q < j ==> !(#[trigger] mine@[q] as int != self_idx && cell_vals(b, mine@[q] as int)[1]
                    == c@[1] && higher_match(c@, cell_vals(b, mine@[q] as int), dim as int)),
        decreases mine.len() - j,
    {
        let o = mine[j];
        if o != self_idx {
            let oc = &board.geo.cache.index_to_coords[o];
            assert(oc@ == cell_vals(b, o as int));
            if oc.get(1) == file && higher_dims_match(c, oc, dim) {
                assert(mine@[j as int] == o);
                return true;
            }
        }
        j += 1;
    }
    false
}

/// Whether a pawn of `player` defends the pawn on `pawn_idx`.
fn is_connected_pawn(board: &Board, pawn_idx: usize, player: Player) -> (r: bool)
    requires
        board.wf(),
        pawn_idx < board.total(),
    ensures
        r == is_connected(*board, pawn_idx as int, player),
{
    let ghost b = *board;
    let targets = match player {
        Player::White => board.geo.cache.black_pawn_capture_targets[pawn_idx].as_slice(),
        Player::Black => board.geo.cache.white_pawn_capture_targets[pawn_idx].as_slice(),
    };
    proof {
        let c = coords_of(pawn_idx as nat, b.geo.dimension as nat, b.geo.side as nat);
        crate::representation::lemma_cell_count_monotone(b.geo.side as nat, c.len(), b.geo.dimension as nat);
        crate::geometry::lemma_leaper_targets_bound(c, crate::calculators::view_dirs(b.geo.cache.black_pawn_capture_offsets@), b.geo.side as nat);
        crate::geometry::lemma_leaper_targets_bound(c, crate::calculators::view_dirs(b.geo.cache.white_pawn_capture_offsets@), b.geo.side as nat);
    }
    let mut j: usize = 0;
    while j < targets.len()
        invariant
            b == *board,
            board.wf(),
            targets@ == defenders(b, pawn_idx as int, player),
            forall|q: int| 0 <= q < targets.len() ==> (#[trigger] targets@[q] as int) < b.total(),
            j <= targets.len(),
            forall|q: int|
                0 <= q < j ==> !(owned(b, #[trigger] targets@[q] as int, player) && b.pieces.pawns.has(
                    targets@[q] as int,
                )),
        decreases targets.len() - j,
    {
        let t = targets[j];
        let mine = match player {
            Player::White => board.pieces.white_occupancy.get_bit(t),
            Player::Black => board.pieces.black_occupancy.get_bit(t),
        };
        if mine && board.pieces.pawns.get_bit(t) {
            assert(targets@[j as int] == t);
            return true;
        }
        j += 1;
    }
    false
}

/// White's edge in pawn structure.
pub open spec fn pawn_structure(b: Board) -> (int, int) {
    (pawn_side(b, Player::White).0 - pawn_side(b, Player::Black).0, pawn_side(b, Player::White).1
        - pawn_side(b, Player::Black).1)
}

proof fn lemma_pawn_terms_bound(b: Board, i: int, player: Player, mine: Seq<usize>, enemy: Seq<usize>)
    requires
        b.wf(),
        0 <= i < b.total(),
    ensures
        -20 <= pawn_terms(b, i, player, mine, enemy).0 <= 25 + 3 * b.geo.side,
        -30 <= pawn_terms(b, i, player, mine, enemy).1 <= 48 + 6 * b.geo.side,
{
    lemma_rank_below_side(b, i);
}

/// Every coordinate of a cell, axis 0 among them, is below the side length.
proof fn lemma_rank_below_side(b: Board, i: int)
    requires
        b.wf(),
        0 <= i < b.total(),
    ensures
        cell_vals(b, i)[0] < b.geo.side,
{
    let dim = b.geo.dimension as nat;
    crate::board::lemma_coords_index_inverse(dim, b.geo.side as nat, i as nat, Seq::new(dim, |d: int| 0u8));
    assert(cell_vals(b, i)[0] as int >= 0);
}

proof fn lemma_pawn_sums_bound(b: Board, cells: Seq<usize>, player: Player, mine: Seq<usize>, enemy: Seq<usize>)
    requires
        b.wf(),
        forall|q: int| 0 <= q < cells.len() ==> (#[trigger] cells[q] as int) < b.total(),
    ensures
        -30 * cells.len() <= pawn_sums(b, cells, player, mine, enemy).0 <= (48 + 6 * b.geo.side) * cells.len(),
        -30 * cells.len() <= pawn_sums(b, cells, player, mine, enemy).1 <= (48 + 6 * b.geo.side) * cells.len(),
    decreases cells.len(),
{
    if cells.len() > 0 {
        lemma_pawn_sums_bound(b, cells.drop_last(), player, mine, enemy);
        lemma_pawn_terms_bound(b, cells.last() as int, player, mine, enemy);
        let n = cells.len() as int;
        let s = b.geo.side as int;
        assert((48 + 6 * s) * n == (48 + 6 * s) * (n - 1) + (48 + 6 * s)) by (nonlinear_arith);
    }
}

/// The pawn-structure terms of `player`'s pawns, seen from that side (see `pawn_side`).
fn pawn_side_scores(board: &Board, player: Player) -> (r: (i32, i32))
    requires
        board.wf(),
        eval_fits(*board),
    ensures
        r.0 == pawn_side(*board, player).0,
        r.1 == pawn_side(*board, player).1,
        -30 * board.total() <= r.0 <= (48 + 6 * board.geo.side) * board.total(),
        -30 * board.total() <= r.1 <= (48 + 6 * board.geo.side) * board.total(),
{
    let ghost b = *board;
    let mine = get_pawn_indices(board, player);
    let enemy = get_pawn_indices(board, player.opponent());
    let side = board.geo.side;
    proof {
        assert(b.total() * (48 + 6 * b.geo.side) <= 100_000_000) by (nonlinear_arith)
            requires
                b.total() * piece_max(b) <= 100_000_000,
                piece_max(b) >= 1000 + 10 * (b.geo.dimension * b.geo.side),
                b.geo.dimension >= 2,
                b.geo.side >= 1,
        ;
        assert(b.total() <= 2_100_000) by (nonlinear_arith)
            requires
                b.total() * (48 + 6 * b.geo.side) <= 100_000_000,
                b.geo.side >= 1,
        ;
    }
    let mut mg: i32 = 0;
    let mut eg: i32 = 0;
    let mut j: usize = 0;
    while j < mine.len()
        invariant
            b == *board,
            board.wf(),
            side == b.geo.side,
            mine@ == pawn_cells(b, player),
            enemy@ == pawn_cells(b, player.spec_opponent()),
            forall|q: int| 0 <= q < mine.len() ==> (#[trigger] mine@[q] as int) < b.total(),
            forall|q: int| 0 <= q < enemy.len() ==> (#[trigger] enemy@[q] as int) < b.total(),
            mine.len() <= b.total(),
            b.total() * (48 + 6 * b.geo.side) <= 100_000_000,
            b.total() <= 2_100_000,
            j <= mine.len(),
            (mg as int, eg as int) == pawn_sums(b, mine@.take(j as int), player, mine@, enemy@),
        decreases mine.len() - j,
    {
        let i = mine[j];
        proof {
            assert(mine@.take(j + 1).drop_last() =~= mine@.take(j as int));
            assert(mine@.take(j + 1).last() == i);
            lemma_pawn_sums_bound(b, mine@.take(j + 1), player, mine@, enemy@);
            let n = j + 1;
            assert((48 + 6 * b.geo.side) * n <= 100_000_000) by (nonlinear_arith)
                requires
                    n <= b.total(),
                    b.total() * (48 + 6 * b.geo.side) <= 100_000_000,
                    b.geo.side >= 1,
            ;
        }
        let c = &board.geo.cache.index_to_coords[i];
        assert(c@ == cell_vals(b, i as int));
        let mut pm: i32 = 0;
        let mut pe: i32 = 0;
        if is_passed_pawn(board, c, player, &enemy) {
            let r = c.get(0) as i32;
            let adv: i32 = match player {
                Player::White => r,
                Player::Black => (side as i32 - 1) - r,
            };
            proof {
                lemma_rank_below_side(b, i as int);
            }
            pm = 20 + adv * 3;
            pe = 40 + adv * 6;
        }
        if is_isolated_pawn(board, c, &mine) {
            pm = pm - 10;
            pe = pe - 15;
        }
        if is_doubled_pawn(board, c, &mine, i) {
            pm = pm - 10;
            pe = pe - 15;
        }
        if is_connected_pawn(board, i, player) {
            pm = pm + 5;
            pe = pe + 8;
        }
        assert(pm == pawn_terms(b, i as int, player, mine@, enemy@).0);
        assert(pe == pawn_terms(b, i as int, player, mine@, enemy@).1);
        assert(pawn_sums(b, mine@.take(j + 1), player, mine@, enemy@).0 == mg + pm);
        assert(pawn_sums(b, mine@.take(j + 1), player, mine@, enemy@).1 == eg + pe);
        mg = mg + pm;
        eg = eg + pe;
        j += 1;
    }
    proof {
        assert(mine@.take(mine.len() as int) =~= mine@);
        lemma_pawn_sums_bound(b, mine@, player, mine@, enemy@);
        let n = mine.len() as int;
        let t = b.total() as int;
        let m = 48 + 6 * b.geo.side;
        assert(m * n <= m * t && -30 * t <= -30 * n) by (nonlinear_arith)
            requires
                0 <= n <= t,
                m >= 0,
        ;
    }
    (mg, eg)
}

/// White's edge in pawn structure (see `pawn_structure`).
fn evaluate_pawn_structure(board: &Board) -> (r: (i32, i32))
    requires
        board.wf(),
        eval_fits(*board),
    ensures
        r.0 == pawn_structure(*board).0,
        r.1 == pawn_structure(*board).1,
        -200_000_000 <= r.0 <= 200_000_000,
        -200_000_000 <= r.1 <= 200_000_000,
{
    let ghost b = *board;
    let w = pawn_side_scores(board, Player::White);
    let k = pawn_side_scores(board, Player::Black);
    proof {
        assert(b.total() * (48 + 6 * b.geo.side) <= 100_000_000) by (nonlinear_arith)
            requires
                b.total() * piece_max(b) <= 100_000_000,
                piece_max(b) >= 1000 + 10 * (b.geo.dimension * b.geo.side),
                b.geo.dimension >= 2,
                b.geo.side >= 1,
        ;
        assert(b.total() <= 2_100_000 && (48 + 6 * b.geo.side) * b.total() <= 100_000_000) by (nonlinear_arith)
            requires
                b.total() * (48 + 6 * b.geo.side) <= 100_000_000,
                b.geo.side >= 1,
        ;
    }
    (w.0 - k.0, w.1 - k.1)
}

/// `a / b` rounded towards zero, as `/` on `i32` does.
fn trunc_div(a: i32, b: i32) -> (r: i32)
    requires
        b > 0,
    ensures
        r == tdiv(a as int, b as int),
{
    a / b
}

/// White's edge in rooks on open and half-open file columns.
pub open spec fn rook_files(b: Board) -> (int, int) {
    let w = rook_file_sums(b, cells_of(b, Player::White), Player::White);
    let k = rook_file_sums(b, cells_of(b, Player::Black), Player::Black);
    (w.0 - k.0, w.1 - k.1)
}

/// Whether bit `k` of the castling rights is set.
pub open spec fn right_bit(r: u8, k: u8) -> int {
    if (r >> k) & 1 == 1 {
        1
    } else {
        0
    }
}

/// White's edge in castling rights held: 10 a right in the middlegame, none in the endgame.
pub open spec fn castling_terms(b: Board) -> (int, int) {
    let r = b.state.castling_rights;
    let w = right_bit(r, 0) + right_bit(r, 1);
    let k = right_bit(r, 2) + right_bit(r, 3);
    ((w - k) * 10, 0)
}

/// The starting phase, at least 1.
pub open spec fn start_phase_of(b: Board) -> int {
    if b.state.start_phase >= 1 {
        b.state.start_phase as int
    } else {
        1
    }
}

/// The phase weight of the pieces on the board.
pub open spec fn phase_of(b: Board) -> int {
    piece_sums(b, cells_of(b, Player::White), Player::White).2 + piece_sums(
        b,
        cells_of(b, Player::Black),
        Player::Black,
    ).2
}

/// How far the material has gone from the board since the start, in phase units.
pub open spec fn simplification(b: Board) -> int {
    let sp = start_phase_of(b);
    let ph = phase_of(b);
    sp - if ph < sp {
        ph
    } else {
        sp
    }
}

/// White's edge in non-pawn material in rook units, rounded towards zero.
pub open spec fn npm_norm(b: Board) -> int {
    tdiv(
        piece_sums(b, cells_of(b, Player::White), Player::White).3 - piece_sums(
            b,
            cells_of(b, Player::Black),
            Player::Black,
        ).3,
        500,
    )
}

/// The trade bonus: the side ahead in non-pawn material gains as material comes off,
/// nothing in the middlegame and up to 48 per rook unit in the endgame.
pub open spec fn trade_terms(b: Board) -> (int, int) {
    (
        tdiv(npm_norm(b) * 0 * simplification(b), start_phase_of(b)),
        tdiv(npm_norm(b) * 48 * simplification(b), start_phase_of(b)),
    )
}

/// The middlegame score, the endgame score and the phase, all terms summed.
pub open spec fn gathered(b: Board) -> (int, int, int) {
    let w = piece_sums(b, cells_of(b, Player::White), Player::White);
    let k = piece_sums(b, cells_of(b, Player::Black), Player::Black);
    let ks = king_safety(b);
    let ps = pawn_structure(b);
    let bp = bishop_pair_terms(b);
    let rf = rook_files(b);
    let cr = castling_terms(b);
    let tr = trade_terms(b);
    (
        w.0 - k.0 + ks.0 + ps.0 + bp.0 + rf.0 + cr.0 + tr.0,
        w.1 - k.1 + ks.1 + ps.1 + bp.1 + rf.1 + cr.1 + tr.1,
        phase_of(b),
    )
}

/// The phase used for blending, at most the starting phase.
pub open spec fn blend_phase(b: Board) -> int {
    if gathered(b).2 < start_phase_of(b) {
        gathered(b).2
    } else {
        start_phase_of(b)
    }
}

/// The evaluation: the middlegame and endgame scores weighted by the phase left.
pub open spec fn evaluation(b: Board) -> int {
    let g = gathered(b);
    let sp = start_phase_of(b);
    let p = blend_phase(b);
    tdiv(g.0 * p + g.1 * (sp - p), sp)
}

pub open spec fn fits_i32(x: int) -> bool {
    i32::MIN <= x <= i32::MAX
}

/// Every product the evaluation forms fits in an `i32`: the trade bonus before its
/// division, and the two weighted scores and their sum.
pub open spec fn eval_arith_ok(b: Board) -> bool {
    let g = gathered(b);
    let sp = start_phase_of(b);
    let p = blend_phase(b);
    &&& fits_i32(npm_norm(b) * 48 * simplification(b))
    &&& fits_i32(g.0 * p)
    &&& fits_i32(g.1 * (sp - p))
    &&& fits_i32(g.0 * p + g.1 * (sp - p))
}

/// The file-column terms of `player`'s rooks (see `rook_file_sums`).
fn rook_side_scores(board: &Board, player: Player) -> (r: (i32, i32))
    requires
        board.wf(),
        eval_fits(*board),
    ensures
        r.0 == rook_file_sums(*board, cells_of(*board, player), player).0,
        r.1 == rook_file_sums(*board, cells_of(*board, player), player).1,
        0 <= r.0 <= 15 * board.total(),
        0 <= r.1 <= 10 * board.total(),
{
    let ghost b = *board;
    let cells = player_cells(board, player);
    proof {
        crate::mobility::lemma_sorted_cells_len(owned_pred(b, player), b.total());
        assert(b.total() <= 100_000) by (nonlinear_arith)
            requires
                b.total() * piece_max(b) <= 100_000_000,
                piece_max(b) >= 1000,
        ;
    }
    let mut mg: i32 = 0;
    let mut eg: i32 = 0;
    let mut j: usize = 0;
    while j < cells.len()
        invariant
            b == *board,
            board.wf(),
            cells@ == cells_of(b, player),
            cells.len() <= b.total(),
            b.total() <= 100_000,
            forall|q: int| 0 <= q < cells.len() ==> (#[trigger] cells@[q] as int) < b.total(),
            j <= cells.len(),
            (mg as int, eg as int) == rook_file_sums(b, cells@.take(j as int), player),
            0 <= mg <= 15 * j,
            0 <= eg <= 10 * j,
        decreases cells.len() - j,
    {
        let i = cells[j];
        proof {
            assert(cells@.take(j + 1).drop_last() =~= cells@.take(j as int));
            assert(cells@.take(j + 1).last() == i);
        }
        if board.pieces.rooks.get_bit(i) {
            let mine = file_column_has_pawn(board, i, player);
            let theirs = file_column_has_pawn(board, i, player.opponent());
            if !mine && !theirs {
                mg = mg + 15;
                eg = eg + 10;
            } else if !mine {
                mg = mg + 8;
                eg = eg + 5;
            }
        }
        j += 1;
    }
    proof {
        assert(cells@.take(cells.len() as int) =~= cells@);
    }
    (mg, eg)
}

/// White's edge in rooks on open file columns (see `rook_files`).
fn evaluate_rook_files(board: &Board) -> (r: (i32, i32))
    requires
        board.wf(),
        eval_fits(*board),
    ensures
        r.0 == rook_files(*board).0,
        r.1 == rook_files(*board).1,
        -15 * board.total() <= r.0 <= 15 * board.total(),
        -10 * board.total() <= r.1 <= 10 * board.total(),
{
    let w = rook_side_scores(board, Player::White);
    let k = rook_side_scores(board, Player::Black);
    (w.0 - k.0, w.1 - k.1)
}

/// White's edge in bishop pairs (see `bishop_pair_terms`).
fn evaluate_bishop_pair(board: &Board) -> (r: (i32, i32))
    requires
        board.wf(),
    ensures
        r.0 == bishop_pair_terms(*board).0,
        r.1 == bishop_pair_terms(*board).1,
{
    let w: i32 = if bishop_count(board, Player::White) >= 2 {
        1
    } else {
        0
    };
    let k: i32 = if bishop_count(board, Player::Black) >= 2 {
        1
    } else {
        0
    };
    ((w - k) * 30, (w - k) * 50)
}

/// White's edge in castling rights (see `castling_terms`).
fn evaluate_castling_rights(board: &Board) -> (r: (i32, i32))
    ensures
        r.0 == castling_terms(*board).0,
        r.1 == castling_terms(*board).1,
{
    let r = board.state.castling_rights;
    let w: i32 = (if r & 1 == 1 { 1i32 } else { 0 }) + (if (r >> 1) & 1 == 1 { 1i32 } else { 0 });
    let k: i32 = (if (r >> 2) & 1 == 1 { 1i32 } else { 0 }) + (if (r >> 3) & 1 == 1 { 1i32 } else { 0 });
    assert(r >> 0u8 == r) by (bit_vector);
    ((w - k) * 10, 0)
}

proof fn lemma_scaled_quotient_bound(n: int, simp: int, sp: int)
    requires
        sp >= 1,
        0 <= simp <= sp,
    ensures
        -n <= tdiv(n * simp, sp) <= n || n <= tdiv(n * simp, sp) <= -n,
{
    if n >= 0 {
        assert(0 <= (n * simp) / sp <= n) by (nonlinear_arith)
            requires
                n >= 0,
                sp >= 1,
                0 <= simp <= sp,
        {
            assert(n * simp <= n * sp);
            assert(n * simp >= 0);
            vstd::arithmetic::div_mod::lemma_div_is_ordered(n * simp, n * sp, sp);
            vstd::arithmetic::div_mod::lemma_div_multiples_vanish(n, sp);
        }
    } else {
        let m = -n;
        assert(0 <= (m * simp) / sp <= m) by (nonlinear_arith)
            requires
                m >= 0,
                sp >= 1,
                0 <= simp <= sp,
        {
            assert(m * simp <= m * sp);
            assert(m * simp >= 0);
            vstd::arithmetic::div_mod::lemma_div_is_ordered(m * simp, m * sp, sp);
            vstd::arithmetic::div_mod::lemma_div_multiples_vanish(m, sp);
        }
        assert(n * simp == -(m * simp)) by (nonlinear_arith)
            requires
                m == -n,
        ;
        if n * simp >= 0 {
            assert(m * simp <= 0);
            assert(m * simp == 0);
        }
    }
}

/// The middlegame score, the endgame score and the phase (see `gathered`).
fn gather_scores(board: &Board) -> (r: (i32, i32, i32))
    requires
        board.wf(),
        board.geo.side >= 2,
        eval_fits(*board),
        fits_i32(npm_norm(*board) * 48 * simplification(*board)),
    ensures
        r.0 == gathered(*board).0,
        r.1 == gathered(*board).1,
        r.2 == gathered(*board).2,
        r.2 >= 0,
{
    let ghost b = *board;
    let w = piece_scores(board, Player::White);
    let k = piece_scores(board, Player::Black);
    proof {
        assert(b.total() <= 100_000) by (nonlinear_arith)
            requires
                b.total() * piece_max(b) <= 100_000_000,
                piece_max(b) >= 1000,
        ;
    }
    let mut mg: i32 = w.0 - k.0;
    let mut eg: i32 = w.1 - k.1;
    let phase: i32 = w.2 + k.2;
    let ks = evaluate_king_safety(board);
    mg = mg + ks.0;
    eg = eg + ks.1;
    let ps = evaluate_pawn_structure(board);
    proof {
        assert(b.total() * (48 + 6 * b.geo.side) <= 100_000_000) by (nonlinear_arith)
            requires
                b.total() * piece_max(b) <= 100_000_000,
                piece_max(b) >= 1000 + 10 * (b.geo.dimension * b.geo.side),
                b.geo.dimension >= 2,
                b.geo.side >= 1,
        ;
    }
    mg = mg + ps.0;
    eg = eg + ps.1;
    let bp = evaluate_bishop_pair(board);
    mg = mg + bp.0;
    eg = eg + bp.1;
    let rf = evaluate_rook_files(board);
    mg = mg + rf.0;
    eg = eg + rf.1;
    let cr = evaluate_castling_rights(board);
    mg = mg + cr.0;
    eg = eg + cr.1;
    let sp: i32 = if board.state.start_phase >= 1 {
        board.state.start_phase
    } else {
        1
    };
    let simp: i32 = sp - if phase < sp {
        phase
    } else {
        sp
    };
    let norm = trunc_div(w.3 - k.3, 500);
    proof {
        assert(-180_000 <= norm <= 180_000);
        lemma_scaled_quotient_bound(norm * 48, simp as int, sp as int);
        assert(norm * 0 * simp == 0) by (nonlinear_arith);
        assert(norm * 48 * simp == (norm * 48) * simp) by (nonlinear_arith);
    }
    let t_mg = trunc_div(norm * 0 * simp, sp);
    let t_eg = trunc_div(norm * 48 * simp, sp);
    mg = mg + t_mg;
    eg = eg + t_eg;
    (mg, eg, phase)
}

impl Evaluator {
    /// The static evaluation of the position in centipawns, from White's side: the
    /// middlegame and endgame scores blended by the phase left, rounded towards zero.
    pub fn evaluate(board: &Board) -> (r: i32)
        requires
            board.wf(),
            board.geo.side >= 2,
            eval_fits(*board),
            eval_arith_ok(*board),
        ensures
            r == evaluation(*board),
    {
        let (mg, eg, phase) = gather_scores(board);
        let sp: i32 = if board.state.start_phase >= 1 {
            board.state.start_phase
        } else {
            1
        };
        let p: i32 = if phase < sp {
            phase
        } else {
            sp
        };
        let a = mg * p;
        let c = eg * (sp - p);
        trunc_div(a + c, sp)
    }
}

impl Evaluator {
    /// Whether the board is small enough for the evaluation's sums (see `eval_fits`).
    pub fn fits(board: &Board) -> (r: bool)
        requires
            board.wf(),
        ensures
            r == eval_fits(*board),
    {
        proof {
            lemma_dir_counts(*board);
        }
        let total = board.geo.total_cells as u128;
        let dirs = board.geo.cache.rook_directions.len() as u128 + board.geo.cache.bishop_directions.len() as u128;
        let knights = board.geo.cache.knight_offsets.len() as u128;
        proof {
            assert(total * dirs <= 64 * 65536 * (32 + 0x10_0000)) by (nonlinear_arith)
                requires
                    total <= 64 * 65536,
                    dirs <= 32 + 0x10_0000,
            ;
        }
        let mob = knights + total * dirs;
        let dim = board.geo.dimension as u128;
        let side = board.geo.side as u128;
        proof {
            assert(dim <= 16 && side <= 256);
            assert(dim * side <= 16 * 256) by (nonlinear_arith)
                requires
                    dim <= 16,
                    side <= 256,
            ;
        }
        let pm = 1000 + 10 * (dim * side) + 5 * mob;
        proof {
            assert(total * pm <= 64 * 65536 * (1000 + 10 * 16 * 256 + 5 * (0x1_0000_0000_0000_0000 + 64 * 65536 * (32 + 0x10_0000)))) by (nonlinear_arith)
                requires
                    total <= 64 * 65536,
                    pm <= 1000 + 10 * 16 * 256 + 5 * (0x1_0000_0000_0000_0000 + 64 * 65536 * (32 + 0x10_0000)),
            ;
        }
        total * pm <= 100_000_000
    }

    /// The evaluation when every product it forms fits in an `i32` (see
    /// `eval_arith_ok`), else nothing.
    pub fn try_evaluate(board: &Board) -> (r: Option<i32>)
        requires
            board.wf(),
            board.geo.side >= 2,
            eval_fits(*board),
        ensures
            r == if eval_arith_ok(*board) {
                Some(evaluation(*board) as i32)
            } else {
                None::<i32>
            },
    {
        let ghost b = *board;
        let w = piece_scores(board, Player::White);
        let k = piece_scores(board, Player::Black);
        proof {
            assert(b.total() <= 100_000) by (nonlinear_arith)
                requires
                    b.total() * piece_max(b) <= 100_000_000,
                    piece_max(b) >= 1000,
            ;
        }
        let phase: i32 = w.2 + k.2;
        let sp: i32 = if board.state.start_phase >= 1 {
            board.state.start_phase
        } else {
            1
        };
        let simp: i32 = sp - if phase < sp {
            phase
        } else {
            sp
        };
        let norm = trunc_div(w.3 - k.3, 500);
        proof {
            assert(-180_000 <= norm <= 180_000);
            assert(-180_000 * 48 * 2_147_483_647 <= (norm as int) * 48 * (simp as int) <= 180_000 * 48 * 2_147_483_647) by (nonlinear_arith)
                requires
                    -180_000 <= norm <= 180_000,
                    0 <= simp <= 2_147_483_647,
            ;
        }
        let tp: i64 = (norm as i64) * 48 * (simp as i64);
        if tp < i32::MIN as i64 || tp > i32::MAX as i64 {
            return None;
        }
        let (mg, eg, ph) = gather_scores(board);
        let p: i32 = if ph < sp {
            ph
        } else {
            sp
        };
        proof {
            assert(-2_147_483_648 * 2_147_483_647 <= (mg as int) * (p as int) <= 2_147_483_648 * 2_147_483_647) by (nonlinear_arith)
                requires
                    -2_147_483_648 <= mg <= 2_147_483_647,
                    0 <= p <= 2_147_483_647,
            ;
            assert(-2_147_483_648 * 2_147_483_647 <= (eg as int) * ((sp - p) as int) <= 2_147_483_648 * 2_147_483_647) by (nonlinear_arith)
                requires
                    -2_147_483_648 <= eg <= 2_147_483_647,
                    0 <= sp - p <= 2_147_483_647,
            ;
        }
        let a: i64 = (mg as i64) * (p as i64);
        let c: i64 = (eg as i64) * ((sp - p) as i64);
        if a < i32::MIN as i64 || a > i32::MAX as i64 || c < i32::MIN as i64 || c > i32::MAX as i64 || a + c
            < i32::MIN as i64 || a + c > i32::MAX as i64 {
            return None;
        }
        Some(Self::evaluate(board))
    }
}

} // verus!
