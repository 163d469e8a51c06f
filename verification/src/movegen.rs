//! Move generation: leaper, pawn, slider and castling moves, and the legal filter.
use vstd::prelude::*;
use crate::attacks::{
    occupied, owned, attacked, first_on_ray, rook_or_queen, bishop_or_queen, ray_cell,
    rook_queen_hit, bishop_queen_hit, leaper_hit, kind_has, on_ray,
};
use crate::geometry::{DirectionInfo, lemma_leaper_targets_bound};
use crate::sliders::{
    sorted_cells, lemma_sorted_cells, lemma_sorted_cells_stop, ks_final, dir_masks_ok,
    kogge_stone_fill_inplace, lemma_ray_compose, lemma_on_ray_prefix, lemma_cache_dir_masks,
};
use crate::bitboard_large::BitBoardLarge;
use crate::board::{Board, rank_coords, lemma_coords_index_inverse};
use crate::make_move::{
    applied, applied_info, move_ok, undoable, clean, unmade, lemma_mid_facts,
    lemma_unmake_undoes_apply, lemma_unmake_restores_bits,
};
use crate::geometry::{coords_of, index_of, in_bounds, lemma_index_of_bound};
use crate::inline::{CoordVals, MoveList};
use crate::models::{Coordinate, Move, PieceType, Player};
use crate::representation::{BoardRepresentation, cell_count, lemma_cell_count_monotone};

verus! {

/// What a move is: source values, target values and promotion.
pub type MoveView = (Seq<u8>, Seq<u8>, Option<PieceType>);

/// The view of a move.
pub open spec fn mview(m: Move) -> MoveView {
    (m.from@, m.to@, m.promotion)
}

/// The views of a list of moves.
pub open spec fn views(s: Seq<Move>) -> Seq<MoveView> {
    s.map_values(|m: Move| mview(m))
}

/// Viewing a list with one more move appends that move's view.
pub proof fn lemma_views_push(s: Seq<Move>, m: Move)
    ensures
        views(s.push(m)) == views(s).push(mview(m)),
{
    assert(views(s.push(m)) =~= views(s).push(mview(m)));
}

/// The coordinates of cell `i` of the board.
pub open spec fn cell_vals(b: Board, i: int) -> Seq<u8> {
    coords_of(i as nat, b.geo.dimension as nat, b.geo.side as nat)
}

/// A move from cell `o` to cell `t` without promotion.
pub open spec fn plain(b: Board, o: int, t: int) -> MoveView {
    (cell_vals(b, o), cell_vals(b, t), None)
}

/// The leaper moves from cell `o` to the targets not held by `player`, in target order.
pub open spec fn leaper_moves(b: Board, o: int, targets: Seq<usize>, player: Player) -> Seq<MoveView>
    decreases targets.len(),
{
    if targets.len() == 0 {
        Seq::empty()
    } else {
        let t = targets.last() as int;
        leaper_moves(b, o, targets.drop_last(), player) + if owned(b, t, player) {
            Seq::empty()
        } else {
            seq![plain(b, o, t)]
        }
    }
}

/// Every axis of cell `t` other than axis 1 is on `player`'s last rank.
pub open spec fn promotes(b: Board, t: int, player: Player) -> bool {
    let v = cell_vals(b, t);
    forall|i: int|
        0 <= i < v.len() && i != 1 ==> match player {
            Player::White => #[trigger] v[i] as int == b.geo.side - 1,
            Player::Black => v[i] == 0,
        }
}

/// The pawn moves to cell `t`: one per promotion kind (queen, rook, bishop, knight) when
/// it promotes, else a plain move.
pub open spec fn pawn_to(b: Board, o: int, t: int, player: Player) -> Seq<MoveView> {
    if promotes(b, t, player) {
        seq![
            (cell_vals(b, o), cell_vals(b, t), Some(PieceType::Queen)),
            (cell_vals(b, o), cell_vals(b, t), Some(PieceType::Rook)),
            (cell_vals(b, o), cell_vals(b, t), Some(PieceType::Bishop)),
            (cell_vals(b, o), cell_vals(b, t), Some(PieceType::Knight)),
        ]
    } else {
        seq![plain(b, o, t)]
    }
}

/// The forward sign of `player`'s pawns.
pub open spec fn forward_sign(player: Player) -> int {
    match player {
        Player::White => 1,
        Player::Black => -1,
    }
}

/// The pawn capture (or en-passant) move from `o` forward along axis `a` and by `s` along
/// axis `c`.
pub open spec fn pawn_capture(b: Board, o: int, player: Player, a: nat, c: nat, s: int) -> Seq<MoveView> {
    let side = b.geo.side as int;
    let dim = b.geo.dimension as nat;
    let ctc = cell_vals(b, o)[c as int] + s;
    let target = o + forward_sign(player) * cell_count(side as nat, a) + s * cell_count(side as nat, c);
    if ctc < 0 || ctc >= side {
        Seq::empty()
    } else if target < 0 || target >= b.total() {
        Seq::empty()
    } else if owned(b, target, player.spec_opponent()) {
        pawn_to(b, o, target, player)
    } else if b.state.en_passant_target matches Some((t, _)) && target == t {
        seq![plain(b, o, target)]
    } else {
        Seq::empty()
    }
}

/// The pawn captures forward along axis `a`, sideways along each axis below `n` other
/// than `a`, first by `-1` then by `+1`.
pub open spec fn pawn_captures(b: Board, o: int, player: Player, a: nat, n: nat) -> Seq<MoveView>
    decreases n,
{
    if n == 0 {
        Seq::empty()
    } else {
        let c = (n - 1) as nat;
        pawn_captures(b, o, player, a, c) + if c == a {
            Seq::empty()
        } else {
            pawn_capture(b, o, player, a, c, -1) + pawn_capture(b, o, player, a, c, 1)
        }
    }
}

/// The pawn moves forward along axis `a` (never axis 1): the single step when free, the
/// double step from the start rank when both steps are free, and the captures, which do
/// not depend on what stands ahead.
pub open spec fn pawn_axis_moves(b: Board, o: int, player: Player, a: nat) -> Seq<MoveView> {
    let side = b.geo.side as int;
    let dim = b.geo.dimension as nat;
    let fs = forward_sign(player);
    let cv = cell_vals(b, o)[a as int];
    let stride = cell_count(side as nat, a);
    let fwd = o + fs * stride;
    let dbl = o + fs * 2 * stride;
    let start = match player {
        Player::White => cv == 1,
        Player::Black => cv == side - 2,
    };
    if a == 1 {
        Seq::empty()
    } else if cv + fs < 0 || cv + fs >= side {
        Seq::empty()
    } else if fwd < 0 || fwd >= b.total() || occupied(b, fwd) {
        pawn_captures(b, o, player, a, dim)
    } else {
        pawn_to(b, o, fwd, player) + (if start && 0 <= dbl < b.total() && !occupied(b, dbl) {
            pawn_to(b, o, dbl, player)
        } else {
            Seq::empty()
        }) + pawn_captures(b, o, player, a, dim)
    }
}

/// The pawn moves from `o` along the movement axes below `n`.
pub open spec fn pawn_moves(b: Board, o: int, player: Player, n: nat) -> Seq<MoveView>
    decreases n,
{
    if n == 0 {
        Seq::empty()
    } else {
        pawn_moves(b, o, player, (n - 1) as nat) + pawn_axis_moves(b, o, player, (n - 1) as nat)
    }
}

/// The cell of `rank_coords(dim, rank, file, rank)` on the board.
pub open spec fn rank_cell(b: Board, rank: int, file: int) -> int {
    index_of(rank_coords(b.geo.dimension as nat, rank, file, rank), b.geo.side as nat) as int
}

/// The castling moves of `player` on an 8-square board: with the side's right, the king
/// square (file 4 of the home rank) not attacked, towards file 6 when files 5 and 6 are
/// empty and not attacked, and towards file 2 when files 1 to 3 are empty and files 2 and
/// 3 are not attacked.
pub open spec fn castling_moves(b: Board, player: Player) -> Seq<MoveView> {
    let dim = b.geo.dimension as nat;
    let opp = player.spec_opponent();
    let (mask, rank, ks, qs) = match player {
        Player::White => (3u8, 0int, 1u8, 2u8),
        Player::Black => (12u8, 7int, 4u8, 8u8),
    };
    let my_rights = b.state.castling_rights & mask;
    let king = rank_coords(dim, rank, 4, rank);
    if b.geo.side != 8 || my_rights == 0 || attacked(b, rank_cell(b, rank, 4), opp) {
        Seq::empty()
    } else {
        (if my_rights & ks != 0 && !occupied(b, rank_cell(b, rank, 5)) && !occupied(
            b,
            rank_cell(b, rank, 6),
        ) && !attacked(b, rank_cell(b, rank, 5), opp) && !attacked(b, rank_cell(b, rank, 6), opp) {
            seq![(king, rank_coords(dim, rank, 6, rank), None::<PieceType>)]
        } else {
            Seq::empty()
        }) + (if my_rights & qs != 0 && !occupied(b, rank_cell(b, rank, 1)) && !occupied(
            b,
            rank_cell(b, rank, 2),
        ) && !occupied(b, rank_cell(b, rank, 3)) && !attacked(b, rank_cell(b, rank, 3), opp)
            && !attacked(b, rank_cell(b, rank, 2), opp) {
            seq![(king, rank_coords(dim, rank, 2, rank), None::<PieceType>)]
        } else {
            Seq::empty()
        })
    }
}

/// The home rank of `player`: 0 for White, 7 for Black.
pub open spec fn home_rank(player: Player) -> int {
    match player {
        Player::White => 0,
        Player::Black => 7,
    }
}

/// A castling move of `player` takes its king from file 4 of its home rank to file 6 or 2
/// of that rank, without promotion, with the squares between the king and the rook
/// empty; and the king neither stands on, passes over, nor lands on a square the opponent
/// attacks.
pub proof fn lemma_castling_moves_safe(b: Board, player: Player)
    requires
        b.geo.dimension >= 2,
    ensures
        forall|i: int|
            0 <= i < castling_moves(b, player).len() ==> {
                let m = #[trigger] castling_moves(b, player)[i];
                let dim = b.geo.dimension as nat;
                let rank = home_rank(player);
                let opp = player.spec_opponent();
                let kingside = m.1 == rank_coords(dim, rank, 6, rank);
                let queenside = m.1 == rank_coords(dim, rank, 2, rank);
                &&& b.geo.side == 8
                &&& m.0 == rank_coords(dim, rank, 4, rank)
                &&& m.2 is None
                &&& kingside || queenside
                &&& forall|file: int|
                    (kingside && 4 <= file <= 6) || (queenside && 2 <= file <= 4) ==> !attacked(
                        b,
                        #[trigger] rank_cell(b, rank, file),
                        opp,
                    )
                &&& forall|file: int|
                    (kingside && 5 <= file <= 6) || (queenside && 1 <= file <= 3) ==> !occupied(
                        b,
                        #[trigger] rank_cell(b, rank, file),
                    )
            },
{
    let dim = b.geo.dimension as nat;
    let rank = home_rank(player);
    let ks = rank_coords(dim, rank, 6, rank);
    let qs = rank_coords(dim, rank, 2, rank);
    assert(ks[1] != qs[1]);
    assert(ks != qs);
    let l = castling_moves(b, player);
    assert forall|i: int| 0 <= i < l.len() implies {
        let m = #[trigger] l[i];
        let opp = player.spec_opponent();
        let kingside = m.1 == ks;
        let queenside = m.1 == qs;
        &&& b.geo.side == 8
        &&& m.0 == rank_coords(dim, rank, 4, rank)
        &&& m.2 is None
        &&& kingside || queenside
        &&& forall|file: int|
            (kingside && 4 <= file <= 6) || (queenside && 2 <= file <= 4) ==> !attacked(
                b,
                #[trigger] rank_cell(b, rank, file),
                opp,
            )
        &&& forall|file: int|
            (kingside && 5 <= file <= 6) || (queenside && 1 <= file <= 3) ==> !occupied(
                b,
                #[trigger] rank_cell(b, rank, file),
            )
    } by {
        let opp = player.spec_opponent();
        let (mask, rk, k1, q1) = match player {
            Player::White => (3u8, 0int, 1u8, 2u8),
            Player::Black => (12u8, 7int, 4u8, 8u8),
        };
        assert(rk == rank);
        let my = b.state.castling_rights & mask;
        let king = rank_coords(dim, rank, 4, rank);
        let kcond = my & k1 != 0 && !occupied(b, rank_cell(b, rank, 5)) && !occupied(b, rank_cell(b, rank, 6))
            && !attacked(b, rank_cell(b, rank, 5), opp) && !attacked(b, rank_cell(b, rank, 6), opp);
        let qcond = my & q1 != 0 && !occupied(b, rank_cell(b, rank, 1)) && !occupied(b, rank_cell(b, rank, 2))
            && !occupied(b, rank_cell(b, rank, 3)) && !attacked(b, rank_cell(b, rank, 3), opp)
            && !attacked(b, rank_cell(b, rank, 2), opp);
        let kpart: Seq<MoveView> = if kcond {
            seq![(king, ks, None::<PieceType>)]
        } else {
            Seq::empty()
        };
        let qpart: Seq<MoveView> = if qcond {
            seq![(king, qs, None::<PieceType>)]
        } else {
            Seq::empty()
        };
        assert(b.geo.side == 8 && my != 0 && !attacked(b, rank_cell(b, rank, 4), opp));
        assert(l == kpart + qpart);
        let m = l[i];
        if i < kpart.len() {
            assert(m == kpart[i]);
            assert(kcond);
            assert(m.1 == ks);
        } else {
            assert(m == qpart[i - kpart.len()]);
            assert(qcond);
            assert(m.1 == qs);
        }
        assert forall|file: int|
            (m.1 == ks && 4 <= file <= 6) || (m.1 == qs && 2 <= file <= 4) implies !attacked(
                b,
                #[trigger] rank_cell(b, rank, file),
                opp,
            ) by {
            if m.1 == ks {
                assert(file == 4 || file == 5 || file == 6);
            } else {
                assert(file == 2 || file == 3 || file == 4);
            }
        }
        assert forall|file: int|
            (m.1 == ks && 5 <= file <= 6) || (m.1 == qs && 1 <= file <= 3) implies !occupied(
                b,
                #[trigger] rank_cell(b, rank, file),
            ) by {
            if m.1 == ks {
                assert(file == 5 || file == 6);
            } else {
                assert(file == 1 || file == 2 || file == 3);
            }
        }
    }
}

/// Cell `k` is the lowest cell holding a king of `player`.
pub open spec fn lowest_king(b: Board, player: Player, k: int) -> bool {
    &&& 0 <= k < b.total()
    &&& b.pieces.kings.has(k)
    &&& owned(b, k, player)
    &&& forall|j: int| 0 <= j < k ==> !(#[trigger] b.pieces.kings.has(j) && owned(b, j, player))
}

/// `player`'s king (the lowest cell holding one) is attacked.
pub open spec fn king_in_check(b: Board, player: Player) -> bool {
    exists|k: int| #[trigger] lowest_king(b, player, k) && attacked(b, k, player.spec_opponent())
}

/// The king of `player` is attacked on the position that making `mv` on `b` gives.
pub open spec fn check_after(b: Board, mv: Move, player: Player) -> bool {
    forall|m: Board| #[trigger] applied(b, mv, m) ==> king_in_check(m, player)
}

/// Whether the king is attacked depends only on the bits of the cells and the geometry.
pub(crate) proof fn lemma_check_congruent(m1: Board, m2: Board, player: Player)
    requires
        forall|j: int| #[trigger] m1.pieces.bits(j) == m2.pieces.bits(j),
        m1.geo == m2.geo,
    ensures
        king_in_check(m1, player) == king_in_check(m2, player),
{
    assert forall|j: int| #![all_triggers] m1.pieces.white_occupancy.has(j) == m2.pieces.white_occupancy.has(j)
        && m1.pieces.black_occupancy.has(j) == m2.pieces.black_occupancy.has(j)
        && m1.pieces.pawns.has(j) == m2.pieces.pawns.has(j)
        && m1.pieces.rooks.has(j) == m2.pieces.rooks.has(j)
        && m1.pieces.knights.has(j) == m2.pieces.knights.has(j)
        && m1.pieces.bishops.has(j) == m2.pieces.bishops.has(j)
        && m1.pieces.queens.has(j) == m2.pieces.queens.has(j)
        && m1.pieces.kings.has(j) == m2.pieces.kings.has(j) by {
        assert(m1.pieces.bits(j) == m2.pieces.bits(j));
    }
    assert forall|i: int| #[trigger] occupied(m1, i) == occupied(m2, i) by {}
    assert forall|i: int, p: Player| #[trigger] owned(m1, i, p) == owned(m2, i, p) by {}
    assert forall|o: int, dir: Seq<isize>, kk: int| #[trigger] first_on_ray(m1, o, dir, kk) == first_on_ray(m2, o, dir, kk) by {
        if first_on_ray(m1, o, dir, kk) {
            assert forall|m: int| 1 <= m < kk implies !occupied(m2, #[trigger] ray_cell(m2, o, dir, m)) by {
                assert(!occupied(m1, ray_cell(m1, o, dir, m)));
            }
        }
        if first_on_ray(m2, o, dir, kk) {
            assert forall|m: int| 1 <= m < kk implies !occupied(m1, #[trigger] ray_cell(m1, o, dir, m)) by {
                assert(!occupied(m2, ray_cell(m2, o, dir, m)));
            }
        }
    }
    assert forall|i: int| #[trigger] rook_or_queen(m1, i) == rook_or_queen(m2, i) by {}
    assert forall|i: int| #[trigger] bishop_or_queen(m1, i) == bishop_or_queen(m2, i) by {}
    assert forall|o: int, dir: Seq<isize>, p: Player| #[trigger] rook_queen_hit(m1, o, dir, p) == rook_queen_hit(m2, o, dir, p) by {
        if rook_queen_hit(m1, o, dir, p) {
            let kk = choose|kk: int| first_on_ray(m1, o, dir, kk) && owned(m1, #[trigger] ray_cell(m1, o, dir, kk), p) && rook_or_queen(m1, ray_cell(m1, o, dir, kk));
            assert(first_on_ray(m2, o, dir, kk) && owned(m2, ray_cell(m2, o, dir, kk), p) && rook_or_queen(m2, ray_cell(m2, o, dir, kk)));
        }
        if rook_queen_hit(m2, o, dir, p) {
            let kk = choose|kk: int| first_on_ray(m2, o, dir, kk) && owned(m2, #[trigger] ray_cell(m2, o, dir, kk), p) && rook_or_queen(m2, ray_cell(m2, o, dir, kk));
            assert(first_on_ray(m1, o, dir, kk) && owned(m1, ray_cell(m1, o, dir, kk), p) && rook_or_queen(m1, ray_cell(m1, o, dir, kk)));
        }
    }
    assert forall|o: int, dir: Seq<isize>, p: Player| #[trigger] bishop_queen_hit(m1, o, dir, p) == bishop_queen_hit(m2, o, dir, p) by {
        if bishop_queen_hit(m1, o, dir, p) {
            let kk = choose|kk: int| first_on_ray(m1, o, dir, kk) && owned(m1, #[trigger] ray_cell(m1, o, dir, kk), p) && bishop_or_queen(m1, ray_cell(m1, o, dir, kk));
            assert(first_on_ray(m2, o, dir, kk) && owned(m2, ray_cell(m2, o, dir, kk), p) && bishop_or_queen(m2, ray_cell(m2, o, dir, kk)));
        }
        if bishop_queen_hit(m2, o, dir, p) {
            let kk = choose|kk: int| first_on_ray(m2, o, dir, kk) && owned(m2, #[trigger] ray_cell(m2, o, dir, kk), p) && bishop_or_queen(m2, ray_cell(m2, o, dir, kk));
            assert(first_on_ray(m1, o, dir, kk) && owned(m1, ray_cell(m1, o, dir, kk), p) && bishop_or_queen(m1, ray_cell(m1, o, dir, kk)));
        }
    }
    assert forall|k: int, p: Player| #[trigger] attacked(m1, k, p) == attacked(m2, k, p) by {
        assert forall|ts: Seq<usize>, t: PieceType| #[trigger] leaper_hit(m1, ts, p, t) == leaper_hit(m2, ts, p, t) by {
            if leaper_hit(m1, ts, p, t) {
                let j = choose|j: int| 0 <= j < ts.len() && owned(m1, #[trigger] ts[j] as int, p) && kind_has(m1, ts[j] as int, t);
                assert(owned(m2, ts[j] as int, p) && kind_has(m2, ts[j] as int, t));
            }
            if leaper_hit(m2, ts, p, t) {
                let j = choose|j: int| 0 <= j < ts.len() && owned(m2, #[trigger] ts[j] as int, p) && kind_has(m2, ts[j] as int, t);
                assert(owned(m1, ts[j] as int, p) && kind_has(m1, ts[j] as int, t));
            }
        }
    }
    assert forall|k: int| #[trigger] lowest_king(m1, player, k) == lowest_king(m2, player, k) by {
        if lowest_king(m1, player, k) {
            assert forall|j: int| 0 <= j < k implies !(#[trigger] m2.pieces.kings.has(j) && owned(m2, j, player)) by {
                assert(!(m1.pieces.kings.has(j) && owned(m1, j, player)));
            }
        }
        if lowest_king(m2, player, k) {
            assert forall|j: int| 0 <= j < k implies !(#[trigger] m1.pieces.kings.has(j) && owned(m1, j, player)) by {
                assert(!(m2.pieces.kings.has(j) && owned(m2, j, player)));
            }
        }
    }
    if king_in_check(m1, player) {
        let k = choose|k: int| #[trigger] lowest_king(m1, player, k) && attacked(m1, k, player.spec_opponent());
        assert(lowest_king(m2, player, k) && attacked(m2, k, player.spec_opponent()));
    }
    if king_in_check(m2, player) {
        let k = choose|k: int| #[trigger] lowest_king(m2, player, k) && attacked(m2, k, player.spec_opponent());
        assert(lowest_king(m1, player, k) && attacked(m1, k, player.spec_opponent()));
    }
}

/// Cell `i` is one or more steps along `dir` from cell `o`, every cell before it empty.
pub open spec fn reach(b: Board, o: int, dir: Seq<isize>, i: int) -> bool {
    exists|k: int|
        #![trigger ray_cell(b, o, dir, k)]
        1 <= k && i == ray_cell(b, o, dir, k) && on_ray(b, o, dir, k) && forall|m: int|
            1 <= m < k ==> !occupied(b, #[trigger] ray_cell(b, o, dir, m))
}

/// `reach` from `o` along `dir`, as a predicate on cells.
pub open spec fn reach_pred(b: Board, o: int, dir: Seq<isize>) -> spec_fn(int) -> bool {
    |i: int| reach(b, o, dir, i)
}

/// The moves from `o` to the listed cells other than `o` and not held by `player`.
pub open spec fn slider_list_moves(b: Board, o: int, cells: Seq<usize>, player: Player) -> Seq<MoveView>
    decreases cells.len(),
{
    if cells.len() == 0 {
        Seq::empty()
    } else {
        let t = cells.last() as int;
        slider_list_moves(b, o, cells.drop_last(), player) + if t == o || owned(b, t, player) {
            Seq::empty()
        } else {
            seq![plain(b, o, t)]
        }
    }
}

/// The slider moves from `o` along each direction in turn (skipping a zero stride), to
/// the reached cells in increasing order.
pub open spec fn slider_moves(b: Board, o: int, dirs: Seq<DirectionInfo>, player: Player) -> Seq<MoveView>
    decreases dirs.len(),
{
    if dirs.len() == 0 {
        Seq::empty()
    } else {
        let d = dirs.last();
        slider_moves(b, o, dirs.drop_last(), player) + if d.stride == 0 {
            Seq::empty()
        } else {
            slider_list_moves(b, o, sorted_cells(reach_pred(b, o, d.offsets@), b.total()), player)
        }
    }
}

/// The kind a piece's moves are generated for: pawn, knight, bishop, rook, queen, king, the
/// first kind bitboard holding the cell.
pub open spec fn gen_kind(b: Board, i: int) -> Option<PieceType> {
    if b.pieces.pawns.has(i) {
        Some(PieceType::Pawn)
    } else if b.pieces.knights.has(i) {
        Some(PieceType::Knight)
    } else if b.pieces.bishops.has(i) {
        Some(PieceType::Bishop)
    } else if b.pieces.rooks.has(i) {
        Some(PieceType::Rook)
    } else if b.pieces.queens.has(i) {
        Some(PieceType::Queen)
    } else if b.pieces.kings.has(i) {
        Some(PieceType::King)
    } else {
        None
    }
}

/// The moves of the piece on cell `i` for `player`.
pub open spec fn piece_moves(b: Board, i: int, player: Player) -> Seq<MoveView> {
    let cache = b.geo.cache;
    match gen_kind(b, i) {
        Some(PieceType::Pawn) => pawn_moves(b, i, player, b.geo.dimension as nat),
        Some(PieceType::Knight) => leaper_moves(b, i, cache.knight_targets@[i]@, player),
        Some(PieceType::King) => leaper_moves(b, i, cache.king_targets@[i]@, player),
        Some(PieceType::Rook) => slider_moves(b, i, cache.rook_directions@, player),
        Some(PieceType::Bishop) => slider_moves(b, i, cache.bishop_directions@, player),
        Some(PieceType::Queen) => slider_moves(b, i, cache.rook_directions@, player) + slider_moves(
            b,
            i,
            cache.bishop_directions@,
            player,
        ),
        None => Seq::empty(),
    }
}

/// The moves of the pieces on the listed cells, in order.
pub open spec fn moves_from(b: Board, cells: Seq<usize>, player: Player) -> Seq<MoveView>
    decreases cells.len(),
{
    if cells.len() == 0 {
        Seq::empty()
    } else {
        moves_from(b, cells.drop_last(), player) + piece_moves(b, cells.last() as int, player)
    }
}

/// The cells of `player`'s pieces, as a predicate.
pub open spec fn owned_pred(b: Board, player: Player) -> spec_fn(int) -> bool {
    |i: int| owned(b, i, player)
}

/// The pseudo-legal moves of `player`: the moves of each of its pieces, by increasing cell.
pub open spec fn pseudo_legal(b: Board, player: Player) -> Seq<MoveView> {
    moves_from(b, sorted_cells(owned_pred(b, player), b.total()), player)
}

/// The targets of a list taken one by one.
proof fn lemma_take_last<T>(s: Seq<T>, j: int)
    requires
        0 <= j < s.len(),
    ensures
        s.take(j + 1).drop_last() == s.take(j),
        s.take(j + 1).last() == s[j],
{
    assert(s.take(j + 1).drop_last() =~= s.take(j));
}

impl Board {
    /// The moves of a leaper on cell `origin_idx` to each target not held by `player`.
    fn generate_leaper_moves(
        &self,
        origin_idx: usize,
        origin: &Coordinate,
        player: Player,
        targets: &[usize],
        moves: &mut MoveList,
    )
        requires
            self.wf(),
            origin_idx < self.total(),
            origin@ == cell_vals(*self, origin_idx as int),
            forall|j: int| 0 <= j < targets@.len() ==> #[trigger] targets@[j] < self.total(),
        ensures
            views(final(moves)@) == views(old(moves)@) + leaper_moves(
                *self,
                origin_idx as int,
                targets@,
                player,
            ),
    {
        let n = targets.len();
        let mut j: usize = 0;
        proof {
            assert(targets@.take(0) =~= Seq::<usize>::empty());
        }
        while j < n
            invariant
                self.wf(),
                n == targets@.len(),
                j <= n,
                origin_idx < self.total(),
                origin@ == cell_vals(*self, origin_idx as int),
                forall|q: int| 0 <= q < targets@.len() ==> #[trigger] targets@[q] < self.total(),
                views(moves@) == views(old(moves)@) + leaper_moves(
                    *self,
                    origin_idx as int,
                    targets@.take(j as int),
                    player,
                ),
            decreases n - j,
        {
            let target_idx = targets[j];
            proof {
                lemma_take_last(targets@, j as int);
            }
            let same = match player {
                Player::White => self.pieces.white_occupancy.get_bit(target_idx),
                Player::Black => self.pieces.black_occupancy.get_bit(target_idx),
            };
            if !same {
                let mv = Move {
                    from: origin.duplicate(),
                    to: Coordinate::from_vals(self.index_to_coords(target_idx)),
                    promotion: None,
                };
                proof {
                    lemma_views_push(moves@, mv);
                }
                moves.push_move(mv);
            }
            j = j + 1;
        }
        proof {
            assert(targets@.take(n as int) =~= targets@);
        }
    }

    /// The pawn moves from `from` to cell `to_idx`: four promotions (queen, rook, bishop,
    /// knight) on the last rank, else a plain move.
    fn add_pawn_move_idx(&self, from: &Coordinate, origin_idx: usize, to_idx: usize, player: Player, moves: &mut MoveList)
        requires
            self.wf(),
            origin_idx < self.total(),
            to_idx < self.total(),
            from@ == cell_vals(*self, origin_idx as int),
        ensures
            views(final(moves)@) == views(old(moves)@) + pawn_to(*self, origin_idx as int, to_idx as int, player),
    {
        let to_vals = self.index_to_coords(to_idx);
        let side = self.geo.side;
        let n = to_vals.dim();
        let mut is_promotion = true;
        let mut i: usize = 0;
        while i < n
            invariant
                n == to_vals@.len(),
                side == self.geo.side,
                side >= 1,
                i <= n,
                is_promotion == forall|k: int| 0 <= k < i && k != 1 ==> match player {
                    Player::White => #[trigger] to_vals@[k] as int == side - 1,
                    Player::Black => to_vals@[k] == 0,
                },
            decreases n - i,
        {
            if i != 1 {
                let v = to_vals.get(i);
                let ok = match player {
                    Player::White => v as usize == side - 1,
                    Player::Black => v == 0,
                };
                if !ok {
                    is_promotion = false;
                }
            }
            i = i + 1;
        }
        if is_promotion {
            let m1 = Move { from: from.duplicate(), to: Coordinate::from_vals(to_vals.duplicate()), promotion: Some(PieceType::Queen) };
            let m2 = Move { from: from.duplicate(), to: Coordinate::from_vals(to_vals.duplicate()), promotion: Some(PieceType::Rook) };
            let m3 = Move { from: from.duplicate(), to: Coordinate::from_vals(to_vals.duplicate()), promotion: Some(PieceType::Bishop) };
            let m4 = Move { from: from.duplicate(), to: Coordinate::from_vals(to_vals), promotion: Some(PieceType::Knight) };
            let ghost s0 = moves@;
            moves.push_move(m1);
            moves.push_move(m2);
            moves.push_move(m3);
            moves.push_move(m4);
            proof {
                assert(views(moves@) =~= views(s0) + pawn_to(*self, origin_idx as int, to_idx as int, player));
            }
        } else {
            let mv = Move { from: from.duplicate(), to: Coordinate::from_vals(to_vals), promotion: None };
            proof {
                lemma_views_push(moves@, mv);
            }
            moves.push_move(mv);
        }
    }

    /// The pawn captures from `origin_idx` forward along axis `a` (whose stride is
    /// `cur_stride`), sideways along every other axis.
    fn pawn_capture_moves(
        &self,
        origin: &Coordinate,
        origin_idx: usize,
        player: Player,
        a: usize,
        cur_stride: usize,
        moves: &mut MoveList,
    )
        requires
            self.wf(),
            origin_idx < self.total(),
            origin@ == cell_vals(*self, origin_idx as int),
            a < self.geo.dimension,
            cur_stride == cell_count(self.geo.side as nat, a as nat),
        ensures
            views(final(moves)@) == views(old(moves)@) + pawn_captures(
                *self,
                origin_idx as int,
                player,
                a as nat,
                self.geo.dimension as nat,
            ),
    {
        let dim = self.geo.dimension;
        let side = self.geo.side;
        let total = self.geo.total_cells;
        let fs: isize = match player {
            Player::White => 1,
            Player::Black => -1,
        };
        proof {
            lemma_cell_count_monotone(side as nat, a as nat, dim as nat);
        }
        let mut cap_axis_stride: usize = 1;
        let mut c: usize = 0;
        while c < dim
            invariant
                self.wf(),
                dim == self.geo.dimension,
                side == self.geo.side,
                total == self.total(),
                origin_idx < total,
                origin@ == cell_vals(*self, origin_idx as int),
                a < dim,
                cur_stride == cell_count(side as nat, a as nat),
                cur_stride <= total,
                fs == forward_sign(player),
                c <= dim,
                cap_axis_stride == cell_count(side as nat, c as nat),
                views(moves@) == views(old(moves)@) + pawn_captures(
                    *self,
                    origin_idx as int,
                    player,
                    a as nat,
                    c as nat,
                ),
            decreases dim - c,
        {
            let cap_stride = cap_axis_stride;
            proof {
                lemma_cell_count_monotone(side as nat, c as nat, dim as nat);
                lemma_cell_count_monotone(side as nat, (c + 1) as nat, dim as nat);
                assert(cell_count(side as nat, (c + 1) as nat) == side * cap_axis_stride);
            }
            assert(cap_axis_stride * side == side * cap_axis_stride) by (nonlinear_arith);
            cap_axis_stride = cap_axis_stride * side;
            if c != a {
                let cap_coord = origin.values.get(c);
                let mut si: usize = 0;
                while si < 2
                    invariant
                        self.wf(),
                        dim == self.geo.dimension,
                        side == self.geo.side,
                        total == self.total(),
                        origin_idx < total,
                        origin@ == cell_vals(*self, origin_idx as int),
                        a < dim,
                        c < dim,
                        c != a,
                        cap_coord == cell_vals(*self, origin_idx as int)[c as int],
                        cur_stride == cell_count(side as nat, a as nat),
                        cur_stride <= total,
                        cap_stride == cell_count(side as nat, c as nat),
                        cap_stride <= total,
                        fs == forward_sign(player),
                        si <= 2,
                        views(moves@) == views(old(moves)@) + pawn_captures(
                            *self,
                            origin_idx as int,
                            player,
                            a as nat,
                            c as nat,
                        ) + if si == 0 {
                            Seq::empty()
                        } else if si == 1 {
                            pawn_capture(*self, origin_idx as int, player, a as nat, c as nat, -1)
                        } else {
                            pawn_capture(*self, origin_idx as int, player, a as nat, c as nat, -1)
                                + pawn_capture(*self, origin_idx as int, player, a as nat, c as nat, 1)
                        },
                    decreases 2 - si,
                {
                    let s: isize = if si == 0 { -1 } else { 1 };
                    let ghost before = moves@;
                    let cap_target_coord = cap_coord as isize + s;
                    if !(cap_target_coord < 0 || cap_target_coord >= side as isize) {
                        let target = origin_idx as isize + fs * (cur_stride as isize) + s * (cap_stride as isize);
                        if !(target < 0 || target as usize >= total) {
                            let target_idx = target as usize;
                            let enemy = match player {
                                Player::White => self.pieces.black_occupancy.get_bit(target_idx),
                                Player::Black => self.pieces.white_occupancy.get_bit(target_idx),
                            };
                            if enemy {
                                self.add_pawn_move_idx(origin, origin_idx, target_idx, player, moves);
                            } else {
                                match self.state.en_passant_target {
                                    Some((ep_target, _)) => {
                                        if target_idx == ep_target {
                                            let mv = Move {
                                                from: origin.duplicate(),
                                                to: Coordinate::from_vals(self.index_to_coords(target_idx)),
                                                promotion: None,
                                            };
                                            proof {
                                                lemma_views_push(moves@, mv);
                                            }
                                            moves.push_move(mv);
                                        }
                                    },
                                    None => {},
                                }
                            }
                        }
                    }
                    proof {
                        assert(views(moves@) == views(before) + pawn_capture(*self, origin_idx as int, player, a as nat, c as nat, s as int));
                    }
                    si = si + 1;
                }
            }
            proof {
                assert(pawn_captures(*self, origin_idx as int, player, a as nat, (c + 1) as nat) == pawn_captures(*self, origin_idx as int, player, a as nat, c as nat) + if c == a {
                    Seq::<MoveView>::empty()
                } else {
                    pawn_capture(*self, origin_idx as int, player, a as nat, c as nat, -1) + pawn_capture(*self, origin_idx as int, player, a as nat, c as nat, 1)
                });
            }
            c = c + 1;
        }
    }

    /// The pawn moves forward along axis `a` (see `pawn_axis_moves`).
    #[verifier::spinoff_prover]
    #[verifier::rlimit(40)]
    fn pawn_axis(
        &self,
        origin: &Coordinate,
        origin_idx: usize,
        player: Player,
        a: usize,
        cur_stride: usize,
        all_occupancy: &BitBoardLarge,
        moves: &mut MoveList,
    )
        requires
            self.wf(),
            origin_idx < self.total(),
            origin@ == cell_vals(*self, origin_idx as int),
            forall|i: int| #[trigger] all_occupancy.spec_has(i) == occupied(*self, i),
            a < self.geo.dimension,
            cur_stride == cell_count(self.geo.side as nat, a as nat),
        ensures
            views(final(moves)@) == views(old(moves)@) + pawn_axis_moves(*self, origin_idx as int, player, a as nat),
    {
        let side = self.geo.side;
        let total = self.geo.total_cells;
        let fs: isize = match player {
            Player::White => 1,
            Player::Black => -1,
        };
        proof {
            lemma_cell_count_monotone(side as nat, a as nat, self.geo.dimension as nat);
        }
        assert(cur_stride <= total && total <= 64 * 65536);
        if a != 1 {
            let coord_val = origin.values.get(a);
            let forward_target_coord = coord_val as isize + fs;
            if !(forward_target_coord < 0 || forward_target_coord >= side as isize) {
                assert(origin_idx < total && cur_stride <= total && total <= 64 * 65536);
                assert(fs == 1 || fs == -1);
                let oi: isize = origin_idx as isize;
                let cs: isize = cur_stride as isize;
                assert(oi == origin_idx && cs == cur_stride);
                let fwd: isize = oi + fs * cs;
                if !(fwd < 0 || fwd as usize >= total || all_occupancy.get_bit(fwd as usize)) {
                    let forward_idx = fwd as usize;
                    self.add_pawn_move_idx(origin, origin_idx, forward_idx, player, moves);
                    let is_start_rank = match player {
                        Player::White => coord_val == 1,
                        Player::Black => coord_val as usize == side - 2,
                    };
                    if is_start_rank {
                        let dbl = origin_idx as isize + fs * 2 * (cur_stride as isize);
                        if dbl >= 0 && (dbl as usize) < total && !all_occupancy.get_bit(dbl as usize) {
                            self.add_pawn_move_idx(origin, origin_idx, dbl as usize, player, moves);
                        }
                    }
                }
                self.pawn_capture_moves(origin, origin_idx, player, a, cur_stride, moves);
            }
        }
    }

    /// The moves of the pawn on cell `origin_idx` (see `pawn_moves`), given the occupancy
    /// of both sides.
    fn generate_pawn_moves(
        &self,
        origin: &Coordinate,
        origin_idx: usize,
        player: Player,
        all_occupancy: &BitBoardLarge,
        moves: &mut MoveList,
    )
        requires
            self.wf(),
            origin_idx < self.total(),
            origin@ == cell_vals(*self, origin_idx as int),
            forall|i: int| #[trigger] all_occupancy.spec_has(i) == occupied(*self, i),
        ensures
            views(final(moves)@) == views(old(moves)@) + pawn_moves(
                *self,
                origin_idx as int,
                player,
                self.geo.dimension as nat,
            ),
    {
        let dim = self.geo.dimension;
        let side = self.geo.side;
        let total = self.geo.total_cells;
        let fs: isize = match player {
            Player::White => 1,
            Player::Black => -1,
        };
        let mut axis_stride: usize = 1;
        let mut a: usize = 0;
        while a < dim
            invariant
                self.wf(),
                dim == self.geo.dimension,
                side == self.geo.side,
                total == self.total(),
                origin_idx < total,
                origin@ == cell_vals(*self, origin_idx as int),
                forall|i: int| #[trigger] all_occupancy.spec_has(i) == occupied(*self, i),
                fs == forward_sign(player),
                a <= dim,
                axis_stride == cell_count(side as nat, a as nat),
                views(moves@) == views(old(moves)@) + pawn_moves(*self, origin_idx as int, player, a as nat),
            decreases dim - a,
        {
            let cur_stride = axis_stride;
            proof {
                lemma_cell_count_monotone(side as nat, a as nat, dim as nat);
                lemma_cell_count_monotone(side as nat, (a + 1) as nat, dim as nat);
                assert(cell_count(side as nat, (a + 1) as nat) == side * axis_stride);
            }
            assert(axis_stride * side == side * axis_stride) by (nonlinear_arith);
            axis_stride = axis_stride * side;
            self.pawn_axis(origin, origin_idx, player, a, cur_stride, all_occupancy, moves);
            a = a + 1;
        }
    }

    /// The coordinate `rank_coords(dim, rank, file, rank)` and its cell.
    fn rank_square(&self, rank: u8, file: u8) -> (r: (Coordinate, usize))
        requires
            self.wf(),
            self.geo.side == 8,
            rank < 8,
            file < 8,
        ensures
            r.0@ == rank_coords(self.geo.dimension as nat, rank as int, file as int, rank as int),
            r.1 == rank_cell(*self, rank as int, file as int),
            r.1 < self.total(),
            self.spec_index(r.0@) == Some(r.1),
    {
        let mut c = CoordVals::filled(rank, self.geo.dimension);
        c.set(1, file);
        proof {
            assert(c@ =~= rank_coords(self.geo.dimension as nat, rank as int, file as int, rank as int));
            assert(in_bounds(c@, 8));
            lemma_index_of_bound(c@, 8);
            lemma_cell_count_monotone(8, c@.len(), self.geo.dimension as nat);
        }
        let idx = match self.coords_to_index(c.as_slice()) {
            Some(i) => i,
            None => 0,
        };
        (Coordinate::from_vals(c), idx)
    }

    /// The castling moves of `player` (see `castling_moves`), appended to `moves`.
    pub(crate) fn generate_castling_moves(&self, player: Player, moves: &mut MoveList)
        requires
            self.wf(),
        ensures
            views(final(moves)@) == views(old(moves)@) + castling_moves(*self, player),
    {
        if self.geo.side != 8 {
            return;
        }
        let (rights_mask, rank, ks_mask, qs_mask): (u8, u8, u8, u8) = match player {
            Player::White => (3, 0, 1, 2),
            Player::Black => (12, 7, 4, 8),
        };
        let opp = player.opponent();
        let my_rights = self.state.castling_rights & rights_mask;
        if my_rights == 0 {
            return;
        }
        let (king_coord, king_idx) = self.rank_square(rank, 4);
        if self.is_square_attacked_idx(king_idx, opp) {
            return;
        }
        let ghost s0 = moves@;
        if (my_rights & ks_mask) != 0 {
            let (f_coord, f_idx) = self.rank_square(rank, 5);
            let (g_coord, g_idx) = self.rank_square(rank, 6);
            let f_free = !self.pieces.white_occupancy.get_bit(f_idx) && !self.pieces.black_occupancy.get_bit(f_idx);
            let g_free = !self.pieces.white_occupancy.get_bit(g_idx) && !self.pieces.black_occupancy.get_bit(g_idx);
            if f_free && g_free && !self.is_square_attacked_idx(f_idx, opp)
                && !self.is_square_attacked_idx(g_idx, opp) {
                let mv = Move { from: king_coord.duplicate(), to: g_coord, promotion: None };
                proof {
                    lemma_views_push(moves@, mv);
                }
                moves.push_move(mv);
            }
        }
        let ghost s1 = moves@;
        if (my_rights & qs_mask) != 0 {
            let (b_coord, b_idx) = self.rank_square(rank, 1);
            let (c_coord, c_idx) = self.rank_square(rank, 2);
            let (d_coord, d_idx) = self.rank_square(rank, 3);
            let b_free = !self.pieces.white_occupancy.get_bit(b_idx) && !self.pieces.black_occupancy.get_bit(b_idx);
            let c_free = !self.pieces.white_occupancy.get_bit(c_idx) && !self.pieces.black_occupancy.get_bit(c_idx);
            let d_free = !self.pieces.white_occupancy.get_bit(d_idx) && !self.pieces.black_occupancy.get_bit(d_idx);
            if b_free && c_free && d_free && !self.is_square_attacked_idx(d_idx, opp)
                && !self.is_square_attacked_idx(c_idx, opp) {
                let mv = Move { from: king_coord, to: c_coord, promotion: None };
                proof {
                    lemma_views_push(moves@, mv);
                }
                moves.push_move(mv);
            }
        }
        proof {
            assert(views(moves@) =~= views(old(moves)@) + castling_moves(*self, player));
        }
    }

    /// Whether `player`'s king (the lowest cell holding one) is attacked.
    pub fn in_check(&self, player: Player) -> (r: bool)
        requires
            self.wf(),
            self.geo.side >= 2,
        ensures
            r == king_in_check(*self, player),
    {
        let ghost b = *self;
        match self.get_king_coordinate(player) {
            Some(king_pos) => {
                proof {
                    let k = choose|k: int|
                        0 <= k < b.total() && #[trigger] b.pieces.kings.has(k) && b.owned_by(k, player)
                            && king_pos@ == coords_of(k as nat, b.geo.dimension as nat, b.geo.side as nat)
                            && forall|j: int| 0 <= j < k ==> !(#[trigger] b.pieces.kings.has(j) && b.owned_by(j, player));
                    lemma_coords_index_inverse(b.geo.dimension as nat, b.geo.side as nat, k as nat, king_pos@);
                    assert(lowest_king(b, player, k));
                    assert forall|k2: int| #[trigger] lowest_king(b, player, k2) implies k2 == k by {
                        if k2 < k {
                            assert(!(b.pieces.kings.has(k2) && b.owned_by(k2, player)));
                        } else if k < k2 {
                            assert(!(b.pieces.kings.has(k) && owned(b, k, player)));
                        }
                    }
                }
                self.is_square_attacked(&king_pos, player.opponent())
            },
            None => false,
        }
    }

    /// Whether making `mv` leaves `player`'s king attacked; the move is taken back
    /// afterwards. A move that cannot be made counts as leaving the king in check.
    pub fn leaves_king_in_check(&mut self, player: Player, mv: &Move) -> (r: bool)
        requires
            old(self).wf(),
            old(self).geo.side >= 2,
            mv.from@.len() == old(self).geo.dimension,
            mv.to@.len() == old(self).geo.dimension,
            move_ok(*old(self), *mv) ==> undoable(*old(self), *mv),
        ensures
            final(self).wf(),
            !move_ok(*old(self), *mv) ==> r && *final(self) == *old(self),
            move_ok(*old(self), *mv) ==> {
                &&& r == check_after(*old(self), *mv, player)
                &&& forall|j: int| #[trigger] final(self).piece_at(j) == old(self).piece_at(j)
                &&& clean(*old(self)) ==> forall|j: int| #[trigger] final(self).pieces.bits(j)
                    == old(self).pieces.bits(j)
                &&& final(self).state.hash == old(self).state.hash
                &&& final(self).state.history@ == old(self).state.history@
                &&& final(self).state.en_passant_target == old(self).state.en_passant_target
                &&& final(self).state.castling_rights == old(self).state.castling_rights
            },
            final(self).geo == old(self).geo,
            final(self).zobrist == old(self).zobrist,
            final(self).state.halfmove_clock == old(self).state.halfmove_clock,
            final(self).state.fullmove_number == old(self).state.fullmove_number,
            final(self).state.start_phase == old(self).state.start_phase,
    {
        let ghost b0 = *self;
        let info = match self.apply_move(mv) {
            Ok(i) => i,
            Err(_) => {
                return true;
            },
        };
        let ghost mid = *self;
        let in_check = match self.get_king_coordinate(player) {
            Some(king_pos) => {
                proof {
                    let k = choose|k: int|
                        0 <= k < mid.total() && #[trigger] mid.pieces.kings.has(k) && mid.owned_by(k, player)
                            && king_pos@ == coords_of(k as nat, mid.geo.dimension as nat, mid.geo.side as nat)
                            && forall|j: int| 0 <= j < k ==> !(#[trigger] mid.pieces.kings.has(j) && mid.owned_by(j, player));
                    lemma_coords_index_inverse(mid.geo.dimension as nat, mid.geo.side as nat, k as nat, king_pos@);
                    assert(lowest_king(mid, player, k));
                    assert forall|k2: int| #[trigger] lowest_king(mid, player, k2) implies k2 == k by {
                        if k2 < k {
                            assert(!(mid.pieces.kings.has(k2) && mid.owned_by(k2, player)));
                        } else if k < k2 {
                            assert(!(mid.pieces.kings.has(k) && owned(mid, k, player)));
                        }
                    }
                }
                self.is_square_attacked(&king_pos, player.opponent())
            },
            None => false,
        };
        proof {
            assert(in_check == king_in_check(mid, player));
            lemma_mid_facts(b0, *mv, mid);
        }
        self.unmake_move(mv, info);
        proof {
            lemma_unmake_undoes_apply(b0, *mv, mid, *self);
            if clean(b0) {
                lemma_unmake_restores_bits(b0, *mv, mid, *self);
            }
            assert forall|m: Board| #[trigger] applied(b0, *mv, m) implies king_in_check(m, player) == in_check by {
                lemma_check_congruent(m, mid, player);
            }
        }
        in_check
    }

    /// The slider moves from `origin_idx` along each of `directions` (see `slider_moves`),
    /// using the given scratch bitboards; `empty` holds the empty cells of the board.
    fn generate_slider_moves_bitwise(
        &self,
        origin_idx: usize,
        origin_coord: &Coordinate,
        player: Player,
        directions: &Vec<DirectionInfo>,
        moves: &mut MoveList,
        generator: &mut BitBoardLarge,
        g: &mut BitBoardLarge,
        p: &mut BitBoardLarge,
        shifted_g: &mut BitBoardLarge,
        shifted_p: &mut BitBoardLarge,
        empty: &BitBoardLarge,
    )
        requires
            self.wf(),
            self.geo.side >= 2,
            origin_idx < self.total(),
            origin_coord@ == cell_vals(*self, origin_idx as int),
            forall|t: int| 0 <= t < directions.len() ==> dir_masks_ok(*self, #[trigger] directions@[t]),
            empty.inv(),
            self.total() <= empty.words().len() * 64 < self.total() + 64,
            forall|i: int| #[trigger] empty.spec_has(i) == (0 <= i < self.total() && !occupied(*self, i)),
            old(generator).inv(),
            old(g).inv(),
            old(p).inv(),
            old(shifted_g).inv(),
            old(shifted_p).inv(),
            self.total() <= old(shifted_g).words().len() * 64 < self.total() + 64,
            self.total() <= old(shifted_p).words().len() * 64 < self.total() + 64,
        ensures
            views(final(moves)@) == views(old(moves)@) + slider_moves(*self, origin_idx as int, directions@, player),
            final(generator).inv(),
            final(g).inv(),
            final(p).inv(),
            final(shifted_g).inv(),
            final(shifted_p).inv(),
            final(shifted_g).words().len() == old(shifted_g).words().len(),
            final(shifted_p).words().len() == old(shifted_p).words().len(),
    {
        let ghost o = origin_idx as int;
        let ghost b = *self;
        generator.ensure_capacity_and_clear(empty);
        generator.set_bit(origin_idx);
        let n = directions.len();
        let mut t: usize = 0;
        proof {
            assert(directions@.take(0) =~= Seq::<DirectionInfo>::empty());
        }
        while t < n
            invariant
                b == *self,
                self.wf(),
                self.geo.side >= 2,
                o == origin_idx,
                origin_idx < self.total(),
                origin_coord@ == cell_vals(*self, origin_idx as int),
                n == directions.len(),
                t <= n,
                forall|u: int| 0 <= u < directions.len() ==> dir_masks_ok(*self, #[trigger] directions@[u]),
                empty.inv(),
                self.total() <= empty.words().len() * 64 < self.total() + 64,
                forall|i: int| #[trigger] empty.spec_has(i) == (0 <= i < self.total() && !occupied(*self, i)),
                generator.inv(),
                generator.words().len() == empty.words().len(),
                forall|i: int| #[trigger] generator.spec_has(i) == (i == origin_idx),
                g.inv(),
                p.inv(),
                shifted_g.inv(),
                shifted_p.inv(),
                shifted_g.words().len() == old(shifted_g).words().len(),
                shifted_p.words().len() == old(shifted_p).words().len(),
                self.total() <= shifted_g.words().len() * 64 < self.total() + 64,
                self.total() <= shifted_p.words().len() * 64 < self.total() + 64,
                views(moves@) == views(old(moves)@) + slider_moves(*self, o, directions@.take(t as int), player),
            decreases n - t,
        {
            let dir_info = &directions[t];
            proof {
                assert(directions@.take(t + 1).drop_last() =~= directions@.take(t as int));
                assert(directions@.take(t + 1).last() == directions@[t as int]);
            }
            if dir_info.stride != 0 {
                g.copy_from(generator);
                p.copy_from(empty);
                proof {
                    assert forall|x: int| #[trigger] g.spec_has(x) == generator.spec_has(x) by {}
                    assert forall|x: int| #[trigger] p.spec_has(x) == empty.spec_has(x) by {}
                }
                let ghost g0 = *g;
                let ghost p0 = *p;
                let ghost dir = dir_info.offsets@;
                kogge_stone_fill_inplace(g, p, dir_info.stride, self, dir_info, shifted_g, shifted_p);
                proof {
                    assert forall|i: int| #[trigger] g.spec_has(i) == reach(b, o, dir, i) by {
                        if ks_final(b, g0, p0, dir, i) {
                            let (x, k) = choose|x: int, k: int|
                                #![trigger g0.spec_has(x), ray_cell(b, x, dir, k)]
                                g0.spec_has(x) && 1 <= k && i == ray_cell(b, x, dir, k) && on_ray(b, x, dir, k) && forall|m: int|
                                    1 <= m < k ==> p0.spec_has(#[trigger] ray_cell(b, x, dir, m));
                            assert(x == o);
                            assert forall|m: int| 1 <= m < k implies !occupied(b, #[trigger] ray_cell(b, o, dir, m)) by {
                                assert(p0.spec_has(ray_cell(b, x, dir, m)));
                            }
                            assert(reach(b, o, dir, i));
                        }
                        if reach(b, o, dir, i) {
                            let k = choose|k: int|
                                #![trigger ray_cell(b, o, dir, k)]
                                1 <= k && i == ray_cell(b, o, dir, k) && on_ray(b, o, dir, k) && forall|m: int|
                                    1 <= m < k ==> !occupied(b, #[trigger] ray_cell(b, o, dir, m));
                            assert forall|m: int| 1 <= m < k implies p0.spec_has(#[trigger] ray_cell(b, o, dir, m)) by {
                                lemma_on_ray_prefix(b, o, dir, m, k);
                                lemma_ray_compose(b, o, dir, m, 0);
                            }
                            assert(g0.spec_has(o));
                            assert(ks_final(b, g0, p0, dir, i));
                        }
                    }
                }
                let cells = g.iter_indices();
                proof {
                    let nn = (g.words().len() * 64) as nat;
                    assert forall|i: int| 0 <= i < nn && #[trigger] reach_pred(b, o, dir)(i) implies cells@.contains(i as usize) by {
                        assert(g.spec_has(i));
                    }
                    assert forall|j: int| 0 <= j < cells@.len() implies (#[trigger] cells@[j] as int) < nn && reach_pred(b, o, dir)(cells@[j] as int) by {
                        assert(g.spec_has(cells@[j] as int));
                    }
                    lemma_sorted_cells(cells@, reach_pred(b, o, dir), nn);
                    assert forall|i: int| b.total() <= i < nn implies !#[trigger] reach_pred(b, o, dir)(i) by {
                        if reach(b, o, dir, i) {
                            let k = choose|k: int|
                                #![trigger ray_cell(b, o, dir, k)]
                                1 <= k && i == ray_cell(b, o, dir, k) && on_ray(b, o, dir, k) && forall|m: int|
                                    1 <= m < k ==> !occupied(b, #[trigger] ray_cell(b, o, dir, m));
                            lemma_ray_compose(b, o, dir, k, 0);
                        }
                    }
                    lemma_sorted_cells_stop(reach_pred(b, o, dir), b.total(), nn);
                }
                let m = cells.len();
                let mut j: usize = 0;
                let ghost base = moves@;
                proof {
                    assert(cells@.take(0) =~= Seq::<usize>::empty());
                }
                while j < m
                    invariant
                        b == *self,
                        self.wf(),
                        o == origin_idx,
                        origin_idx < self.total(),
                        origin_coord@ == cell_vals(*self, origin_idx as int),
                        m == cells.len(),
                        j <= m,
                        forall|q: int| 0 <= q < m ==> (#[trigger] cells@[q] as int) < self.total(),
                        views(moves@) == views(base) + slider_list_moves(*self, o, cells@.take(j as int), player),
                    decreases m - j,
                {
                    let to_idx = cells[j];
                    proof {
                        lemma_take_last(cells@, j as int);
                    }
                    if to_idx != origin_idx {
                        let own = match player {
                            Player::White => self.pieces.white_occupancy.get_bit(to_idx),
                            Player::Black => self.pieces.black_occupancy.get_bit(to_idx),
                        };
                        if !own {
                            let mv = Move {
                                from: origin_coord.duplicate(),
                                to: Coordinate::from_vals(self.index_to_coords(to_idx)),
                                promotion: None,
                            };
                            proof {
                                lemma_views_push(moves@, mv);
                            }
                            moves.push_move(mv);
                        }
                    }
                    j = j + 1;
                }
                proof {
                    assert(cells@.take(m as int) =~= cells@);
                }
            }
            t = t + 1;
        }
        proof {
            assert(directions@.take(n as int) =~= directions@);
        }
    }

    /// The moves of the piece on cell `i` (see `piece_moves`), with the scratch bitboards.
    fn generate_piece_moves(
        &self,
        i: usize,
        player: Player,
        all_occupancy: &BitBoardLarge,
        empty: &BitBoardLarge,
        moves: &mut MoveList,
        generator: &mut BitBoardLarge,
        g: &mut BitBoardLarge,
        p: &mut BitBoardLarge,
        shifted_g: &mut BitBoardLarge,
        shifted_p: &mut BitBoardLarge,
    )
        requires
            self.wf(),
            self.geo.side >= 2,
            i < self.total(),
            forall|x: int| #[trigger] all_occupancy.spec_has(x) == occupied(*self, x),
            empty.inv(),
            self.total() <= empty.words().len() * 64 < self.total() + 64,
            forall|x: int| #[trigger] empty.spec_has(x) == (0 <= x < self.total() && !occupied(*self, x)),
            old(generator).inv(),
            old(g).inv(),
            old(p).inv(),
            old(shifted_g).inv(),
            old(shifted_p).inv(),
            self.total() <= old(shifted_g).words().len() * 64 < self.total() + 64,
            self.total() <= old(shifted_p).words().len() * 64 < self.total() + 64,
        ensures
            views(final(moves)@) == views(old(moves)@) + piece_moves(*self, i as int, player),
            final(generator).inv(),
            final(g).inv(),
            final(p).inv(),
            final(shifted_g).inv(),
            final(shifted_p).inv(),
            final(shifted_g).words().len() == old(shifted_g).words().len(),
            final(shifted_p).words().len() == old(shifted_p).words().len(),
    {
        let coord = Coordinate::from_vals(self.index_to_coords(i));
        proof {
            lemma_cache_dir_masks(*self);
            let c = coords_of(i as nat, self.geo.dimension as nat, self.geo.side as nat);
            crate::representation::lemma_cell_count_monotone(self.geo.side as nat, c.len(), self.geo.dimension as nat);
            lemma_leaper_targets_bound(c, crate::calculators::view_dirs(self.geo.cache.knight_offsets@), self.geo.side as nat);
            lemma_leaper_targets_bound(c, crate::calculators::view_dirs(self.geo.cache.king_offsets@), self.geo.side as nat);
        }
        if self.pieces.pawns.get_bit(i) {
            self.generate_pawn_moves(&coord, i, player, all_occupancy, moves);
        } else if self.pieces.knights.get_bit(i) {
            self.generate_leaper_moves(i, &coord, player, self.geo.cache.knight_targets[i].as_slice(), moves);
        } else if self.pieces.bishops.get_bit(i) {
            self.generate_slider_moves_bitwise(i, &coord, player, &self.geo.cache.bishop_directions, moves, generator, g, p, shifted_g, shifted_p, empty);
        } else if self.pieces.rooks.get_bit(i) {
            self.generate_slider_moves_bitwise(i, &coord, player, &self.geo.cache.rook_directions, moves, generator, g, p, shifted_g, shifted_p, empty);
        } else if self.pieces.queens.get_bit(i) {
            self.generate_slider_moves_bitwise(i, &coord, player, &self.geo.cache.rook_directions, moves, generator, g, p, shifted_g, shifted_p, empty);
            self.generate_slider_moves_bitwise(i, &coord, player, &self.geo.cache.bishop_directions, moves, generator, g, p, shifted_g, shifted_p, empty);
        } else if self.pieces.kings.get_bit(i) {
            self.generate_leaper_moves(i, &coord, player, self.geo.cache.king_targets[i].as_slice(), moves);
        }
    }

    /// The pseudo-legal moves of `player` (see `pseudo_legal`): the moves of each of its
    /// pieces, whether or not they leave the king attacked.
    pub fn generate_pseudo_legal_moves(&self, player: Player) -> (r: MoveList)
        requires
            self.wf(),
            self.geo.side >= 2,
        ensures
            views(r@) == pseudo_legal(*self, player),
    {
        let mut moves = MoveList::empty();
        let template = &self.pieces.white_occupancy;
        let mut generator = template.zero_like();
        let mut g = template.zero_like();
        let mut p = template.zero_like();
        let mut shifted_g = template.zero_like();
        let mut shifted_p = template.zero_like();
        let mut all_occupancy = template.zero_like();
        assert(forall|k: int| 0 <= k < all_occupancy.words().len() ==> #[trigger] all_occupancy.words()[k] == 0);
        self.pieces.white_occupancy.or_into(&self.pieces.black_occupancy, &mut all_occupancy);
        let ghost all0 = all_occupancy;
        assert(forall|x: int| #[trigger] all_occupancy.spec_has(x) == occupied(*self, x));
        let mut empty = all_occupancy.duplicate();
        assert(empty.words().len() == self.pieces.white_occupancy.words().len());
        assert(empty.words().len() * 64 >= self.total());
        assert(forall|x: int| #[trigger] empty.spec_has(x) == all_occupancy.spec_has(x));
        empty.invert_masked(self.geo.total_cells);
        assert(forall|x: int| #[trigger] empty.spec_has(x) == (0 <= x < self.total() && !occupied(*self, x)));
        let ghost empty0 = empty;
        empty.recompute_range();
        assert(forall|x: int| #[trigger] empty.spec_has(x) == empty0.spec_has(x));
        all_occupancy.recompute_range();
        assert(forall|x: int| #[trigger] empty.spec_has(x) == (0 <= x < self.total() && !occupied(*self, x)));
        assert(forall|x: int| #[trigger] all_occupancy.spec_has(x) == all0.spec_has(x));
        let ghost b = *self;
        let cells = match player {
            Player::White => self.pieces.white_occupancy.iter_indices(),
            Player::Black => self.pieces.black_occupancy.iter_indices(),
        };
        proof {
            let nn = self.pieces.cells();
            assert forall|x: int| 0 <= x < nn && #[trigger] owned_pred(b, player)(x) implies cells@.contains(x as usize) by {
                assert(owned(b, x, player));
            }
            assert forall|j: int| 0 <= j < cells@.len() implies (#[trigger] cells@[j] as int) < nn && owned_pred(b, player)(cells@[j] as int) by {
                assert(owned(b, cells@[j] as int, player));
            }
            lemma_sorted_cells(cells@, owned_pred(b, player), nn);
            assert forall|x: int| b.total() <= x < nn implies !#[trigger] owned_pred(b, player)(x) by {
                assert(b.pieces.bits(x) == crate::pieces::empty_bits());
            }
            lemma_sorted_cells_stop(owned_pred(b, player), b.total(), nn);
            assert(cells@.take(0) =~= Seq::<usize>::empty());
        }
        let n = cells.len();
        let mut j: usize = 0;
        while j < n
            invariant
                b == *self,
                self.wf(),
                self.geo.side >= 2,
                n == cells.len(),
                j <= n,
                forall|q: int| 0 <= q < n ==> (#[trigger] cells@[q] as int) < self.total(),
                forall|x: int| #[trigger] all_occupancy.spec_has(x) == occupied(*self, x),
                empty.inv(),
                self.total() <= empty.words().len() * 64 < self.total() + 64,
                forall|x: int| #[trigger] empty.spec_has(x) == (0 <= x < self.total() && !occupied(*self, x)),
                generator.inv(),
                g.inv(),
                p.inv(),
                shifted_g.inv(),
                shifted_p.inv(),
                self.total() <= shifted_g.words().len() * 64 < self.total() + 64,
                self.total() <= shifted_p.words().len() * 64 < self.total() + 64,
                views(moves@) == moves_from(*self, cells@.take(j as int), player),
            decreases n - j,
        {
            let i = cells[j];
            proof {
                lemma_take_last(cells@, j as int);
            }
            self.generate_piece_moves(i, player, &all_occupancy, &empty, &mut moves, &mut generator, &mut g, &mut p, &mut shifted_g, &mut shifted_p);
            j = j + 1;
        }
        proof {
            assert(cells@.take(n as int) =~= cells@);
        }
        moves
    }
}

/// The moves of a piece of kind `kind` of `player` on cell `i`, whatever piece stands
/// there: a knight leaps, a rook, bishop or queen slides, a pawn or king has none.
pub open spec fn kind_moves(b: Board, i: int, player: Player, kind: PieceType) -> Seq<MoveView> {
    let cache = b.geo.cache;
    match kind {
        PieceType::Knight => leaper_moves(b, i, cache.knight_targets@[i]@, player),
        PieceType::Rook => slider_moves(b, i, cache.rook_directions@, player),
        PieceType::Bishop => slider_moves(b, i, cache.bishop_directions@, player),
        PieceType::Queen => slider_moves(b, i, cache.rook_directions@, player) + slider_moves(
            b,
            i,
            cache.bishop_directions@,
            player,
        ),
        _ => Seq::empty(),
    }
}

impl Board {
    /// The moves of a piece of kind `kind` of `player` on cell `i` (see `kind_moves`).
    pub fn moves_of_kind(&self, i: usize, player: Player, kind: PieceType) -> (r: MoveList)
        requires
            self.wf(),
            self.geo.side >= 2,
            i < self.total(),
        ensures
            views(r@) == kind_moves(*self, i as int, player, kind),
    {
        let mut moves = MoveList::empty();
        let template = &self.pieces.white_occupancy;
        let mut generator = template.zero_like();
        let mut g = template.zero_like();
        let mut p = template.zero_like();
        let mut shifted_g = template.zero_like();
        let mut shifted_p = template.zero_like();
        let mut all_occupancy = template.zero_like();
        assert(forall|k: int| 0 <= k < all_occupancy.words().len() ==> #[trigger] all_occupancy.words()[k] == 0);
        self.pieces.white_occupancy.or_into(&self.pieces.black_occupancy, &mut all_occupancy);
        assert(forall|x: int| #[trigger] all_occupancy.spec_has(x) == occupied(*self, x));
        let mut empty = all_occupancy.duplicate();
        assert(empty.words().len() == self.pieces.white_occupancy.words().len());
        assert(empty.words().len() * 64 >= self.total());
        assert(forall|x: int| #[trigger] empty.spec_has(x) == all_occupancy.spec_has(x));
        empty.invert_masked(self.geo.total_cells);
        assert(forall|x: int| #[trigger] empty.spec_has(x) == (0 <= x < self.total() && !occupied(*self, x)));
        let ghost empty0 = empty;
        empty.recompute_range();
        assert(forall|x: int| #[trigger] empty.spec_has(x) == empty0.spec_has(x));
        let coord = Coordinate::from_vals(self.index_to_coords(i));
        proof {
            lemma_cache_dir_masks(*self);
            let c = coords_of(i as nat, self.geo.dimension as nat, self.geo.side as nat);
            crate::representation::lemma_cell_count_monotone(self.geo.side as nat, c.len(), self.geo.dimension as nat);
            lemma_leaper_targets_bound(c, crate::calculators::view_dirs(self.geo.cache.knight_offsets@), self.geo.side as nat);
            assert(views(moves@) =~= Seq::<MoveView>::empty());
        }
        match kind {
            PieceType::Knight => {
                self.generate_leaper_moves(i, &coord, player, self.geo.cache.knight_targets[i].as_slice(), &mut moves);
            },
            PieceType::Rook => {
                self.generate_slider_moves_bitwise(i, &coord, player, &self.geo.cache.rook_directions, &mut moves, &mut generator, &mut g, &mut p, &mut shifted_g, &mut shifted_p, &empty);
            },
            PieceType::Bishop => {
                self.generate_slider_moves_bitwise(i, &coord, player, &self.geo.cache.bishop_directions, &mut moves, &mut generator, &mut g, &mut p, &mut shifted_g, &mut shifted_p, &empty);
            },
            PieceType::Queen => {
                self.generate_slider_moves_bitwise(i, &coord, player, &self.geo.cache.rook_directions, &mut moves, &mut generator, &mut g, &mut p, &mut shifted_g, &mut shifted_p, &empty);
                self.generate_slider_moves_bitwise(i, &coord, player, &self.geo.cache.bishop_directions, &mut moves, &mut generator, &mut g, &mut p, &mut shifted_g, &mut shifted_p, &empty);
            },
            _ => {},
        }
        moves
    }
}

} // verus!
