//! Mobility: how many moves a piece has from its cell.
use vstd::prelude::*;
use crate::board::Board;
use crate::geometry::{leaper_targets, DirectionInfo};
use crate::models::{PieceType, Player};
use crate::movegen::{MoveView, kind_moves, leaper_moves, slider_list_moves, slider_moves, reach_pred};
use crate::sliders::sorted_cells;

verus! {

/// The board is small enough for every mobility count to fit in an `i32`.
pub open spec fn mobility_fits(b: Board) -> bool {
    b.geo.cache.knight_offsets.len() + b.total() * (b.geo.cache.rook_directions.len()
        + b.geo.cache.bishop_directions.len()) <= i32::MAX
}

/// The side whose mobility is counted: the one given, else the owner of the piece on the
/// cell, else White.
pub open spec fn mobility_side(b: Board, index: int, known: Option<Player>) -> Player {
    match known {
        Some(p) => p,
        None => match b.piece_at(index) {
            Some(q) => q.owner,
            None => Player::White,
        },
    }
}

proof fn lemma_leaper_moves_len(b: Board, o: int, targets: Seq<usize>, player: Player)
    ensures
        leaper_moves(b, o, targets, player).len() <= targets.len(),
    decreases targets.len(),
{
    if targets.len() > 0 {
        lemma_leaper_moves_len(b, o, targets.drop_last(), player);
    }
}

pub(crate) proof fn lemma_leaper_targets_len(vals: Seq<u8>, offs: Seq<Seq<isize>>, side: int)
    ensures
        leaper_targets(vals, offs, side).len() <= offs.len(),
    decreases offs.len(),
{
    if offs.len() > 0 {
        lemma_leaper_targets_len(vals, offs.drop_last(), side);
    }
}

pub(crate) proof fn lemma_sorted_cells_len(pred: spec_fn(int) -> bool, n: nat)
    ensures
        sorted_cells(pred, n).len() <= n,
    decreases n,
{
    if n > 0 {
        lemma_sorted_cells_len(pred, (n - 1) as nat);
    }
}

proof fn lemma_slider_list_len(b: Board, o: int, cells: Seq<usize>, player: Player)
    ensures
        slider_list_moves(b, o, cells, player).len() <= cells.len(),
    decreases cells.len(),
{
    if cells.len() > 0 {
        lemma_slider_list_len(b, o, cells.drop_last(), player);
    }
}

proof fn lemma_slider_moves_len(b: Board, o: int, dirs: Seq<DirectionInfo>, player: Player)
    ensures
        slider_moves(b, o, dirs, player).len() <= dirs.len() * b.total(),
    decreases dirs.len(),
{
    if dirs.len() > 0 {
        let d = dirs.last();
        lemma_slider_moves_len(b, o, dirs.drop_last(), player);
        let cells = sorted_cells(reach_pred(b, o, d.offsets@), b.total());
        lemma_sorted_cells_len(reach_pred(b, o, d.offsets@), b.total());
        lemma_slider_list_len(b, o, cells, player);
        assert(dirs.len() * b.total() == (dirs.len() - 1) * b.total() + b.total()) by (nonlinear_arith);
    }
}

/// Mobility counts stay within the bound of a board that `mobility_fits`.
pub proof fn lemma_kind_moves_len(b: Board, i: int, player: Player, kind: PieceType)
    requires
        b.wf(),
        0 <= i < b.total(),
    ensures
        kind_moves(b, i, player, kind).len() <= b.geo.cache.knight_offsets.len() + b.total() * (
        b.geo.cache.rook_directions.len() + b.geo.cache.bishop_directions.len()),
{
    let cache = b.geo.cache;
    let nk = cache.knight_offsets.len();
    let nr = cache.rook_directions.len();
    let nb = cache.bishop_directions.len();
    let t = b.total();
    lemma_leaper_moves_len(b, i, cache.knight_targets@[i]@, player);
    lemma_leaper_targets_len(
        crate::geometry::coords_of(i as nat, b.geo.dimension as nat, b.geo.side as nat),
        crate::calculators::view_dirs(cache.knight_offsets@),
        b.geo.side as int,
    );
    lemma_slider_moves_len(b, i, cache.rook_directions@, player);
    lemma_slider_moves_len(b, i, cache.bishop_directions@, player);
    assert(t * (nr + nb) == nr * t + nb * t) by (nonlinear_arith);
    assert(nr * t >= 0 && nb * t >= 0) by (nonlinear_arith);
}

/// The number of moves of a piece of kind `piece_type` on cell `index`, for the side
/// `known_player` or else the owner of the piece there (White on an empty cell): the knight
/// leaps and the slides of a bishop, rook or queen to cells not held by that side; a pawn or
/// king counts none.
pub fn count_piece_mobility_for(
    board: &Board,
    index: usize,
    piece_type: PieceType,
    known_player: Option<Player>,
) -> (r: i32)
    requires
        board.wf(),
        board.geo.side >= 2,
        index < board.total(),
        mobility_fits(*board),
    ensures
        r == kind_moves(*board, index as int, mobility_side(*board, index as int, known_player), piece_type).len(),
{
    let player = match known_player {
        Some(p) => p,
        None => match board.get_piece_at_index(index) {
            Some(p) => p.owner,
            None => Player::White,
        },
    };
    let moves = board.moves_of_kind(index, player, piece_type);
    let n = moves.len();
    proof {
        lemma_kind_moves_len(*board, index as int, player, piece_type);
        assert(crate::movegen::views(moves@).len() == moves@.len());
    }
    n as i32
}

/// The mobility of the piece kind on cell `index` for the owner of the piece there (see
/// `count_piece_mobility_for`).
pub fn count_piece_mobility(board: &Board, index: usize, piece_type: PieceType) -> (r: i32)
    requires
        board.wf(),
        board.geo.side >= 2,
        index < board.total(),
        mobility_fits(*board),
    ensures
        r == kind_moves(*board, index as int, mobility_side(*board, index as int, None), piece_type).len(),
{
    count_piece_mobility_for(board, index, piece_type, None)
}

} // verus!
