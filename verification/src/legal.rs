//! Legal moves: the pseudo-legal moves that do not leave the own king attacked, with the
//! castling moves.
use vstd::prelude::*;
use crate::board::{Board, lemma_coords_index_inverse};
use crate::calculators::{all_steps, is_king_step, pow3, ternary_dir, ternary_value, view_dirs};
use crate::geometry::{coords_of, in_bounds, index_of, leaper_targets, offset_index, lemma_coords_of_index, lemma_offset_index_bound};
use crate::make_move::{axis_dist, sq, move_ok, undoable, moving, clean, ep_capture, castle_geometry, applied, applied_info, unmade};
use crate::models::{Move, PieceType, Player};
use crate::movegen::{
    MoveView, mview, views, cell_vals, plain, leaper_moves, pawn_to, pawn_capture, pawn_captures,
    pawn_axis_moves, pawn_moves, slider_list_moves, slider_moves, gen_kind, piece_moves, moves_from,
    owned_pred, pseudo_legal, check_after, castling_moves,
};
use crate::inline::MoveList;
use crate::attacks::owned;
use crate::representation::BoardRepresentation;
use crate::pieces::{piece_bits, empty_bits};
use crate::representation::cell_count;
use crate::sliders::sorted_cells;

verus! {

/// The values `off` away from `vals`, axis by axis.
pub open spec fn shifted(vals: Seq<u8>, off: Seq<isize>) -> Seq<u8> {
    Seq::new(vals.len(), |d: int| (vals[d] + off[d]) as u8)
}

/// The cell an offset reaches is the cell of the shifted values, each of which stays on
/// the board.
proof fn lemma_offset_index_shifted(vals: Seq<u8>, off: Seq<isize>, side: nat)
    requires
        side <= 256,
    ensures
        offset_index(vals, off, side as int) matches Some(p) ==> {
            &&& p == index_of(shifted(vals, off), side)
            &&& forall|d: int| 0 <= d < vals.len() ==> 0 <= #[trigger] vals[d] + off[d] < side
        },
    decreases vals.len(),
{
    if vals.len() > 0 {
        let d = vals.len() - 1;
        let rest = vals.drop_last();
        lemma_offset_index_shifted(rest, off, side);
        let sv = shifted(vals, off);
        assert(sv.drop_last() =~= shifted(rest, off));
        match offset_index(vals, off, side as int) {
            Some(p) => {
                assert forall|k: int| 0 <= k < vals.len() implies 0 <= #[trigger] vals[k] + off[k] < side by {
                    if k < d {
                        assert(vals[k] == rest[k]);
                    }
                }
            },
            None => {},
        }
    }
}

/// The coordinates of the cell an offset reaches are the shifted values.
proof fn lemma_offset_coords(vals: Seq<u8>, off: Seq<isize>, side: nat, p: int, d: int)
    requires
        1 <= side <= 256,
        offset_index(vals, off, side as int) == Some(p),
        0 <= d < vals.len(),
    ensures
        coords_of(p as nat, vals.len(), side)[d] == vals[d] + off[d],
{
    lemma_offset_index_shifted(vals, off, side);
    let sv = shifted(vals, off);
    assert(in_bounds(sv, side)) by {
        assert forall|k: int| 0 <= k < sv.len() implies (#[trigger] sv[k] as nat) < side by {
            assert(0 <= vals[k] + off[k] < side);
        }
    }
    lemma_coords_of_index(sv, side);
    assert(0 <= vals[d] + off[d] < side);
}

/// Each leaper target is reached by one of the offsets.
proof fn lemma_leaper_target_offset(vals: Seq<u8>, offs: Seq<Seq<isize>>, side: int, k: int)
    requires
        1 <= side,
        cell_count(side as nat, vals.len()) <= usize::MAX,
        0 <= k < leaper_targets(vals, offs, side).len(),
    ensures
        exists|m: int|
            0 <= m < offs.len() && offset_index(vals, #[trigger] offs[m], side) == Some(
                leaper_targets(vals, offs, side)[k] as int,
            ),
    decreases offs.len(),
{
    let prev = leaper_targets(vals, offs.drop_last(), side);
    match offset_index(vals, offs.last(), side) {
        Some(t) => {
            if k < prev.len() {
                lemma_leaper_target_offset(vals, offs.drop_last(), side, k);
                let m = choose|m: int|
                    0 <= m < offs.drop_last().len() && offset_index(
                        vals,
                        #[trigger] offs.drop_last()[m],
                        side,
                    ) == Some(prev[k] as int);
                assert(offs.drop_last()[m] == offs[m]);
            } else {
                assert(offs[offs.len() - 1] == offs.last());
                lemma_offset_index_bound(vals, offs.last(), side as nat);
                assert(leaper_targets(vals, offs, side)[k] == t as usize);
            }
        },
        None => {
            lemma_leaper_target_offset(vals, offs.drop_last(), side, k);
            let m = choose|m: int|
                0 <= m < offs.drop_last().len() && offset_index(vals, #[trigger] offs.drop_last()[m], side)
                    == Some(prev[k] as int);
            assert(offs.drop_last()[m] == offs[m]);
        },
    }
}

/// Each king step moves axis 1 by at most one.
proof fn lemma_king_step_small(dim: nat, m: int)
    requires
        dim >= 2,
        0 <= m < all_steps(dim).filter(|v: Seq<isize>| is_king_step(v)).len(),
    ensures
        -1 <= all_steps(dim).filter(|v: Seq<isize>| is_king_step(v))[m][1] <= 1,
{
    let pred = |v: Seq<isize>| is_king_step(v);
    let steps = all_steps(dim);
    let offs = steps.filter(pred);
    let x = offs[m];
    assert(offs.contains(x));
    steps.lemma_filter_contains_rev(pred, x);
    let i = choose|i: int| 0 <= i < steps.len() && steps[i] == x;
    assert(x == ternary_dir(i as nat, dim));
    let v = ternary_value((((i as nat) / pow3(1)) % 3) as int);
    assert(x[1] == v);
}

/// A king steps at most one square along axis 1.
proof fn lemma_king_near(b: Board, o: int, k: int)
    requires
        b.wf(),
        0 <= o < b.total(),
        0 <= k < b.geo.cache.king_targets@[o]@.len(),
    ensures
        axis_dist(cell_vals(b, o)[1], cell_vals(b, b.geo.cache.king_targets@[o]@[k] as int)[1]) <= 1,
{
    let dim = b.geo.dimension as nat;
    let side = b.geo.side as nat;
    let vals = coords_of(o as nat, dim, side);
    let offs = view_dirs(b.geo.cache.king_offsets@);
    let targets = b.geo.cache.king_targets@[o]@;
    assert(targets == leaper_targets(vals, offs, side as int));
    lemma_leaper_target_offset(vals, offs, side as int, k);
    let m = choose|m: int|
        0 <= m < offs.len() && offset_index(vals, #[trigger] offs[m], side as int) == Some(
            targets[k] as int,
        );
    lemma_king_step_small(dim, m);
    lemma_offset_coords(vals, offs[m], side, targets[k] as int, 1);
}

/// Every view in `s` satisfies `p`.
pub open spec fn all_views(s: Seq<MoveView>, p: spec_fn(MoveView) -> bool) -> bool {
    forall|j: int| 0 <= j < s.len() ==> p(#[trigger] s[j])
}

proof fn lemma_all_views_add(a: Seq<MoveView>, c: Seq<MoveView>, p: spec_fn(MoveView) -> bool)
    requires
        all_views(a, p),
        all_views(c, p),
    ensures
        all_views(a + c, p),
{
    assert forall|j: int| 0 <= j < (a + c).len() implies p(#[trigger] (a + c)[j]) by {
        if j < a.len() {
            assert((a + c)[j] == a[j]);
        } else {
            assert((a + c)[j] == c[j - a.len()]);
        }
    }
}

/// A move from cell `o` to values with one entry per axis that does not promote to a king.
pub open spec fn from_cell(b: Board, o: int) -> spec_fn(MoveView) -> bool {
    |v: MoveView|
        v.0 == cell_vals(b, o) && v.1.len() == b.geo.dimension && v.2 != Some(PieceType::King)
}

/// A move from cell `o` to values with one entry per axis, without promotion.
pub open spec fn plain_from(b: Board, o: int) -> spec_fn(MoveView) -> bool {
    |v: MoveView| v.0 == cell_vals(b, o) && v.1.len() == b.geo.dimension && v.2 is None
}

proof fn lemma_pawn_to_shape(b: Board, o: int, t: int, player: Player)
    ensures
        all_views(pawn_to(b, o, t, player), from_cell(b, o)),
{
}

proof fn lemma_pawn_capture_shape(b: Board, o: int, player: Player, a: nat, c: nat, s: int)
    ensures
        all_views(pawn_capture(b, o, player, a, c, s), from_cell(b, o)),
{
    let side = b.geo.side as int;
    let target = o + crate::movegen::forward_sign(player) * cell_count(side as nat, a) + s
        * cell_count(side as nat, c);
    lemma_pawn_to_shape(b, o, target, player);
}

proof fn lemma_pawn_captures_shape(b: Board, o: int, player: Player, a: nat, n: nat)
    ensures
        all_views(pawn_captures(b, o, player, a, n), from_cell(b, o)),
    decreases n,
{
    if n > 0 {
        let c = (n - 1) as nat;
        lemma_pawn_captures_shape(b, o, player, a, c);
        if c != a {
            lemma_pawn_capture_shape(b, o, player, a, c, -1);
            lemma_pawn_capture_shape(b, o, player, a, c, 1);
            lemma_all_views_add(
                pawn_capture(b, o, player, a, c, -1),
                pawn_capture(b, o, player, a, c, 1),
                from_cell(b, o),
            );
            lemma_all_views_add(
                pawn_captures(b, o, player, a, c),
                pawn_capture(b, o, player, a, c, -1) + pawn_capture(b, o, player, a, c, 1),
                from_cell(b, o),
            );
        } else {
            assert(pawn_captures(b, o, player, a, n) =~= pawn_captures(b, o, player, a, c));
        }
    }
}

proof fn lemma_pawn_axis_shape(b: Board, o: int, player: Player, a: nat)
    ensures
        all_views(pawn_axis_moves(b, o, player, a), from_cell(b, o)),
{
    let side = b.geo.side as int;
    let dim = b.geo.dimension as nat;
    let fs = crate::movegen::forward_sign(player);
    let stride = cell_count(side as nat, a);
    let fwd = o + fs * stride;
    let dbl = o + fs * 2 * stride;
    lemma_pawn_to_shape(b, o, fwd, player);
    lemma_pawn_to_shape(b, o, dbl, player);
    lemma_pawn_captures_shape(b, o, player, a, dim);
    lemma_all_views_add(pawn_to(b, o, fwd, player), pawn_to(b, o, dbl, player), from_cell(b, o));
    lemma_all_views_add(pawn_to(b, o, fwd, player), Seq::empty(), from_cell(b, o));
    let p1 = pawn_to(b, o, fwd, player) + pawn_to(b, o, dbl, player);
    let p2 = pawn_to(b, o, fwd, player) + Seq::<MoveView>::empty();
    lemma_all_views_add(p1, pawn_captures(b, o, player, a, dim), from_cell(b, o));
    lemma_all_views_add(p2, pawn_captures(b, o, player, a, dim), from_cell(b, o));
}

proof fn lemma_pawn_moves_shape(b: Board, o: int, player: Player, n: nat)
    ensures
        all_views(pawn_moves(b, o, player, n), from_cell(b, o)),
    decreases n,
{
    if n > 0 {
        lemma_pawn_moves_shape(b, o, player, (n - 1) as nat);
        lemma_pawn_axis_shape(b, o, player, (n - 1) as nat);
        lemma_all_views_add(
            pawn_moves(b, o, player, (n - 1) as nat),
            pawn_axis_moves(b, o, player, (n - 1) as nat),
            from_cell(b, o),
        );
    }
}

proof fn lemma_slider_list_shape(b: Board, o: int, cells: Seq<usize>, player: Player)
    ensures
        all_views(slider_list_moves(b, o, cells, player), plain_from(b, o)),
    decreases cells.len(),
{
    if cells.len() > 0 {
        let t = cells.last() as int;
        lemma_slider_list_shape(b, o, cells.drop_last(), player);
        let tail = if t == o || crate::attacks::owned(b, t, player) {
            Seq::empty()
        } else {
            seq![plain(b, o, t)]
        };
        lemma_all_views_add(slider_list_moves(b, o, cells.drop_last(), player), tail, plain_from(b, o));
    }
}

proof fn lemma_slider_shape(b: Board, o: int, dirs: Seq<crate::geometry::DirectionInfo>, player: Player)
    ensures
        all_views(slider_moves(b, o, dirs, player), plain_from(b, o)),
    decreases dirs.len(),
{
    if dirs.len() > 0 {
        let d = dirs.last();
        lemma_slider_shape(b, o, dirs.drop_last(), player);
        if d.stride == 0 {
            assert(slider_moves(b, o, dirs, player) =~= slider_moves(b, o, dirs.drop_last(), player));
        } else {
            let cells = sorted_cells(crate::movegen::reach_pred(b, o, d.offsets@), b.total());
            lemma_slider_list_shape(b, o, cells, player);
            lemma_all_views_add(
                slider_moves(b, o, dirs.drop_last(), player),
                slider_list_moves(b, o, cells, player),
                plain_from(b, o),
            );
        }
    }
}

proof fn lemma_leaper_shape(b: Board, o: int, targets: Seq<usize>, player: Player)
    ensures
        forall|j: int|
            0 <= j < leaper_moves(b, o, targets, player).len() ==> exists|k: int|
                0 <= k < targets.len() && #[trigger] leaper_moves(b, o, targets, player)[j] == plain(
                    b,
                    o,
                    targets[k] as int,
                ),
    decreases targets.len(),
{
    if targets.len() > 0 {
        let rest = targets.drop_last();
        lemma_leaper_shape(b, o, rest, player);
        let prev = leaper_moves(b, o, rest, player);
        let s = leaper_moves(b, o, targets, player);
        assert forall|j: int| 0 <= j < s.len() implies exists|k: int|
            0 <= k < targets.len() && #[trigger] s[j] == plain(b, o, targets[k] as int) by {
            if j < prev.len() {
                assert(s[j] == prev[j]);
                let k = choose|k: int| 0 <= k < rest.len() && prev[j] == plain(b, o, rest[k] as int);
                assert(rest[k] == targets[k]);
            } else {
                assert(s[j] == plain(b, o, targets.last() as int));
                assert(targets.last() == targets[targets.len() - 1]);
            }
        }
    }
}

/// A generated move of the piece on cell `o`: it leaves `o`, only a pawn promotes, and a
/// king moves at most one square along axis 1.
pub open spec fn shaped(b: Board, o: int) -> spec_fn(MoveView) -> bool {
    |v: MoveView|
        {
            &&& from_cell(b, o)(v)
            &&& v.2 is Some ==> gen_kind(b, o) == Some(PieceType::Pawn)
            &&& gen_kind(b, o) == Some(PieceType::King) ==> axis_dist(v.0[1], v.1[1]) <= 1
        }
}

proof fn lemma_piece_moves_shape(b: Board, o: int, player: Player)
    requires
        b.wf(),
        0 <= o < b.total(),
    ensures
        all_views(piece_moves(b, o, player), shaped(b, o)),
{
    let cache = b.geo.cache;
    let s = piece_moves(b, o, player);
    match gen_kind(b, o) {
        Some(PieceType::Pawn) => {
            lemma_pawn_moves_shape(b, o, player, b.geo.dimension as nat);
            assert forall|j: int| 0 <= j < s.len() implies shaped(b, o)(#[trigger] s[j]) by {
                assert(from_cell(b, o)(s[j]));
            }
        },
        Some(PieceType::Knight) => {
            let targets = cache.knight_targets@[o]@;
            lemma_leaper_shape(b, o, targets, player);
            assert forall|j: int| 0 <= j < s.len() implies shaped(b, o)(#[trigger] s[j]) by {
                let k = choose|k: int| 0 <= k < targets.len() && s[j] == plain(b, o, targets[k] as int);
            }
        },
        Some(PieceType::King) => {
            let targets = cache.king_targets@[o]@;
            lemma_leaper_shape(b, o, targets, player);
            assert forall|j: int| 0 <= j < s.len() implies shaped(b, o)(#[trigger] s[j]) by {
                let k = choose|k: int| 0 <= k < targets.len() && s[j] == plain(b, o, targets[k] as int);
                lemma_king_near(b, o, k);
            }
        },
        Some(PieceType::Rook) => {
            lemma_slider_shape(b, o, cache.rook_directions@, player);
            assert forall|j: int| 0 <= j < s.len() implies shaped(b, o)(#[trigger] s[j]) by {
                assert(plain_from(b, o)(s[j]));
            }
        },
        Some(PieceType::Bishop) => {
            lemma_slider_shape(b, o, cache.bishop_directions@, player);
            assert forall|j: int| 0 <= j < s.len() implies shaped(b, o)(#[trigger] s[j]) by {
                assert(plain_from(b, o)(s[j]));
            }
        },
        Some(PieceType::Queen) => {
            lemma_slider_shape(b, o, cache.rook_directions@, player);
            lemma_slider_shape(b, o, cache.bishop_directions@, player);
            lemma_all_views_add(
                slider_moves(b, o, cache.rook_directions@, player),
                slider_moves(b, o, cache.bishop_directions@, player),
                plain_from(b, o),
            );
            assert forall|j: int| 0 <= j < s.len() implies shaped(b, o)(#[trigger] s[j]) by {
                assert(plain_from(b, o)(s[j]));
            }
        },
        None => {},
    }
}

proof fn lemma_moves_from_shape(b: Board, cells: Seq<usize>, player: Player)
    requires
        b.wf(),
        forall|k: int| 0 <= k < cells.len() ==> (#[trigger] cells[k] as int) < b.total(),
    ensures
        forall|j: int|
            0 <= j < moves_from(b, cells, player).len() ==> exists|k: int|
                0 <= k < cells.len() && shaped(b, cells[k] as int)(
                    #[trigger] moves_from(b, cells, player)[j],
                ),
    decreases cells.len(),
{
    if cells.len() > 0 {
        let rest = cells.drop_last();
        let o = cells.last() as int;
        assert(cells.last() == cells[cells.len() - 1]);
        lemma_moves_from_shape(b, rest, player);
        lemma_piece_moves_shape(b, o, player);
        let prev = moves_from(b, rest, player);
        let pm = piece_moves(b, o, player);
        let s = moves_from(b, cells, player);
        assert(s == prev + pm);
        assert forall|j: int| 0 <= j < s.len() implies exists|k: int|
            0 <= k < cells.len() && shaped(b, cells[k] as int)(#[trigger] s[j]) by {
            if j < prev.len() {
                assert(s[j] == prev[j]);
                let k = choose|k: int| 0 <= k < rest.len() && shaped(b, rest[k] as int)(prev[j]);
                assert(rest[k] == cells[k]);
            } else {
                assert(s[j] == pm[j - prev.len()]);
                assert(shaped(b, o)(pm[j - prev.len()]));
            }
        }
    }
}

/// The cells listed by `sorted_cells` are below the bound and satisfy the predicate.
proof fn lemma_sorted_cells_members(pred: spec_fn(int) -> bool, n: nat)
    requires
        n <= usize::MAX + 1,
    ensures
        forall|j: int| 0 <= j < sorted_cells(pred, n).len() ==> (#[trigger] sorted_cells(pred, n)[j]
            as int) < n && pred(sorted_cells(pred, n)[j] as int),
    decreases n,
{
    if n > 0 {
        let m = (n - 1) as nat;
        lemma_sorted_cells_members(pred, m);
        let prev = sorted_cells(pred, m);
        let s = sorted_cells(pred, n);
        assert forall|j: int| 0 <= j < s.len() implies (#[trigger] s[j] as int) < n && pred(s[j] as int) by {
            if j < prev.len() {
                assert(s[j] == prev[j]);
            }
        }
    }
}

/// The position is consistent: every cell holds exactly the bits of the piece read from
/// it, and the en-passant target square is empty.
pub open spec fn sound(b: Board) -> bool {
    &&& clean(b)
    &&& b.state.en_passant_target matches Some((t, _)) ==> b.piece_at(t as int) is None
}

/// Every pseudo-legal move has one value per axis on both squares and, when it can be made,
/// can be taken back.
pub proof fn lemma_pseudo_undoable(b: Board, player: Player, mv: Move)
    requires
        b.wf(),
        sound(b),
        pseudo_legal(b, player).contains(mview(mv)),
    ensures
        mv.from@.len() == b.geo.dimension,
        mv.to@.len() == b.geo.dimension,
        move_ok(b, mv) ==> undoable(b, mv),
        b.piece_at(sq(b, mv.from@)) matches Some(pc) && pc.owner == player,
{
    let dim = b.geo.dimension as nat;
    let side = b.geo.side as nat;
    let total = b.total();
    let pred = owned_pred(b, player);
    let cells = sorted_cells(pred, total);
    lemma_sorted_cells_members(pred, total);
    lemma_moves_from_shape(b, cells, player);
    let s = pseudo_legal(b, player);
    let j = choose|j: int| 0 <= j < s.len() && s[j] == mview(mv);
    let k = choose|k: int| 0 <= k < cells.len() && shaped(b, cells[k] as int)(s[j]);
    let o = cells[k] as int;
    assert(shaped(b, o)(mview(mv)));
    crate::geometry::lemma_index_of_coords(o as nat, dim, side);
    vstd::arithmetic::div_mod::lemma_small_mod(o as nat, cell_count(side, dim));
    assert(sq(b, mv.from@) == o);
    assert(owned(b, o, player));
    assert(b.pieces.bits(o) == match b.piece_at(o) {
        Some(p) => piece_bits(p),
        None => empty_bits(),
    });
    if move_ok(b, mv) {
        let p = b.piece_at(o)->0;
        assert(b.pieces.bits(o) == piece_bits(p));
        assert(gen_kind(b, o) == Some(p.piece_type));
        assert(moving(b, mv) == p);
    }
}

/// Every legal move but a castling move starts on a piece of the side to move.
pub proof fn lemma_legal_moves_start_on_own_piece(b: Board, player: Player, l: Seq<Move>, m: Move)
    requires
        b.wf(),
        sound(b),
        legal_list(b, player, l),
        l.contains(m),
        !castling_moves(b, player).contains(mview(m)),
    ensures
        b.piece_at(sq(b, m.from@)) matches Some(pc) && pc.owner == player,
{
    let f = keep(b, player);
    let p = choose|p: Seq<Move>|
        #![trigger p.filter(f)]
        views(p) == pseudo_legal(b, player) && views(l) == views(p.filter(f)) + castling_moves(b, player);
    let pf = p.filter(f);
    let i = choose|i: int| 0 <= i < l.len() && l[i] == m;
    assert(views(l)[i] == mview(m));
    if i < pf.len() {
        assert(views(pf)[i] == mview(pf[i]));
        assert(pf.contains(pf[i]));
        p.lemma_filter_contains_rev(f, pf[i]);
        let j = choose|j: int| 0 <= j < p.len() && p[j] == pf[i];
        assert(views(p)[j] == mview(p[j]));
        assert(pseudo_legal(b, player)[j] == mview(m));
        assert(pseudo_legal(b, player).contains(mview(m)));
        lemma_pseudo_undoable(b, player, m);
    } else {
        let c = castling_moves(b, player);
        assert(views(pf).len() == pf.len());
        assert(views(l).len() == l.len());
        assert(i - pf.len() < c.len());
        assert((views(pf) + c)[i] == c[i - pf.len()]);
        assert(c[i - pf.len()] == mview(m));
        assert(c.contains(mview(m)));
    }
}

/// The two boards hold the same position: same tables, the same bits on every cell and
/// the same position state.
pub open spec fn same_position(a: Board, b: Board) -> bool {
    &&& a.geo == b.geo
    &&& a.zobrist == b.zobrist
    &&& forall|j: int| #[trigger] a.pieces.bits(j) == b.pieces.bits(j)
    &&& a.state.hash == b.state.hash
    &&& a.state.history@ == b.state.history@
    &&& a.state.en_passant_target == b.state.en_passant_target
    &&& a.state.castling_rights == b.state.castling_rights
    &&& a.state.halfmove_clock == b.state.halfmove_clock
    &&& a.state.fullmove_number == b.state.fullmove_number
    &&& a.state.start_phase == b.state.start_phase
}

/// Making a move that can be taken back on a clean board and then taking it back gives back
/// the position: every cell, the hash, the history, the en-passant target, the castling
/// rights and the rest of the state.
pub proof fn lemma_make_unmake_round_trip(b: Board, mv: Move, mid: Board, after: Board)
    requires
        b.wf(),
        clean(b),
        mv.from@.len() == b.geo.dimension,
        mv.to@.len() == b.geo.dimension,
        move_ok(b, mv),
        undoable(b, mv),
        applied(b, mv, mid),
        unmade(mid, mv, applied_info(b, mv), after),
    ensures
        same_position(after, b),
        forall|j: int| #[trigger] after.piece_at(j) == b.piece_at(j),
{
    crate::make_move::lemma_unmake_undoes_apply(b, mv, mid, after);
    crate::make_move::lemma_unmake_restores_bits(b, mv, mid, after);
}

/// Boards holding the same position agree on which moves can be made, which can be taken
/// back, and which leave a king attacked.
#[verifier::spinoff_prover]
#[verifier::rlimit(40)]
pub proof fn lemma_same_position(a: Board, b: Board, mv: Move, player: Player)
    requires
        same_position(a, b),
    ensures
        move_ok(a, mv) == move_ok(b, mv),
        undoable(a, mv) == undoable(b, mv),
        check_after(a, mv, player) == check_after(b, mv, player),
        clean(a) == clean(b),
        sound(a) == sound(b),
{
    assert forall|j: int| #[trigger] a.piece_at(j) == b.piece_at(j) by {
        assert(a.pieces.bits(j) == b.pieces.bits(j));
    }
    assert(move_ok(a, mv) == move_ok(b, mv));
    assert(moving(a, mv) == moving(b, mv));
    assert(ep_capture(a, mv) == ep_capture(b, mv));
    assert(crate::make_move::castle_rook(a, mv) == crate::make_move::castle_rook(b, mv));
    assert(crate::make_move::placed_piece(a, mv) == crate::make_move::placed_piece(b, mv));
    assert(crate::make_move::new_ep(a, mv) == crate::make_move::new_ep(b, mv));
    assert(crate::make_move::rights_after(a, mv) == crate::make_move::rights_after(b, mv));
    assert(crate::make_move::applied_hash(a, mv) == crate::make_move::applied_hash(b, mv));
    assert forall|j: int| #[trigger] crate::make_move::applied_bits(a, mv, j)
        == crate::make_move::applied_bits(b, mv, j) by {
        assert(a.pieces.bits(j) == b.pieces.bits(j));
    }
    assert forall|m: Board| #[trigger] crate::make_move::applied(a, mv, m)
        == crate::make_move::applied(b, mv, m) by {
        if crate::make_move::applied(a, mv, m) {
            assert forall|j: int| #[trigger] m.pieces.bits(j) == crate::make_move::applied_bits(b, mv, j) by {
                assert(crate::make_move::applied_bits(a, mv, j) == crate::make_move::applied_bits(b, mv, j));
            }
        }
        if crate::make_move::applied(b, mv, m) {
            assert forall|j: int| #[trigger] m.pieces.bits(j) == crate::make_move::applied_bits(a, mv, j) by {
                assert(crate::make_move::applied_bits(a, mv, j) == crate::make_move::applied_bits(b, mv, j));
            }
        }
    }
    assert(check_after(a, mv, player) == check_after(b, mv, player)) by {
        if check_after(a, mv, player) {
            assert forall|m: Board| #[trigger] crate::make_move::applied(b, mv, m) implies
                crate::movegen::king_in_check(m, player) by {
                assert(crate::make_move::applied(a, mv, m));
            }
        }
        if check_after(b, mv, player) {
            assert forall|m: Board| #[trigger] crate::make_move::applied(a, mv, m) implies
                crate::movegen::king_in_check(m, player) by {
                assert(crate::make_move::applied(b, mv, m));
            }
        }
    }
    assert(undoable(a, mv) == undoable(b, mv));
    assert(clean(a) == clean(b)) by {
        if clean(a) {
            assert forall|j: int| #[trigger] b.pieces.bits(j) == match b.piece_at(j) {
                Some(p) => piece_bits(p),
                None => empty_bits(),
            } by {
                assert(a.pieces.bits(j) == b.pieces.bits(j));
            }
        }
        if clean(b) {
            assert forall|j: int| #[trigger] a.pieces.bits(j) == match a.piece_at(j) {
                Some(p) => piece_bits(p),
                None => empty_bits(),
            } by {
                assert(a.pieces.bits(j) == b.pieces.bits(j));
            }
        }
    }
}

/// Every move of the list has one value per axis on both squares.
pub open spec fn dims_ok(l: Seq<Move>, dim: nat) -> bool {
    forall|k: int| 0 <= k < l.len() ==> (#[trigger] l[k]).from@.len() == dim && l[k].to@.len() == dim
}

/// The pseudo-legal moves that are kept as legal: those that can be made and do not leave
/// `player`'s king attacked.
pub open spec fn keep(b: Board, player: Player) -> spec_fn(Move) -> bool {
    |m: Move| move_ok(b, m) && !check_after(b, m, player)
}

/// `l` lists the legal moves of `player` on `b`: the pseudo-legal moves, in order, that do
/// not leave the king attacked, then the castling moves.
pub open spec fn legal_list(b: Board, player: Player, l: Seq<Move>) -> bool {
    exists|p: Seq<Move>|
        #![trigger p.filter(keep(b, player))]
        views(p) == pseudo_legal(b, player) && views(l) == views(p.filter(keep(b, player)))
            + castling_moves(b, player)
}

/// Filtering one more element of a list.
pub(crate) proof fn lemma_filter_take<A>(s: Seq<A>, f: spec_fn(A) -> bool, i: int)
    requires
        0 <= i < s.len(),
    ensures
        s.take(i + 1).filter(f) == if f(s[i]) {
            s.take(i).filter(f).push(s[i])
        } else {
            s.take(i).filter(f)
        },
{
    reveal(Seq::filter);
    assert(s.take(i + 1).drop_last() =~= s.take(i));
    assert(s.take(i + 1).last() == s[i]);
}

/// Castling moves have one value per axis on both squares.
proof fn lemma_castling_dims(b: Board, player: Player, k: int)
    requires
        0 <= k < castling_moves(b, player).len(),
    ensures
        castling_moves(b, player)[k].0.len() == b.geo.dimension,
        castling_moves(b, player)[k].1.len() == b.geo.dimension,
{
}

impl Board {
    /// The legal moves of `player`: each pseudo-legal move that does not leave the king
    /// attacked (each is made and taken back on this board), then the castling moves. The
    /// position is the same afterwards.
    pub fn generate_legal_moves(&mut self, player: Player) -> (r: MoveList)
        requires
            old(self).wf(),
            old(self).geo.side >= 2,
            sound(*old(self)),
        ensures
            final(self).wf(),
            same_position(*final(self), *old(self)),
            legal_list(*old(self), player, r@),
            dims_ok(r@, old(self).geo.dimension as nat),
    {
        let ghost b0 = *self;
        let mut castles = MoveList::empty();
        self.generate_castling_moves(player, &mut castles);
        let pseudo = self.generate_pseudo_legal_moves(player).into_vec();
        let mut moves = MoveList::empty();
        let ghost f = keep(b0, player);
        let mut i: usize = 0;
        while i < pseudo.len()
            invariant
                i <= pseudo.len(),
                self.wf(),
                self.geo.side >= 2,
                b0.wf(),
                sound(b0),
                same_position(*self, b0),
                views(pseudo@) == pseudo_legal(b0, player),
                f == keep(b0, player),
                views(moves@) == views(pseudo@.take(i as int).filter(f)),
                dims_ok(moves@, b0.geo.dimension as nat),
            decreases pseudo.len() - i,
        {
            let mv = &pseudo[i];
            proof {
                assert(views(pseudo@)[i as int] == mview(*mv));
                assert(pseudo_legal(b0, player).contains(mview(*mv)));
                lemma_pseudo_undoable(b0, player, *mv);
                lemma_same_position(*self, b0, *mv, player);
                lemma_filter_take(pseudo@, f, i as int);
            }
            let ghost before = *self;
            let in_check = self.leaves_king_in_check(player, mv);
            proof {
                if move_ok(before, *mv) {
                    lemma_same_position(*self, before, *mv, player);
                }
            }
            if !in_check {
                let kept = mv.duplicate();
                proof {
                    crate::movegen::lemma_views_push(moves@, kept);
                    crate::movegen::lemma_views_push(pseudo@.take(i as int).filter(f), *mv);
                }
                moves.push_move(kept);
            }
            i += 1;
        }
        proof {
            assert(pseudo@.take(pseudo@.len() as int) =~= pseudo@);
        }
        let ghost kept_views = views(moves@);
        let castle_vec = castles.into_vec();
        let mut k: usize = 0;
        while k < castle_vec.len()
            invariant
                k <= castle_vec.len(),
                views(moves@) == kept_views + views(castle_vec@.take(k as int)),
                views(castle_vec@) == castling_moves(b0, player),
                dims_ok(moves@, b0.geo.dimension as nat),
            decreases castle_vec.len() - k,
        {
            let c = castle_vec[k].duplicate();
            proof {
                assert(views(castle_vec@)[k as int] == mview(castle_vec@[k as int]));
                lemma_castling_dims(b0, player, k as int);
                crate::movegen::lemma_views_push(moves@, c);
                assert(castle_vec@.take(k + 1) == castle_vec@.take(k as int).push(castle_vec@[k as int]));
                crate::movegen::lemma_views_push(castle_vec@.take(k as int), castle_vec@[k as int]);
            }
            moves.push_move(c);
            k += 1;
        }
        proof {
            assert(castle_vec@.take(castle_vec@.len() as int) =~= castle_vec@);
            assert(views(moves@) == views(pseudo@.filter(f)) + castling_moves(b0, player));
        }
        moves
    }
}

/// The move takes a piece of the opponent, promotes, or is a pawn moving onto the
/// en-passant target.
pub open spec fn loud(b: Board, m: Move, player: Player) -> bool {
    let t = b.spec_index(m.to@);
    let capture = match t {
        Some(i) => owned(b, i as int, player.spec_opponent()),
        None => false,
    };
    let ep = match (b.state.en_passant_target, t, b.spec_index(m.from@)) {
        (Some((e, _)), Some(i), Some(fi)) => i == e && b.pieces.pawns.has(fi as int),
        _ => false,
    };
    capture || m.promotion is Some || ep
}

/// The pseudo-legal moves kept as loud legal moves.
pub open spec fn keep_loud(b: Board, player: Player) -> spec_fn(Move) -> bool {
    |m: Move| loud(b, m, player) && move_ok(b, m) && !check_after(b, m, player)
}

/// `l` lists the loud legal moves of `player` on `b`: the pseudo-legal captures,
/// promotions and en-passant moves, in order, that do not leave the king attacked.
pub open spec fn loud_list(b: Board, player: Player, l: Seq<Move>) -> bool {
    exists|p: Seq<Move>|
        #![trigger p.filter(keep_loud(b, player))]
        views(p) == pseudo_legal(b, player) && views(l) == views(p.filter(keep_loud(b, player)))
}

impl Board {
    /// The loud legal moves of `player` (captures, promotions and en-passant moves); the
    /// position is the same afterwards.
    pub fn generate_loud_moves(&mut self, player: Player) -> (r: MoveList)
        requires
            old(self).wf(),
            old(self).geo.side >= 2,
            sound(*old(self)),
        ensures
            final(self).wf(),
            same_position(*final(self), *old(self)),
            loud_list(*old(self), player, r@),
    {
        let ghost b0 = *self;
        let pseudo = self.generate_pseudo_legal_moves(player).into_vec();
        let mut moves = MoveList::empty();
        let ghost f = keep_loud(b0, player);
        let mut i: usize = 0;
        while i < pseudo.len()
            invariant
                i <= pseudo.len(),
                self.wf(),
                self.geo.side >= 2,
                b0.wf(),
                sound(b0),
                same_position(*self, b0),
                views(pseudo@) == pseudo_legal(b0, player),
                f == keep_loud(b0, player),
                views(moves@) == views(pseudo@.take(i as int).filter(f)),
            decreases pseudo.len() - i,
        {
            let mv = &pseudo[i];
            proof {
                assert(views(pseudo@)[i as int] == mview(*mv));
                assert(pseudo_legal(b0, player).contains(mview(*mv)));
                lemma_pseudo_undoable(b0, player, *mv);
                lemma_same_position(*self, b0, *mv, player);
                lemma_filter_take(pseudo@, f, i as int);
                assert forall|j: int| #[trigger] self.pieces.bits(j) == b0.pieces.bits(j) by {}
            }
            let to_idx = self.coords_to_index(mv.to.values.as_slice());
            let is_capture = match to_idx {
                Some(idx) => match player {
                    Player::White => self.pieces.black_occupancy.get_bit(idx),
                    Player::Black => self.pieces.white_occupancy.get_bit(idx),
                },
                None => false,
            };
            let is_ep_capture = match (self.state.en_passant_target, to_idx) {
                (Some((ep_idx, _)), Some(idx)) => idx == ep_idx && match self.coords_to_index(
                    mv.from.values.as_slice(),
                ) {
                    Some(fi) => self.pieces.pawns.get_bit(fi),
                    None => false,
                },
                _ => false,
            };
            let is_loud = is_capture || mv.promotion.is_some() || is_ep_capture;
            proof {
                assert(is_loud == loud(b0, *mv, player)) by {
                    if let Some(idx) = to_idx {
                        assert(self.pieces.bits(idx as int) == b0.pieces.bits(idx as int));
                    }
                    if let Some(fi) = self.spec_index(mv.from@) {
                        assert(self.pieces.bits(fi as int) == b0.pieces.bits(fi as int));
                    }
                }
            }
            if is_loud {
                let ghost before = *self;
                let in_check = self.leaves_king_in_check(player, mv);
                proof {
                    if move_ok(before, *mv) {
                        lemma_same_position(*self, before, *mv, player);
                    }
                }
                if !in_check {
                    let kept = mv.duplicate();
                    proof {
                        crate::movegen::lemma_views_push(moves@, kept);
                        crate::movegen::lemma_views_push(pseudo@.take(i as int).filter(f), *mv);
                    }
                    moves.push_move(kept);
                }
            }
            i += 1;
        }
        proof {
            assert(pseudo@.take(pseudo@.len() as int) =~= pseudo@);
        }
        moves
    }
}

/// Whether the nine bits of cell `j` are exactly those of the piece they are read as.
fn cell_clean(board: &Board, j: usize) -> (r: bool)
    requires
        board.wf(),
    ensures
        r == (board.pieces.bits(j as int) == match board.piece_at(j as int) {
            Some(p) => crate::pieces::piece_bits(p),
            None => crate::pieces::empty_bits(),
        }),
{
    let p = &board.pieces;
    let white = p.white_occupancy.get_bit(j);
    let black = p.black_occupancy.get_bit(j);
    let all = p.all_occupancy.get_bit(j);
    let pawn = p.pawns.get_bit(j);
    let rook = p.rooks.get_bit(j);
    let knight = p.knights.get_bit(j);
    let bishop = p.bishops.get_bit(j);
    let queen = p.queens.get_bit(j);
    let king = p.kings.get_bit(j);
    match board.get_piece_at_index(j) {
        Some(pc) => {
            let w = pc.owner == Player::White;
            let t = pc.piece_type;
            white == w && black == !w && all && pawn == (t == PieceType::Pawn) && rook == (t
                == PieceType::Rook) && knight == (t == PieceType::Knight) && bishop == (t
                == PieceType::Bishop) && queen == (t == PieceType::Queen) && king == (t
                == PieceType::King)
        },
        None => !white && !black && !all && !pawn && !rook && !knight && !bishop && !queen && !king,
    }
}

impl Board {
    /// Whether the position is sound (see `sound`): every cell's bits are those of the
    /// piece read there, and an en-passant target is an empty cell.
    pub fn is_sound(&self) -> (r: bool)
        requires
            self.wf(),
        ensures
            r == sound(*self),
    {
        let total = self.geo.total_cells;
        let mut j: usize = 0;
        while j < total
            invariant
                self.wf(),
                total == self.total(),
                j <= total,
                forall|k: int|
                    0 <= k < j ==> #[trigger] self.pieces.bits(k) == match self.piece_at(k) {
                        Some(p) => crate::pieces::piece_bits(p),
                        None => crate::pieces::empty_bits(),
                    },
            decreases total - j,
        {
            if !cell_clean(self, j) {
                return false;
            }
            j += 1;
        }
        assert forall|k: int| #[trigger] self.pieces.bits(k) == match self.piece_at(k) {
            Some(p) => crate::pieces::piece_bits(p),
            None => crate::pieces::empty_bits(),
        } by {
            if !(0 <= k < total) {
                assert(self.pieces.bits(k) == crate::pieces::empty_bits());
            }
        }
        match self.state.en_passant_target {
            Some((t, _)) => self.get_piece_at_index(t).is_none(),
            None => true,
        }
    }
}

} // verus!
