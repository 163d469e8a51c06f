//! The movement rules the generated moves obey: a knight changes one axis by two and
//! another by one, a king changes any axes by at most one, a rook changes exactly one
//! axis, a bishop an even number of axes all by the same amount.
use vstd::prelude::*;
use crate::board::Board;
use crate::calculators::{knight_offsets, knight_row, knight_block, knight_vec, view_dirs, is_king_step, nonzero_count, all_steps};
use crate::geometry::{coords_of, index_of, in_bounds, offset_index, leaper_targets, lemma_coords_of_index};
use crate::movegen::{MoveView, leaper_moves, plain, cell_vals, kind_moves, piece_moves, gen_kind, slider_moves, slider_list_moves, reach, reach_pred};
use crate::sliders::sorted_cells;
use crate::geometry::{DirectionInfo, ray_coords, lemma_ray_cell};
use crate::attacks::{on_ray, ray_cell};
use crate::calculators::{rook_dirs, is_bishop_dir, unit};
use crate::models::{PieceType, Player};
use crate::representation::cell_count;

verus! {

/// How far axis `d` moves from `a` to `c`.
pub open spec fn shift(a: Seq<u8>, c: Seq<u8>, d: int) -> int {
    c[d] as int - a[d] as int
}

/// A knight's jump: one axis changes by two, one other by one, the rest not at all.
pub open spec fn knight_jump(a: Seq<u8>, c: Seq<u8>) -> bool {
    &&& a.len() == c.len()
    &&& exists|p: int, q: int|
        #![trigger shift(a, c, p), shift(a, c, q)]
        0 <= p < a.len() && 0 <= q < a.len() && p != q && (shift(a, c, p) == 2 || shift(a, c, p) == -2)
            && (shift(a, c, q) == 1 || shift(a, c, q) == -1) && forall|d: int|
            0 <= d < a.len() && d != p && d != q ==> #[trigger] shift(a, c, d) == 0
}

/// A king's step: every axis changes by at most one, and some axis changes.
pub open spec fn king_step(a: Seq<u8>, c: Seq<u8>) -> bool {
    &&& a.len() == c.len()
    &&& forall|d: int| 0 <= d < a.len() ==> -1 <= #[trigger] shift(a, c, d) <= 1
    &&& exists|d: int| 0 <= d < a.len() && #[trigger] shift(a, c, d) != 0
}

/// The values reached from `v` by `off`.
pub open spec fn offset_vals(v: Seq<u8>, off: Seq<isize>) -> Seq<u8> {
    Seq::new(v.len(), |d: int| (v[d] + off[d]) as u8)
}

/// A cell reached by an offset has the coordinates of the values moved by the offset.
proof fn lemma_offset_index_coords(v: Seq<u8>, off: Seq<isize>, side: nat)
    requires
        1 <= side <= 256,
        offset_index(v, off, side as int) is Some,
    ensures
        forall|d: int| 0 <= d < v.len() ==> 0 <= #[trigger] (v[d] + off[d]) < side,
        in_bounds(offset_vals(v, off), side),
        offset_index(v, off, side as int) == Some(index_of(offset_vals(v, off), side) as int),
        coords_of(index_of(offset_vals(v, off), side), v.len(), side) == offset_vals(v, off),
    decreases v.len(),
{
    let n = v.len();
    let w = offset_vals(v, off);
    if n > 0 {
        let v1 = v.drop_last();
        lemma_offset_index_coords(v1, off, side);
        let w1 = offset_vals(v1, off);
        assert(w.drop_last() =~= w1);
        assert forall|d: int| 0 <= d < v.len() implies 0 <= #[trigger] (v[d] + off[d]) < side by {
            if d < n - 1 {
                assert(v1[d] == v[d]);
            }
        }
    }
    assert(in_bounds(w, side));
    lemma_coords_of_index(w, side);
}

/// Every leaper target is reached from the values by one of the offsets.
proof fn lemma_leaper_target_offset(v: Seq<u8>, offs: Seq<Seq<isize>>, side: nat, j: int)
    requires
        1 <= side <= 256,
        cell_count(side, v.len()) <= usize::MAX,
        0 <= j < leaper_targets(v, offs, side as int).len(),
    ensures
        exists|k: int|
            0 <= k < offs.len() && offset_index(v, #[trigger] offs[k], side as int) == Some(
                leaper_targets(v, offs, side as int)[j] as int,
            ),
    decreases offs.len(),
{
    let prev = leaper_targets(v, offs.drop_last(), side as int);
    if offs.len() > 0 {
        match offset_index(v, offs.last(), side as int) {
            Some(t) => {
                assert(leaper_targets(v, offs, side as int) == prev.push(t as usize));
                if j < prev.len() {
                    lemma_leaper_target_offset(v, offs.drop_last(), side, j);
                    let k = choose|k: int|
                        0 <= k < offs.drop_last().len() && offset_index(v, #[trigger] offs.drop_last()[k], side as int)
                            == Some(prev[j] as int);
                    assert(offs[k] == offs.drop_last()[k]);
                    assert(leaper_targets(v, offs, side as int)[j] == prev[j]);
                } else {
                    lemma_offset_index_coords(v, offs.last(), side);
                    crate::geometry::lemma_offset_index_bound(v, offs.last(), side);
                    assert(offs[offs.len() - 1] == offs.last());
                    assert(leaper_targets(v, offs, side as int)[j] == t as usize);
                    assert(0 <= t < cell_count(side, v.len()));
                }
            },
            None => {
                lemma_leaper_target_offset(v, offs.drop_last(), side, j);
                let k = choose|k: int|
                    0 <= k < offs.drop_last().len() && offset_index(v, #[trigger] offs.drop_last()[k], side as int)
                        == Some(prev[j] as int);
                assert(offs[k] == offs.drop_last()[k]);
            },
        }
    }
}

/// Every leaper move goes from `o` to one of the targets.
proof fn lemma_leaper_move_target(b: Board, o: int, targets: Seq<usize>, player: Player, m: int)
    requires
        0 <= m < leaper_moves(b, o, targets, player).len(),
    ensures
        exists|j: int|
            0 <= j < targets.len() && leaper_moves(b, o, targets, player)[m] == plain(b, o, #[trigger] targets[j] as int),
    decreases targets.len(),
{
    let prev = leaper_moves(b, o, targets.drop_last(), player);
    if targets.len() > 0 {
        if m < prev.len() {
            lemma_leaper_move_target(b, o, targets.drop_last(), player, m);
            let j = choose|j: int|
                0 <= j < targets.drop_last().len() && prev[m] == plain(b, o, #[trigger] targets.drop_last()[j] as int);
            assert(targets[j] == targets.drop_last()[j]);
        } else {
            assert(targets[targets.len() - 1] == targets.last());
        }
    }
}

/// Every knight offset moves one axis by two and another by one.
proof fn lemma_knight_offset_shape(d: nat, n: nat, k: int)
    requires
        0 <= k < knight_offsets(d, n).len(),
        n <= d,
    ensures
        exists|i: int, j: int, s1: isize, s2: isize|
            0 <= i < d && 0 <= j < d && i != j && (s1 == 1 || s1 == -1) && (s2 == 1 || s2 == -1)
                && #[trigger] knight_offsets(d, n)[k] == knight_vec(d, i, j, s1, s2),
    decreases n,
{
    if n > 0 {
        let prev = knight_offsets(d, (n - 1) as nat);
        if k < prev.len() {
            lemma_knight_offset_shape(d, (n - 1) as nat, k);
            assert(knight_offsets(d, n)[k] == prev[k]);
        } else {
            lemma_knight_row_shape(d, n - 1, d, k - prev.len());
            assert(knight_offsets(d, n)[k] == knight_row(d, n - 1, d)[k - prev.len()]);
        }
    }
}

proof fn lemma_knight_row_shape(d: nat, i: int, jn: nat, k: int)
    requires
        0 <= i < d,
        jn <= d,
        0 <= k < knight_row(d, i, jn).len(),
    ensures
        exists|j: int, s1: isize, s2: isize|
            0 <= j < d && i != j && (s1 == 1 || s1 == -1) && (s2 == 1 || s2 == -1)
                && #[trigger] knight_row(d, i, jn)[k] == knight_vec(d, i, j, s1, s2),
    decreases jn,
{
    if jn > 0 {
        let prev = knight_row(d, i, (jn - 1) as nat);
        if k < prev.len() {
            lemma_knight_row_shape(d, i, (jn - 1) as nat, k);
            assert(knight_row(d, i, jn)[k] == prev[k]);
        } else {
            let blk = knight_block(d, i, jn - 1);
            let q = k - prev.len();
            assert(knight_row(d, i, jn)[k] == blk[q]);
            if q == 0 {
                assert(blk[q] == knight_vec(d, i, jn - 1, -1isize, -1isize));
            } else if q == 1 {
                assert(blk[q] == knight_vec(d, i, jn - 1, -1isize, 1isize));
            } else if q == 2 {
                assert(blk[q] == knight_vec(d, i, jn - 1, 1isize, -1isize));
            } else {
                assert(blk[q] == knight_vec(d, i, jn - 1, 1isize, 1isize));
            }
        }
    }
}

/// A knight on cell `i` jumps as a knight: every move generated for it changes one axis
/// by two, another by one, and no other axis.
pub proof fn lemma_knight_moves_jump(b: Board, i: int, player: Player)
    requires
        b.wf(),
        0 <= i < b.total(),
    ensures
        forall|m: int|
            0 <= m < kind_moves(b, i, player, PieceType::Knight).len() ==> knight_jump(
                (#[trigger] kind_moves(b, i, player, PieceType::Knight)[m]).0,
                kind_moves(b, i, player, PieceType::Knight)[m].1,
            ),
{
    let dim = b.geo.dimension as nat;
    let side = b.geo.side as nat;
    let v = cell_vals(b, i);
    let offs = view_dirs(b.geo.cache.knight_offsets@);
    let targets = b.geo.cache.knight_targets@[i]@;
    assert(targets == leaper_targets(v, offs, side as int));
    assert forall|m: int|
        0 <= m < kind_moves(b, i, player, PieceType::Knight).len() implies knight_jump(
            (#[trigger] kind_moves(b, i, player, PieceType::Knight)[m]).0,
            kind_moves(b, i, player, PieceType::Knight)[m].1,
        ) by {
        lemma_leaper_move_target(b, i, targets, player, m);
        let j = choose|j: int|
            0 <= j < targets.len() && leaper_moves(b, i, targets, player)[m] == plain(b, i, #[trigger] targets[j] as int);
        lemma_leaper_target_offset(v, offs, side, j);
        let k = choose|k: int| 0 <= k < offs.len() && offset_index(v, #[trigger] offs[k], side as int) == Some(targets[j] as int);
        lemma_offset_index_coords(v, offs[k], side);
        lemma_knight_offset_shape(dim, dim, k);
        let (p, q, s1, s2) = choose|p: int, q: int, s1: isize, s2: isize|
            0 <= p < dim && 0 <= q < dim && p != q && (s1 == 1 || s1 == -1) && (s2 == 1 || s2 == -1)
                && #[trigger] knight_offsets(dim, dim)[k] == knight_vec(dim, p, q, s1, s2);
        let a = cell_vals(b, i);
        let c = cell_vals(b, targets[j] as int);
        assert(c == offset_vals(v, offs[k]));
        assert forall|d: int| 0 <= d < a.len() implies #[trigger] shift(a, c, d) == offs[k][d] by {
            assert(0 <= v[d] + offs[k][d] < side);
        }
        assert(shift(a, c, p) == 2 * s1);
        assert(shift(a, c, q) == s2);
        assert forall|d: int| 0 <= d < a.len() && d != p && d != q implies #[trigger] shift(a, c, d) == 0 by {
            assert(offs[k][d] == 0);
        }
    }
}

proof fn lemma_nonzero_entry(v: Seq<isize>)
    requires
        nonzero_count(v) > 0,
    ensures
        exists|d: int| 0 <= d < v.len() && #[trigger] v[d] != 0,
    decreases v.len(),
{
    if v.last() == 0 {
        lemma_nonzero_entry(v.drop_last());
        let d = choose|d: int| 0 <= d < v.drop_last().len() && #[trigger] v.drop_last()[d] != 0;
        assert(v[d] == v.drop_last()[d]);
    } else {
        assert(v[v.len() - 1] != 0);
    }
}

/// Every king offset changes each axis by at most one, and some axis.
proof fn lemma_king_offset_shape(dim: nat, off: Seq<isize>)
    requires
        all_steps(dim).filter(|v: Seq<isize>| is_king_step(v)).contains(off),
    ensures
        off.len() == dim,
        forall|d: int| 0 <= d < dim ==> -1 <= #[trigger] off[d] <= 1,
        exists|d: int| 0 <= d < dim && #[trigger] off[d] != 0,
{
    let pred = |v: Seq<isize>| is_king_step(v);
    let steps = all_steps(dim);
    steps.lemma_filter_contains_rev(pred, off);
    let k = choose|k: int| 0 <= k < steps.len() && steps[k] == off;
    let f = steps.filter(pred);
    let m = choose|m: int| 0 <= m < f.len() && f[m] == off;
    steps.lemma_filter_pred(pred, m);
    lemma_nonzero_entry(off);
}

/// A king on cell `i` steps as a king: every move generated for it changes each axis by
/// at most one, and some axis.
pub proof fn lemma_king_moves_step(b: Board, i: int, player: Player)
    requires
        b.wf(),
        0 <= i < b.total(),
        gen_kind(b, i) == Some(PieceType::King),
    ensures
        forall|m: int|
            0 <= m < piece_moves(b, i, player).len() ==> king_step(
                (#[trigger] piece_moves(b, i, player)[m]).0,
                piece_moves(b, i, player)[m].1,
            ),
{
    let dim = b.geo.dimension as nat;
    let side = b.geo.side as nat;
    let v = cell_vals(b, i);
    let offs = view_dirs(b.geo.cache.king_offsets@);
    let targets = b.geo.cache.king_targets@[i]@;
    assert(targets == leaper_targets(v, offs, side as int));
    assert(piece_moves(b, i, player) == leaper_moves(b, i, targets, player));
    assert forall|m: int|
        0 <= m < piece_moves(b, i, player).len() implies king_step(
            (#[trigger] piece_moves(b, i, player)[m]).0,
            piece_moves(b, i, player)[m].1,
        ) by {
        lemma_leaper_move_target(b, i, targets, player, m);
        let j = choose|j: int|
            0 <= j < targets.len() && leaper_moves(b, i, targets, player)[m] == plain(b, i, #[trigger] targets[j] as int);
        lemma_leaper_target_offset(v, offs, side, j);
        let k = choose|k: int| 0 <= k < offs.len() && offset_index(v, #[trigger] offs[k], side as int) == Some(targets[j] as int);
        lemma_offset_index_coords(v, offs[k], side);
        assert(all_steps(dim).filter(|w: Seq<isize>| is_king_step(w)).contains(offs[k]));
        lemma_king_offset_shape(dim, offs[k]);
        let a = cell_vals(b, i);
        let c = cell_vals(b, targets[j] as int);
        assert(c == offset_vals(v, offs[k]));
        assert forall|d: int| 0 <= d < a.len() implies #[trigger] shift(a, c, d) == offs[k][d] by {
            assert(0 <= v[d] + offs[k][d] < side);
        }
        let d0 = choose|d: int| 0 <= d < dim && #[trigger] offs[k][d] != 0;
        assert(shift(a, c, d0) != 0);
    }
}

/// A rook's line: exactly one axis changes.
pub open spec fn rook_line(a: Seq<u8>, c: Seq<u8>) -> bool {
    &&& a.len() == c.len()
    &&& exists|p: int|
        0 <= p < a.len() && #[trigger] shift(a, c, p) != 0 && forall|d: int|
            0 <= d < a.len() && d != p ==> #[trigger] shift(a, c, d) == 0
}

/// The number of non-zero entries.
pub open spec fn nonzero_ints(s: Seq<int>) -> nat
    decreases s.len(),
{
    if s.len() == 0 {
        0
    } else {
        nonzero_ints(s.drop_last()) + if s.last() != 0 {
            1nat
        } else {
            0nat
        }
    }
}

/// How far each axis moves from `a` to `c`.
pub open spec fn shifts(a: Seq<u8>, c: Seq<u8>) -> Seq<int> {
    Seq::new(a.len(), |d: int| shift(a, c, d))
}

/// A bishop's line: a non-zero, even number of axes change, all by the same amount.
pub open spec fn bishop_line(a: Seq<u8>, c: Seq<u8>) -> bool {
    &&& a.len() == c.len()
    &&& nonzero_ints(shifts(a, c)) > 0
    &&& nonzero_ints(shifts(a, c)) % 2 == 0
    &&& exists|k: int| k >= 1 && #[trigger] moves_by(a, c, k)
}

/// Every axis moves by `k`, by `-k` or not at all.
pub open spec fn moves_by(a: Seq<u8>, c: Seq<u8>, k: int) -> bool {
    forall|d: int| 0 <= d < a.len() ==> #[trigger] shift(a, c, d) == 0 || shift(a, c, d) == k || shift(a, c, d) == -k
}

proof fn lemma_sorted_cells_pred(pred: spec_fn(int) -> bool, n: nat, j: int)
    requires
        n <= usize::MAX + 1,
        0 <= j < sorted_cells(pred, n).len(),
    ensures
        pred(sorted_cells(pred, n)[j] as int),
        0 <= sorted_cells(pred, n)[j] < n,
    decreases n,
{
    if n > 0 {
        let prev = sorted_cells(pred, (n - 1) as nat);
        if j < prev.len() {
            lemma_sorted_cells_pred(pred, (n - 1) as nat, j);
            assert(sorted_cells(pred, n)[j] == prev[j]);
        } else {
            assert(sorted_cells(pred, n)[j] == (n - 1) as usize);
        }
    }
}

proof fn lemma_slider_list_move(b: Board, o: int, cells: Seq<usize>, player: Player, m: int)
    requires
        0 <= m < slider_list_moves(b, o, cells, player).len(),
    ensures
        exists|j: int|
            0 <= j < cells.len() && slider_list_moves(b, o, cells, player)[m] == plain(b, o, #[trigger] cells[j] as int),
    decreases cells.len(),
{
    let prev = slider_list_moves(b, o, cells.drop_last(), player);
    if cells.len() > 0 {
        if m < prev.len() {
            lemma_slider_list_move(b, o, cells.drop_last(), player, m);
            let j = choose|j: int|
                0 <= j < cells.drop_last().len() && prev[m] == plain(b, o, #[trigger] cells.drop_last()[j] as int);
            assert(cells[j] == cells.drop_last()[j]);
        } else {
            assert(cells[cells.len() - 1] == cells.last());
        }
    }
}

/// Every slider move goes from `o` to a cell reached along one of the directions.
proof fn lemma_slider_move_reach(b: Board, o: int, dirs: Seq<DirectionInfo>, player: Player, m: int)
    requires
        0 <= m < slider_moves(b, o, dirs, player).len(),
    ensures
        exists|u: int, t: int|
            0 <= u < dirs.len() && #[trigger] reach(b, o, dirs[u].offsets@, t) && slider_moves(b, o, dirs, player)[m]
                == plain(b, o, t),
    decreases dirs.len(),
{
    let prev = slider_moves(b, o, dirs.drop_last(), player);
    if dirs.len() > 0 {
        if m < prev.len() {
            lemma_slider_move_reach(b, o, dirs.drop_last(), player, m);
            let (u, t) = choose|u: int, t: int|
                0 <= u < dirs.drop_last().len() && #[trigger] reach(b, o, dirs.drop_last()[u].offsets@, t)
                    && prev[m] == plain(b, o, t);
            assert(dirs[u] == dirs.drop_last()[u]);
            assert(reach(b, o, dirs[u].offsets@, t));
        } else {
            let d = dirs.last();
            let cells = sorted_cells(reach_pred(b, o, d.offsets@), b.total());
            lemma_slider_list_move(b, o, cells, player, m - prev.len());
            let j = choose|j: int|
                0 <= j < cells.len() && slider_list_moves(b, o, cells, player)[m - prev.len()] == plain(
                    b,
                    o,
                    #[trigger] cells[j] as int,
                );
            lemma_sorted_cells_pred(reach_pred(b, o, d.offsets@), b.total(), j);
            let u = dirs.len() - 1;
            assert(dirs[u] == d);
            assert(reach(b, o, dirs[u].offsets@, cells[j] as int));
        }
    }
}

/// A cell reached along `dir` has the coordinates of the start moved `k >= 1` times by
/// `dir`.
proof fn lemma_reach_shift(b: Board, o: int, dir: Seq<isize>, t: int)
    requires
        b.wf(),
        0 <= o < b.total(),
        dir.len() == b.geo.dimension,
        reach(b, o, dir, t),
    ensures
        exists|k: int| k >= 1 && #[trigger] scaled_shift(cell_vals(b, o), cell_vals(b, t), dir, k),
{
    let dim = b.geo.dimension as nat;
    let side = b.geo.side as nat;
    let k = choose|k: int|
        #![trigger ray_cell(b, o, dir, k)]
        1 <= k && t == ray_cell(b, o, dir, k) && on_ray(b, o, dir, k) && forall|m: int|
            1 <= m < k ==> !crate::attacks::occupied(b, #[trigger] ray_cell(b, o, dir, m));
    lemma_ray_cell(o as nat, dim, side, dir, k);
    let x = cell_vals(b, o);
    assert(cell_vals(b, t) == ray_coords(x, dir, k));
    assert forall|d: int| 0 <= d < dir.len() implies #[trigger] shift(cell_vals(b, o), cell_vals(b, t), d) == dir[d] * k by {
        assert(0 <= x[d] + dir[d] * k < side);
    }
    assert(scaled_shift(cell_vals(b, o), cell_vals(b, t), dir, k));
}

/// Every axis moves by `k` times its entry in `dir`.
pub open spec fn scaled_shift(a: Seq<u8>, c: Seq<u8>, dir: Seq<isize>, k: int) -> bool {
    forall|d: int| 0 <= d < dir.len() ==> #[trigger] shift(a, c, d) == dir[d] * k
}

/// A rook on cell `i` moves as a rook: every move generated for it changes exactly one
/// axis.
pub proof fn lemma_rook_moves_straight(b: Board, i: int, player: Player)
    requires
        b.wf(),
        0 <= i < b.total(),
    ensures
        forall|m: int|
            0 <= m < kind_moves(b, i, player, PieceType::Rook).len() ==> rook_line(
                (#[trigger] kind_moves(b, i, player, PieceType::Rook)[m]).0,
                kind_moves(b, i, player, PieceType::Rook)[m].1,
            ),
{
    let dim = b.geo.dimension as nat;
    let dirs = b.geo.cache.rook_directions@;
    assert forall|m: int|
        0 <= m < kind_moves(b, i, player, PieceType::Rook).len() implies rook_line(
            (#[trigger] kind_moves(b, i, player, PieceType::Rook)[m]).0,
            kind_moves(b, i, player, PieceType::Rook)[m].1,
        ) by {
        lemma_slider_move_reach(b, i, dirs, player, m);
        let (u, t) = choose|u: int, t: int|
            0 <= u < dirs.len() && #[trigger] reach(b, i, dirs[u].offsets@, t) && slider_moves(b, i, dirs, player)[m]
                == plain(b, i, t);
        let dir = dirs[u].offsets@;
        assert(dir == rook_dirs(dim)[u]);
        let p = u / 2;
        assert(dir == unit(dim, p, if u % 2 == 0 { 1isize } else { -1isize }));
        lemma_reach_shift(b, i, dir, t);
        let k = choose|k: int| k >= 1 && #[trigger] scaled_shift(cell_vals(b, i), cell_vals(b, t), dir, k);
        let a = cell_vals(b, i);
        let c = cell_vals(b, t);
        assert(shift(a, c, p) == dir[p] * k);
        assert(dir[p] * k != 0) by (nonlinear_arith)
            requires
                dir[p] == 1 || dir[p] == -1,
                k >= 1,
        ;
        assert forall|d: int| 0 <= d < a.len() && d != p implies #[trigger] shift(a, c, d) == 0 by {
            assert(dir[d] == 0);
            assert(shift(a, c, d) == dir[d] * k);
        }
    }
}

proof fn lemma_scaled_count(dir: Seq<isize>, s: Seq<int>, k: int)
    requires
        s.len() == dir.len(),
        k >= 1,
        forall|d: int| 0 <= d < s.len() ==> #[trigger] s[d] == dir[d] * k,
    ensures
        nonzero_ints(s) == nonzero_count(dir),
    decreases s.len(),
{
    if s.len() > 0 {
        let n = s.len() - 1;
        assert forall|d: int| 0 <= d < s.drop_last().len() implies #[trigger] s.drop_last()[d] == dir.drop_last()[d] * k by {
            assert(s[d] == dir[d] * k);
        }
        lemma_scaled_count(dir.drop_last(), s.drop_last(), k);
        assert(s[n] == dir[n] * k);
        assert((s[n] != 0) == (dir[n] != 0)) by (nonlinear_arith)
            requires
                s[n] == dir[n] * k,
                k >= 1,
        ;
    }
}

/// A bishop on cell `i` moves as a bishop: every move generated for it changes a non-zero,
/// even number of axes, each by the same amount.
pub proof fn lemma_bishop_moves_diagonal(b: Board, i: int, player: Player)
    requires
        b.wf(),
        0 <= i < b.total(),
    ensures
        forall|m: int|
            0 <= m < kind_moves(b, i, player, PieceType::Bishop).len() ==> bishop_line(
                (#[trigger] kind_moves(b, i, player, PieceType::Bishop)[m]).0,
                kind_moves(b, i, player, PieceType::Bishop)[m].1,
            ),
{
    let dim = b.geo.dimension as nat;
    let dirs = b.geo.cache.bishop_directions@;
    let pred = |v: Seq<isize>| is_bishop_dir(v);
    let steps = all_steps(dim);
    assert forall|m: int|
        0 <= m < kind_moves(b, i, player, PieceType::Bishop).len() implies bishop_line(
            (#[trigger] kind_moves(b, i, player, PieceType::Bishop)[m]).0,
            kind_moves(b, i, player, PieceType::Bishop)[m].1,
        ) by {
        lemma_slider_move_reach(b, i, dirs, player, m);
        let (u, t) = choose|u: int, t: int|
            0 <= u < dirs.len() && #[trigger] reach(b, i, dirs[u].offsets@, t) && slider_moves(b, i, dirs, player)[m]
                == plain(b, i, t);
        let dir = dirs[u].offsets@;
        assert(dir == steps.filter(pred)[u]);
        steps.lemma_filter_pred(pred, u);
        assert(steps.filter(pred).contains(dir));
        steps.lemma_filter_contains_rev(pred, dir);
        let q = choose|q: int| 0 <= q < steps.len() && steps[q] == dir;
        assert(dir.len() == dim);
        assert forall|d: int| 0 <= d < dim implies -1 <= #[trigger] dir[d] <= 1 by {
            assert(dir[d] == steps[q][d]);
        }
        lemma_reach_shift(b, i, dir, t);
        let k = choose|k: int| k >= 1 && #[trigger] scaled_shift(cell_vals(b, i), cell_vals(b, t), dir, k);
        let a = cell_vals(b, i);
        let c = cell_vals(b, t);
        assert forall|d: int| 0 <= d < shifts(a, c).len() implies #[trigger] shifts(a, c)[d] == dir[d] * k by {
            assert(shifts(a, c)[d] == shift(a, c, d));
        }
        lemma_scaled_count(dir, shifts(a, c), k);
        assert forall|d: int| 0 <= d < a.len() implies #[trigger] shift(a, c, d) == 0 || shift(a, c, d) == k
            || shift(a, c, d) == -k by {
            assert(shift(a, c, d) == dir[d] * k);
            assert(-1 <= dir[d] <= 1);
            assert(dir[d] * k == 0 || dir[d] * k == k || dir[d] * k == -k) by (nonlinear_arith)
                requires
                    -1 <= dir[d] <= 1,
            ;
        }
        assert(moves_by(a, c, k));
    }
}

} // verus!
