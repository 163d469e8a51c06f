//! Slider moves by parallel prefix fill (Kogge-Stone) over bitboards.
use vstd::prelude::*;
use crate::attacks::{on_ray, ray_cell, slider_dir, occupied, owned, lemma_cache_dirs_ok};
use crate::bitboard_large::BitBoardLarge;
use crate::board::Board;
use crate::geometry::{
    DirectionInfo, coords_of, ray_step_valid, stride_of, ray_coords, lemma_ray_cell, masks_ok,
    dirs_ok,
};
use crate::representation::{cell_count, lemma_cell_count_monotone};

verus! {

/// The masks of every step count of the direction: from cell `i`, `step` steps along it
/// stay on the board.
pub open spec fn dir_masks_ok(b: Board, di: DirectionInfo) -> bool {
    let side = b.geo.side as nat;
    let dim = b.geo.dimension as nat;
    let masks = b.geo.cache.validity_masks@;
    &&& di.id * side + side <= masks.len()
    &&& forall|step: int|
        0 <= step < side ==> {
            &&& (#[trigger] masks[di.id * side + step]).inv()
            &&& masks[di.id * side + step].words().len() * 64 >= b.total()
            &&& masks[di.id * side + step].words().len() * 64 < b.total() + 64
        }
    &&& forall|step: int, i: int|
        0 <= step < side ==> (#[trigger] masks[di.id * side + step].spec_has(i)) == (0 < step && 0
            <= i < b.total() && ray_step_valid(coords_of(i as nat, dim, side), di.offsets@, step, side as int))
    &&& di.stride == stride_of(di.offsets@, side, dim)
    &&& slider_dir(di.offsets@, dim)
}

/// Every rook and bishop direction of a well-formed board has its masks.
pub proof fn lemma_cache_dir_masks(b: Board)
    requires
        b.wf(),
        b.geo.side >= 2,
    ensures
        forall|t: int| 0 <= t < b.geo.cache.rook_directions.len() ==> dir_masks_ok(b, #[trigger] b.geo.cache.rook_directions@[t]),
        forall|t: int| 0 <= t < b.geo.cache.bishop_directions.len() ==> dir_masks_ok(b, #[trigger] b.geo.cache.bishop_directions@[t]),
{
    lemma_cache_dirs_ok(b);
    let side = b.geo.side as nat;
    let masks = b.geo.cache.validity_masks@;
    assert forall|t: int| 0 <= t < b.geo.cache.rook_directions.len() implies dir_masks_ok(b, #[trigger] b.geo.cache.rook_directions@[t]) by {
        let di = b.geo.cache.rook_directions@[t];
        assert forall|step: int| 0 <= step < side implies {
            &&& (#[trigger] masks[di.id * side + step]).inv()
            &&& masks[di.id * side + step].words().len() * 64 >= b.total()
            &&& masks[di.id * side + step].words().len() * 64 < b.total() + 64
        } by {
            assert(masks[b.geo.cache.rook_directions@[t].id * side + step].inv());
        }
    }
    assert forall|t: int| 0 <= t < b.geo.cache.bishop_directions.len() implies dir_masks_ok(b, #[trigger] b.geo.cache.bishop_directions@[t]) by {
        let di = b.geo.cache.bishop_directions@[t];
        assert forall|step: int| 0 <= step < side implies {
            &&& (#[trigger] masks[di.id * side + step]).inv()
            &&& masks[di.id * side + step].words().len() * 64 >= b.total()
            &&& masks[di.id * side + step].words().len() * 64 < b.total() + 64
        } by {
            assert(masks[b.geo.cache.bishop_directions@[t].id * side + step].inv());
        }
    }
}

/// Going `k1` steps and then `k2` steps along a direction is going `k1 + k2` steps.
pub proof fn lemma_ray_compose(b: Board, x: int, dir: Seq<isize>, k1: int, k2: int)
    requires
        b.wf(),
        0 <= x < b.total(),
        dir.len() == b.geo.dimension,
        on_ray(b, x, dir, k1),
    ensures
        0 <= ray_cell(b, x, dir, k1) < b.total(),
        on_ray(b, ray_cell(b, x, dir, k1), dir, k2) == on_ray(b, x, dir, k1 + k2),
        ray_cell(b, ray_cell(b, x, dir, k1), dir, k2) == ray_cell(b, x, dir, k1 + k2),
{
    let side = b.geo.side as nat;
    let dim = b.geo.dimension as nat;
    let c = coords_of(x as nat, dim, side);
    lemma_ray_cell(x as nat, dim, side, dir, k1);
    let y = ray_cell(b, x, dir, k1);
    let cy = coords_of(y as nat, dim, side);
    assert(cy == ray_coords(c, dir, k1));
    assert forall|d: int| 0 <= d < c.len() implies #[trigger] cy[d] + dir[d] * k2 == c[d] + dir[d] * (k1 + k2) by {
        assert(0 <= c[d] + dir[d] * k1 < side);
        assert(cy[d] == c[d] + dir[d] * k1);
        assert(dir[d] * (k1 + k2) == dir[d] * k1 + dir[d] * k2) by (nonlinear_arith);
    }
    assert(cy.len() == c.len());
    if on_ray(b, y, dir, k2) {
        assert forall|d: int| 0 <= d < c.len() && d < dir.len() implies 0 <= #[trigger] c[d] + dir[d] * (k1 + k2) < side by {
            assert(0 <= cy[d] + dir[d] * k2 < side);
            assert(cy[d] + dir[d] * k2 == c[d] + dir[d] * (k1 + k2));
        }
    }
    if on_ray(b, x, dir, k1 + k2) {
        assert forall|d: int| 0 <= d < cy.len() && d < dir.len() implies 0 <= #[trigger] cy[d] + dir[d] * k2 < side by {
            assert(0 <= c[d] + dir[d] * (k1 + k2) < side);
            assert(cy[d] + dir[d] * k2 == c[d] + dir[d] * (k1 + k2));
        }
    }
    let s = stride_of(dir, side, dim);
    assert(y + k2 * s == x + (k1 + k2) * s) by (nonlinear_arith)
        requires
            y == x + k1 * s,
    ;
}

/// Cell `i` is `k` steps along `dir` from a cell of `g0`, the `k` cells after that cell
/// being in `p0`.
pub open spec fn ks_reach(b: Board, g0: BitBoardLarge, p0: BitBoardLarge, dir: Seq<isize>, i: int, k: int) -> bool {
    exists|x: int|
        #[trigger] g0.spec_has(x) && i == ray_cell(b, x, dir, k) && on_ray(b, x, dir, k) && forall|m: int|
            1 <= m <= k ==> p0.spec_has(#[trigger] ray_cell(b, x, dir, m))
}

/// The generator set after filling runs of fewer than `s` steps.
pub open spec fn ks_g(b: Board, g0: BitBoardLarge, p0: BitBoardLarge, dir: Seq<isize>, s: int, i: int) -> bool {
    exists|k: int| 0 <= k < s && #[trigger] ks_reach(b, g0, p0, dir, i, k)
}

/// The propagator set after filling runs of `s` steps: the cell and the `s - 1` cells before
/// it along `dir` are on the board and in `p0`.
pub open spec fn ks_p(b: Board, p0: BitBoardLarge, dir: Seq<isize>, s: int, i: int) -> bool {
    &&& 0 <= i < b.total()
    &&& forall|j: int| 0 <= j < s ==> #[trigger] back_free(b, p0, dir, i, j)
}

/// `j` steps back from cell `i` stay on the board and reach a cell of `p0`.
pub open spec fn back_free(b: Board, p0: BitBoardLarge, dir: Seq<isize>, i: int, j: int) -> bool {
    on_ray(b, i, dir, -j) && p0.spec_has(back_cell(b, i, dir, j))
}

/// Zero steps along any direction stay on the board.
pub proof fn lemma_on_ray_zero(b: Board, i: int, dir: Seq<isize>)
    requires
        b.wf(),
        0 <= i < b.total(),
    ensures
        on_ray(b, i, dir, 0),
{
    let side = b.geo.side as nat;
    let c = coords_of(i as nat, b.geo.dimension as nat, side);
    assert forall|d: int| 0 <= d < c.len() && d < dir.len() implies 0 <= #[trigger] c[d] + dir[d] * 0 < side by {
        crate::geometry::lemma_cell_count_pos(side, d as nat);
        assert(((i as nat) / cell_count(side, d as nat)) % side < side);
        assert(dir[d] * 0 == 0);
    }
}

/// A ray that reaches `k` steps reaches every step count between zero and `k`.
pub proof fn lemma_on_ray_prefix(b: Board, x: int, dir: Seq<isize>, j: int, k: int)
    requires
        b.wf(),
        0 <= x < b.total(),
        slider_dir(dir, b.geo.dimension as nat),
        on_ray(b, x, dir, k),
        0 <= j <= k || k <= j <= 0,
    ensures
        on_ray(b, x, dir, j),
{
    let side = b.geo.side as nat;
    let dim = b.geo.dimension as nat;
    let c = coords_of(x as nat, dim, side);
    lemma_on_ray_zero(b, x, dir);
    assert forall|d: int| 0 <= d < c.len() && d < dir.len() implies 0 <= #[trigger] c[d] + dir[d] * j < side by {
        assert(0 <= c[d] + dir[d] * k < side);
        assert(0 <= c[d] + dir[d] * 0 < side);
        if dir[d] == 1 {
            assert(dir[d] * k == k);
            assert(dir[d] * j == j);
        } else if dir[d] == -1 {
            assert(dir[d] * k == -k) by (nonlinear_arith)
                requires
                    dir[d] == -1,
            ;
            assert(dir[d] * j == -j) by (nonlinear_arith)
                requires
                    dir[d] == -1,
            ;
        } else {
            assert(dir[d] == 0);
            assert(dir[d] * j == 0);
        }
    }
}

/// The cell `s` steps back from `i` (meaningful when that stays on the board).
pub open spec fn back_cell(b: Board, i: int, dir: Seq<isize>, s: int) -> int {
    ray_cell(b, i, dir, -s)
}

/// A cell from which `s` steps along the direction stay on the board.
pub open spec fn can_step(b: Board, x: int, dir: Seq<isize>, s: int) -> bool {
    0 <= x < b.total() && on_ray(b, x, dir, s)
}

/// One doubling round of the generator set: runs of fewer than `2s` steps are those of
/// fewer than `s` steps, and the cells `s` steps past such a run whose `s` cells before
/// them are free.
pub proof fn lemma_ks_g_step(b: Board, g0: BitBoardLarge, p0: BitBoardLarge, dir: Seq<isize>, s: int, i: int)
    requires
        b.wf(),
        slider_dir(dir, b.geo.dimension as nat),
        s >= 1,
        forall|x: int| #[trigger] g0.spec_has(x) ==> 0 <= x < b.total(),
    ensures
        ks_g(b, g0, p0, dir, 2 * s, i) == (ks_g(b, g0, p0, dir, s, i) || (ks_g(
            b,
            g0,
            p0,
            dir,
            s,
            back_cell(b, i, dir, s),
        ) && can_step(b, back_cell(b, i, dir, s), dir, s) && ks_p(b, p0, dir, s, i))),
{
    let z = back_cell(b, i, dir, s);
    let st = stride_of(dir, b.geo.side as nat, b.geo.dimension as nat);
    if ks_g(b, g0, p0, dir, 2 * s, i) && !ks_g(b, g0, p0, dir, s, i) {
        let k = choose|k: int| 0 <= k < 2 * s && #[trigger] ks_reach(b, g0, p0, dir, i, k);
        let x = choose|x: int|
            #[trigger] g0.spec_has(x) && i == ray_cell(b, x, dir, k) && on_ray(b, x, dir, k) && forall|m: int|
                1 <= m <= k ==> p0.spec_has(#[trigger] ray_cell(b, x, dir, m));
        if k < s {
            assert(ks_reach(b, g0, p0, dir, i, k));
            assert(false);
        } else {
            let kp = k - s;
            lemma_on_ray_prefix(b, x, dir, kp, k);
            assert(ray_cell(b, x, dir, kp) == z) by (nonlinear_arith)
                requires
                    i == x + k * st,
                    z == i + (-s) * st,
                    ray_cell(b, x, dir, kp) == x + kp * st,
                    kp == k - s,
            ;
            assert(ks_reach(b, g0, p0, dir, z, kp));
            assert(ks_g(b, g0, p0, dir, s, z));
            lemma_ray_compose(b, x, dir, kp, s);
            assert(can_step(b, z, dir, s));
            lemma_ray_compose(b, x, dir, k, 0);
            assert forall|j: int| 0 <= j < s implies #[trigger] back_free(b, p0, dir, i, j) by {
                lemma_ray_compose(b, x, dir, k, -j);
                lemma_on_ray_prefix(b, x, dir, k - j, k);
                assert(1 <= k - j <= k);
                assert(p0.spec_has(ray_cell(b, x, dir, k - j)));
                assert(back_cell(b, i, dir, j) == ray_cell(b, ray_cell(b, x, dir, k), dir, -j));
            }
            assert(ks_p(b, p0, dir, s, i));
        }
    }
    if !ks_g(b, g0, p0, dir, s, i) && ks_g(b, g0, p0, dir, s, z) && can_step(b, z, dir, s) && ks_p(b, p0, dir, s, i) {
        let kp = choose|k: int| 0 <= k < s && #[trigger] ks_reach(b, g0, p0, dir, z, k);
        let x = choose|x: int|
            #[trigger] g0.spec_has(x) && z == ray_cell(b, x, dir, kp) && on_ray(b, x, dir, kp) && forall|m: int|
                1 <= m <= kp ==> p0.spec_has(#[trigger] ray_cell(b, x, dir, m));
        lemma_ray_compose(b, x, dir, kp, s);
        let k = kp + s;
        assert(ray_cell(b, z, dir, s) == i) by (nonlinear_arith)
            requires
                z == i + (-s) * st,
                ray_cell(b, z, dir, s) == z + s * st,
        ;
        assert forall|m: int| 1 <= m <= k implies p0.spec_has(#[trigger] ray_cell(b, x, dir, m)) by {
            if m > kp {
                let j = k - m;
                lemma_ks_p_at(b, p0, dir, s, i, j);
                assert(back_cell(b, i, dir, j) == ray_cell(b, x, dir, m)) by (nonlinear_arith)
                    requires
                        i == x + k * st,
                        back_cell(b, i, dir, j) == i + (-j) * st,
                        ray_cell(b, x, dir, m) == x + m * st,
                        j == k - m,
                ;
            }
        }
        assert(ks_reach(b, g0, p0, dir, i, k));
    }
}

/// A cell of the propagator set has each of its `s` cells back on the board and free.
proof fn lemma_ks_p_at(b: Board, p0: BitBoardLarge, dir: Seq<isize>, s: int, i: int, j: int)
    requires
        ks_p(b, p0, dir, s, i),
        0 <= j < s,
    ensures
        on_ray(b, i, dir, -j),
        p0.spec_has(back_cell(b, i, dir, j)),
{
    assert(back_free(b, p0, dir, i, j));
}

/// One doubling round of the propagator set: a cell has its `2s` cells back free when it has
/// its `s` cells back free and so has the cell `s` steps back.
pub proof fn lemma_ks_p_step(b: Board, p0: BitBoardLarge, dir: Seq<isize>, s: int, i: int)
    requires
        b.wf(),
        slider_dir(dir, b.geo.dimension as nat),
        s >= 1,
    ensures
        ks_p(b, p0, dir, 2 * s, i) == (ks_p(b, p0, dir, s, i) && ks_p(b, p0, dir, s, back_cell(b, i, dir, s))
            && can_step(b, back_cell(b, i, dir, s), dir, s)),
{
    let z = back_cell(b, i, dir, s);
    let st = stride_of(dir, b.geo.side as nat, b.geo.dimension as nat);
    if ks_p(b, p0, dir, 2 * s, i) {
        lemma_ks_p_at(b, p0, dir, 2 * s, i, s);
        lemma_ray_compose(b, i, dir, -s, s);
        lemma_on_ray_zero(b, i, dir);
        assert(ray_cell(b, i, dir, 0) == i) by (nonlinear_arith)
            requires
                ray_cell(b, i, dir, 0) == i + 0 * st,
        ;
        assert forall|j: int| 0 <= j < s implies #[trigger] back_free(b, p0, dir, z, j) by {
            lemma_ray_compose(b, i, dir, -s, -j);
            lemma_ks_p_at(b, p0, dir, 2 * s, i, s + j);
            assert(back_cell(b, z, dir, j) == back_cell(b, i, dir, s + j));
        }
        assert forall|j: int| 0 <= j < s implies #[trigger] back_free(b, p0, dir, i, j) by {
            lemma_ks_p_at(b, p0, dir, 2 * s, i, j);
        }
        assert(ks_p(b, p0, dir, s, i));
        assert(ks_p(b, p0, dir, s, z));
    }
    if ks_p(b, p0, dir, s, i) && ks_p(b, p0, dir, s, z) && can_step(b, z, dir, s) {
        lemma_ray_compose(b, z, dir, s, 0);
        assert(ray_cell(b, z, dir, s) == i) by (nonlinear_arith)
            requires
                z == i + (-s) * st,
                ray_cell(b, z, dir, s) == z + s * st,
        ;
        assert forall|j: int| 0 <= j < 2 * s implies #[trigger] back_free(b, p0, dir, i, j) by {
            if j >= s {
                let jp = j - s;
                lemma_ray_compose(b, z, dir, s, -j);
                lemma_ks_p_at(b, p0, dir, s, z, jp);
                assert(s + (-j) == -jp);
                assert(back_cell(b, i, dir, j) == back_cell(b, z, dir, jp));
            } else {
                lemma_ks_p_at(b, p0, dir, s, i, j);
            }
        }
        assert(ks_p(b, p0, dir, 2 * s, i));
    }
}

/// The strides of slider directions are smaller than the board.
pub proof fn lemma_stride_bound(dir: Seq<isize>, side: nat, n: nat)
    requires
        side >= 2,
        n <= dir.len(),
        forall|k: int| 0 <= k < n ==> -1 <= #[trigger] dir[k] <= 1,
    ensures
        -(cell_count(side, n) as int) < stride_of(dir, side, n) < cell_count(side, n),
    decreases n,
{
    if n > 0 {
        lemma_stride_bound(dir, side, (n - 1) as nat);
        let c = cell_count(side, (n - 1) as nat);
        let d = dir[n - 1] as int;
        assert(-1 <= d <= 1);
        assert(-c <= d * c <= c) by (nonlinear_arith)
            requires
                -1 <= d <= 1,
                c >= 0,
        ;
        assert(2 * c <= side * c) by (nonlinear_arith)
            requires
                side >= 2,
                c >= 0,
        ;
    }
}

/// The cells reached from a generator cell through cells of `p0`, one or more steps along
/// `dir`, the first cell outside `p0` included.
pub open spec fn ks_final(b: Board, g0: BitBoardLarge, p0: BitBoardLarge, dir: Seq<isize>, i: int) -> bool {
    exists|x: int, k: int|
        #![trigger g0.spec_has(x), ray_cell(b, x, dir, k)]
        g0.spec_has(x) && 1 <= k && i == ray_cell(b, x, dir, k) && on_ray(b, x, dir, k) && forall|m: int|
            1 <= m < k ==> p0.spec_has(#[trigger] ray_cell(b, x, dir, m))
}

/// Once the runs cover the longest ray, the fill moved one step is `ks_final`.
pub proof fn lemma_ks_final(b: Board, g0: BitBoardLarge, p0: BitBoardLarge, dir: Seq<isize>, s: int, i: int)
    requires
        b.wf(),
        slider_dir(dir, b.geo.dimension as nat),
        s >= b.geo.side,
        forall|x: int| #[trigger] g0.spec_has(x) ==> 0 <= x < b.total(),
    ensures
        (ks_g(b, g0, p0, dir, s, back_cell(b, i, dir, 1)) && can_step(b, back_cell(b, i, dir, 1), dir, 1))
            == ks_final(b, g0, p0, dir, i),
{
    let z = back_cell(b, i, dir, 1);
    let st = stride_of(dir, b.geo.side as nat, b.geo.dimension as nat);
    let side = b.geo.side as nat;
    let dim = b.geo.dimension as nat;
    if ks_g(b, g0, p0, dir, s, z) && can_step(b, z, dir, 1) {
        let k = choose|k: int| 0 <= k < s && #[trigger] ks_reach(b, g0, p0, dir, z, k);
        let x = choose|x: int|
            #[trigger] g0.spec_has(x) && z == ray_cell(b, x, dir, k) && on_ray(b, x, dir, k) && forall|m: int|
                1 <= m <= k ==> p0.spec_has(#[trigger] ray_cell(b, x, dir, m));
        lemma_ray_compose(b, x, dir, k, 1);
        assert(ray_cell(b, z, dir, 1) == i) by (nonlinear_arith)
            requires
                z == i + (-1) * st,
                ray_cell(b, z, dir, 1) == z + 1 * st,
        ;
        assert(g0.spec_has(x) && 1 <= k + 1 && i == ray_cell(b, x, dir, k + 1) && on_ray(b, x, dir, k + 1));
        assert(forall|m: int| 1 <= m < k + 1 ==> p0.spec_has(#[trigger] ray_cell(b, x, dir, m)));
    }
    if ks_final(b, g0, p0, dir, i) {
        let (x, k) = choose|x: int, k: int|
            #![trigger g0.spec_has(x), ray_cell(b, x, dir, k)]
            g0.spec_has(x) && 1 <= k && i == ray_cell(b, x, dir, k) && on_ray(b, x, dir, k) && forall|m: int|
                1 <= m < k ==> p0.spec_has(#[trigger] ray_cell(b, x, dir, m));
        let c = coords_of(x as nat, dim, side);
        crate::board::lemma_coords_index_inverse(dim, side, x as nat, c);
        crate::attacks::lemma_ray_short(c, dir, dim, side as int, k);
        lemma_on_ray_prefix(b, x, dir, k - 1, k);
        let zz = ray_cell(b, x, dir, k - 1);
        lemma_ray_compose(b, x, dir, k - 1, 1);
        assert(zz == z) by (nonlinear_arith)
            requires
                i == x + k * st,
                z == i + (-1) * st,
                zz == x + (k - 1) * st,
        ;
        assert(ks_reach(b, g0, p0, dir, z, k - 1));
        assert(ks_g(b, g0, p0, dir, s, z));
    }
}

/// Fills, along the direction of `dir_info`, the runs of cells of `p` that start next to a
/// cell of `g`, then moves the fill one step: `g` becomes the cells one or more steps from a
/// cell of `g` with every cell before them in `p` (see `ks_final`).
pub fn kogge_stone_fill_inplace(
    g: &mut BitBoardLarge,
    p: &mut BitBoardLarge,
    stride: isize,
    board: &Board,
    dir_info: &DirectionInfo,
    shifted_g: &mut BitBoardLarge,
    shifted_p: &mut BitBoardLarge,
)
    requires
        board.wf(),
        board.geo.side >= 2,
        dir_masks_ok(*board, *dir_info),
        stride == dir_info.stride,
        old(g).inv(),
        old(p).inv(),
        old(shifted_g).inv(),
        old(shifted_p).inv(),
        board.total() <= old(g).words().len() * 64 < board.total() + 64,
        board.total() <= old(p).words().len() * 64 < board.total() + 64,
        board.total() <= old(shifted_g).words().len() * 64 < board.total() + 64,
        board.total() <= old(shifted_p).words().len() * 64 < board.total() + 64,
        forall|x: int| #[trigger] old(g).spec_has(x) ==> 0 <= x < board.total(),
        forall|x: int| #[trigger] old(p).spec_has(x) ==> 0 <= x < board.total(),
    ensures
        final(g).inv(),
        final(p).inv(),
        final(shifted_g).inv(),
        final(shifted_p).inv(),
        final(g).words().len() == old(g).words().len(),
        final(p).words().len() == old(p).words().len(),
        final(shifted_g).words().len() == old(shifted_g).words().len(),
        final(shifted_p).words().len() == old(shifted_p).words().len(),
        forall|i: int| #[trigger] final(g).spec_has(i) == ks_final(*board, *old(g), *old(p), dir_info.offsets@, i),
{
    let ghost g0 = *g;
    let ghost p0 = *p;
    let ghost dir = dir_info.offsets@;
    let ghost total = board.total() as int;
    let side = board.geo.side;
    assert(dir_info.id * side + side <= board.geo.cache.validity_masks.len());
    assert(dir_info.id * side <= usize::MAX) by (nonlinear_arith)
        requires
            dir_info.id * side + side <= board.geo.cache.validity_masks.len(),
            board.geo.cache.validity_masks.len() <= usize::MAX,
            side >= 2,
    ;
    let mask_base_idx = dir_info.id * side;
    proof {
        lemma_stride_bound(dir, side as nat, board.geo.dimension as nat);
        assert forall|i: int| #[trigger] g.spec_has(i) == ks_g(*board, g0, p0, dir, 1, i) by {
            if g.spec_has(i) {
                lemma_on_ray_zero(*board, i, dir);
                assert(ray_cell(*board, i, dir, 0) == i);
                assert(ks_reach(*board, g0, p0, dir, i, 0));
            }
            if ks_g(*board, g0, p0, dir, 1, i) {
                let k = choose|k: int| 0 <= k < 1 && #[trigger] ks_reach(*board, g0, p0, dir, i, k);
                assert(k == 0);
            }
        }
        assert forall|i: int| #[trigger] p.spec_has(i) == ks_p(*board, p0, dir, 1, i) by {
            if p.spec_has(i) {
                lemma_on_ray_zero(*board, i, dir);
                assert(back_cell(*board, i, dir, 0) == i);
                assert forall|j: int| 0 <= j < 1 implies #[trigger] back_free(*board, p0, dir, i, j) by {
                    assert(j == 0);
                }
            }
            if ks_p(*board, p0, dir, 1, i) {
                assert(back_free(*board, p0, dir, i, 0));
                assert(back_cell(*board, i, dir, 0) == i);
            }
        }
    }
    let abs_stride: usize = if stride > 0 {
        stride as usize
    } else {
        (-stride) as usize
    };
    let mut shift_amt: usize = 1;
    while shift_amt < side
        invariant
            board.wf(),
            side == board.geo.side,
            side >= 2,
            dir_masks_ok(*board, *dir_info),
            dir == dir_info.offsets@,
            stride == dir_info.stride,
            mask_base_idx == dir_info.id * side,
            mask_base_idx + side <= board.geo.cache.validity_masks.len(),
            abs_stride as int == if stride > 0 { stride as int } else { -stride },
            abs_stride < board.total(),
            total == board.total(),
            1 <= shift_amt < 2 * side,
            g.inv(),
            p.inv(),
            shifted_g.inv(),
            shifted_p.inv(),
            g.words().len() == old(g).words().len(),
            p.words().len() == old(p).words().len(),
            shifted_g.words().len() == old(shifted_g).words().len(),
            shifted_p.words().len() == old(shifted_p).words().len(),
            total <= g.words().len() * 64 < total + 64,
            total <= p.words().len() * 64 < total + 64,
            total <= shifted_g.words().len() * 64 < total + 64,
            total <= shifted_p.words().len() * 64 < total + 64,
            forall|x: int| #[trigger] g0.spec_has(x) ==> 0 <= x < total,
            forall|i: int| #[trigger] g.spec_has(i) == ks_g(*board, g0, p0, dir, shift_amt as int, i),
            forall|i: int| #[trigger] p.spec_has(i) == ks_p(*board, p0, dir, shift_amt as int, i),
        decreases 2 * side - shift_amt,
    {
        let s = shift_amt;
        let mask = &board.geo.cache.validity_masks[mask_base_idx + s];
        assert(abs_stride * s <= total * 512) by (nonlinear_arith)
            requires
                abs_stride < total,
                s < 512,
        ;
        let total_shift = abs_stride * s;
        let ghost gs = *g;
        let ghost ps = *p;
        proof {
            assert(*mask == board.geo.cache.validity_masks@[dir_info.id * side + s]);
            assert forall|x: int| #[trigger] mask.spec_has(x) == can_step(*board, x, dir, s as int) by {
                assert(board.geo.cache.validity_masks@[dir_info.id * side + s].spec_has(x) == (0 < s && 0 <= x < board.total() && ray_step_valid(coords_of(x as nat, board.geo.dimension as nat, side as nat), dir_info.offsets@, s as int, side as int)));
            }
        }
        if stride > 0 {
            shifted_g.copy_and_shl(g, mask, total_shift);
            shifted_p.copy_and_shl(p, mask, total_shift);
        } else {
            shifted_g.copy_and_shr(g, mask, total_shift);
            shifted_p.copy_and_shr(p, mask, total_shift);
        }
        proof {
            assert forall|i: int| #[trigger] shifted_g.spec_has(i) == (ks_g(*board, g0, p0, dir, s as int, back_cell(*board, i, dir, s as int))
                && can_step(*board, back_cell(*board, i, dir, s as int), dir, s as int)) by {
                let z = back_cell(*board, i, dir, s as int);
                assert(z == i - stride * s) by (nonlinear_arith)
                    requires
                        z == i + (-(s as int)) * stride_of(dir, side as nat, board.geo.dimension as nat),
                        stride == stride_of(dir, side as nat, board.geo.dimension as nat),
                ;
                assert(gs.spec_has(z) == ks_g(*board, g0, p0, dir, s as int, z));
                assert(mask.spec_has(z) == can_step(*board, z, dir, s as int));
                if stride > 0 {
                    assert(total_shift == stride * s);
                    assert(i - total_shift == z);
                    assert(shifted_g.spec_has(i) == (0 <= i < old(shifted_g).words().len() * 64 && i >= total_shift && gs.spec_has(z) && mask.spec_has(z)));
                } else {
                    assert(total_shift == -stride * s);
                    assert(i + total_shift == z) by (nonlinear_arith)
                        requires
                            total_shift == -stride * s,
                            z == i - stride * s,
                    ;
                    assert(shifted_g.spec_has(i) == (0 <= i < old(shifted_g).words().len() * 64 && gs.spec_has(z) && mask.spec_has(z)));
                }
                if ks_g(*board, g0, p0, dir, s as int, z) && can_step(*board, z, dir, s as int) {
                    lemma_ray_compose(*board, z, dir, s as int, 0);
                    assert(ray_cell(*board, z, dir, s as int) == i) by (nonlinear_arith)
                        requires
                            z == i - stride * s,
                            ray_cell(*board, z, dir, s as int) == z + s * stride_of(dir, side as nat, board.geo.dimension as nat),
                            stride == stride_of(dir, side as nat, board.geo.dimension as nat),
                    ;
                }
            }
            assert forall|i: int| #[trigger] shifted_p.spec_has(i) == (ks_p(*board, p0, dir, s as int, back_cell(*board, i, dir, s as int))
                && can_step(*board, back_cell(*board, i, dir, s as int), dir, s as int)) by {
                let z = back_cell(*board, i, dir, s as int);
                assert(z == i - stride * s) by (nonlinear_arith)
                    requires
                        z == i + (-(s as int)) * stride_of(dir, side as nat, board.geo.dimension as nat),
                        stride == stride_of(dir, side as nat, board.geo.dimension as nat),
                ;
                assert(ps.spec_has(z) == ks_p(*board, p0, dir, s as int, z));
                assert(mask.spec_has(z) == can_step(*board, z, dir, s as int));
                if stride > 0 {
                    assert(total_shift == stride * s);
                    assert(i - total_shift == z);
                    assert(shifted_p.spec_has(i) == (0 <= i < old(shifted_p).words().len() * 64 && i >= total_shift && ps.spec_has(z) && mask.spec_has(z)));
                } else {
                    assert(total_shift == -stride * s);
                    assert(i + total_shift == z) by (nonlinear_arith)
                        requires
                            total_shift == -stride * s,
                            z == i - stride * s,
                    ;
                    assert(shifted_p.spec_has(i) == (0 <= i < old(shifted_p).words().len() * 64 && ps.spec_has(z) && mask.spec_has(z)));
                }
                if ks_p(*board, p0, dir, s as int, z) && can_step(*board, z, dir, s as int) {
                    lemma_ray_compose(*board, z, dir, s as int, 0);
                    assert(ray_cell(*board, z, dir, s as int) == i) by (nonlinear_arith)
                        requires
                            z == i - stride * s,
                            ray_cell(*board, z, dir, s as int) == z + s * stride_of(dir, side as nat, board.geo.dimension as nat),
                            stride == stride_of(dir, side as nat, board.geo.dimension as nat),
                    ;
                }
            }
        }
        g.or_and_assign(shifted_g, p);
        p.bitand_assign(shifted_p);
        proof {
            assert forall|i: int| #[trigger] g.spec_has(i) == ks_g(*board, g0, p0, dir, 2 * s as int, i) by {
                lemma_ks_g_step(*board, g0, p0, dir, s as int, i);
            }
            assert forall|i: int| #[trigger] p.spec_has(i) == ks_p(*board, p0, dir, 2 * s as int, i) by {
                lemma_ks_p_step(*board, p0, dir, s as int, i);
            }
        }
        shift_amt = shift_amt * 2;
    }
    let mask = &board.geo.cache.validity_masks[mask_base_idx + 1];
    proof {
        assert(*mask == board.geo.cache.validity_masks@[dir_info.id * side + 1]);
        assert forall|x: int| #[trigger] mask.spec_has(x) == can_step(*board, x, dir, 1) by {
            assert(board.geo.cache.validity_masks@[dir_info.id * side + 1].spec_has(x) == (0 < 1 && 0 <= x < board.total() && ray_step_valid(coords_of(x as nat, board.geo.dimension as nat, side as nat), dir_info.offsets@, 1, side as int)));
        }
    }
    g.bitand_assign(mask);
    let ghost gm = *g;
    if stride > 0 {
        g.shl_assign(abs_stride);
    } else {
        g.shr_assign(abs_stride);
    }
    proof {
        assert forall|i: int| #[trigger] g.spec_has(i) == ks_final(*board, g0, p0, dir, i) by {
            let z = back_cell(*board, i, dir, 1);
            assert(z == i - stride) by (nonlinear_arith)
                requires
                    z == i + (-1) * stride_of(dir, side as nat, board.geo.dimension as nat),
                    stride == stride_of(dir, side as nat, board.geo.dimension as nat),
            ;
            lemma_ks_final(*board, g0, p0, dir, shift_amt as int, i);
            if ks_g(*board, g0, p0, dir, shift_amt as int, z) && can_step(*board, z, dir, 1) {
                lemma_ray_compose(*board, z, dir, 1, 0);
                assert(ray_cell(*board, z, dir, 1) == i) by (nonlinear_arith)
                    requires
                        z == i - stride,
                        ray_cell(*board, z, dir, 1) == z + 1 * stride_of(dir, side as nat, board.geo.dimension as nat),
                        stride == stride_of(dir, side as nat, board.geo.dimension as nat),
                ;
            }
        }
    }
}

/// The cells below `n` satisfying `pred`, in increasing order.
pub open spec fn sorted_cells(pred: spec_fn(int) -> bool, n: nat) -> Seq<usize>
    decreases n,
{
    if n == 0 {
        Seq::empty()
    } else {
        sorted_cells(pred, (n - 1) as nat) + if pred(n - 1) {
            seq![(n - 1) as usize]
        } else {
            Seq::empty()
        }
    }
}

/// A strictly increasing list of the cells below `n` satisfying `pred`, holding each of
/// them, is `sorted_cells(pred, n)`.
pub proof fn lemma_sorted_cells(r: Seq<usize>, pred: spec_fn(int) -> bool, n: nat)
    requires
        n <= usize::MAX + 1,
        forall|j: int| 0 <= j < r.len() ==> (#[trigger] r[j] as int) < n && pred(r[j] as int),
        forall|j: int, k: int| 0 <= j < k < r.len() ==> r[j] < r[k],
        forall|i: int| 0 <= i < n && #[trigger] pred(i) ==> r.contains(i as usize),
    ensures
        r == sorted_cells(pred, n),
    decreases n,
{
    if n == 0 {
        if r.len() > 0 {
            assert((r[0] as int) < 0);
        }
        assert(r =~= Seq::<usize>::empty());
    } else {
        let m = (n - 1) as int;
        if pred(m) {
            assert(r.contains(m as usize));
            let p = choose|p: int| 0 <= p < r.len() && r[p] == m as usize;
            if p < r.len() - 1 {
                assert(r[p] < r[r.len() - 1]);
                assert((r[r.len() - 1] as int) < n);
            }
            let r1 = r.drop_last();
            assert forall|i: int| 0 <= i < m && #[trigger] pred(i) implies r1.contains(i as usize) by {
                assert(r.contains(i as usize));
                let q = choose|q: int| 0 <= q < r.len() && r[q] == i as usize;
                assert(q != r.len() - 1);
                assert(r1[q] == i as usize);
            }
            assert forall|j: int| 0 <= j < r1.len() implies (#[trigger] r1[j] as int) < m && pred(r1[j] as int) by {
                assert(r1[j] == r[j]);
                assert(r[j] < r[r.len() - 1]);
            }
            lemma_sorted_cells(r1, pred, m as nat);
            assert(r =~= r1.push(m as usize));
        } else {
            assert forall|j: int| 0 <= j < r.len() implies (#[trigger] r[j] as int) < m && pred(r[j] as int) by {
                assert(pred(r[j] as int));
            }
            lemma_sorted_cells(r, pred, m as nat);
            assert(sorted_cells(pred, n) =~= sorted_cells(pred, m as nat));
        }
    }
}

/// Past the last cell satisfying `pred`, the sorted list stops growing.
pub proof fn lemma_sorted_cells_stop(pred: spec_fn(int) -> bool, lo: nat, n: nat)
    requires
        lo <= n,
        forall|i: int| lo <= i < n ==> !#[trigger] pred(i),
    ensures
        sorted_cells(pred, n) == sorted_cells(pred, lo),
    decreases n,
{
    if n > lo {
        lemma_sorted_cells_stop(pred, lo, (n - 1) as nat);
        assert(!pred(n - 1));
        assert(sorted_cells(pred, n) =~= sorted_cells(pred, (n - 1) as nat));
    }
}

} // verus!
