//! Immutable board topology: sizes, cell coordinates, direction data, ray validity masks
//! and precomputed leaper targets.
use vstd::prelude::*;
use crate::bitboard_large::BitBoardLarge;
use crate::calculators::{
    get_bishop_directions_calc, get_king_offsets_calc, get_knight_offsets_calc,
    get_pawn_capture_offsets_calc, get_rook_directions_calc, pow3, view_dirs, all_steps,
    is_bishop_dir, is_king_step, rook_dirs, knight_offsets, pawn_capture_offsets, vecs_shaped,
    lemma_steps_filter_shaped, lemma_rook_shaped, lemma_pawn_shaped, lemma_knight_shaped,
};
use crate::inline::{CoordVals, Targets};
use crate::models::Player;
use crate::representation::{cell_count, total_cells_of, lemma_cell_count_monotone};

verus! {

/// The coordinates of cell `i`: digit `d` of `i` in base `side`, least significant first.
pub open spec fn coords_of(i: nat, dim: nat, side: nat) -> Seq<u8> {
    Seq::new(dim, |d: int| ((i / cell_count(side, d as nat)) % side) as u8)
}

/// The cell of a coordinate: `sum of vals[d] * side^d`.
pub open spec fn index_of(vals: Seq<u8>, side: nat) -> nat
    decreases vals.len(),
{
    if vals.len() == 0 {
        0
    } else {
        index_of(vals.drop_last(), side) + vals.last() as nat * cell_count(
            side,
            (vals.len() - 1) as nat,
        )
    }
}

/// Every value of the coordinate is below `side`.
pub open spec fn in_bounds(vals: Seq<u8>, side: nat) -> bool {
    forall|d: int| 0 <= d < vals.len() ==> (#[trigger] vals[d] as nat) < side
}

/// Every value of the coordinate stays on the board after `step` steps along `dir`.
pub open spec fn ray_step_valid(vals: Seq<u8>, dir: Seq<isize>, step: int, side: int) -> bool {
    forall|d: int|
        #![trigger vals[d]]
        0 <= d < vals.len() && d < dir.len() ==> 0 <= vals[d] + dir[d] * step < side
}

/// The cell reached from `vals` by `off`, when it stays on the board.
pub open spec fn offset_index(vals: Seq<u8>, off: Seq<isize>, side: int) -> Option<int>
    decreases vals.len(),
{
    if vals.len() == 0 {
        Some(0)
    } else {
        let d = vals.len() - 1;
        let v = vals[d] + off[d];
        match offset_index(vals.drop_last(), off, side) {
            Some(p) => if 0 <= v < side {
                Some(p + v * cell_count(side as nat, d as nat))
            } else {
                None
            },
            None => None,
        }
    }
}

/// The cells reached from the coordinate by each offset that stays on the board, in the
/// order of the offsets.
pub open spec fn leaper_targets(vals: Seq<u8>, offs: Seq<Seq<isize>>, side: int) -> Seq<usize>
    decreases offs.len(),
{
    if offs.len() == 0 {
        Seq::empty()
    } else {
        let prev = leaper_targets(vals, offs.drop_last(), side);
        match offset_index(vals, offs.last(), side) {
            Some(t) => prev.push(t as usize),
            None => prev,
        }
    }
}

/// Sum over the axes of twice the distance to the board centre: `|2 * c - (side - 1)|`.
pub open spec fn twice_center_dist(vals: Seq<u8>, side: int) -> int
    decreases vals.len(),
{
    if vals.len() == 0 {
        0
    } else {
        let x = 2 * vals.last() - (side - 1);
        twice_center_dist(vals.drop_last(), side) + if x < 0 { -x } else { x }
    }
}

/// The index step of moving one unit along `dir`: `sum of dir[d] * side^d`.
pub open spec fn stride_of(dir: Seq<isize>, side: nat, n: nat) -> int
    decreases n,
{
    if n == 0 {
        0
    } else {
        stride_of(dir, side, (n - 1) as nat) + dir[n - 1] * cell_count(side, (n - 1) as nat)
    }
}

/// A slider direction with its number in the mask table and its index step.
pub struct DirectionInfo {
    pub id: usize,
    pub offsets: Vec<isize>,
    pub stride: isize,
}

/// Precomputed data of a board shape.
pub struct BoardCache {
    pub index_to_coords: Vec<CoordVals>,
    /// Entry `id * side + step`: the cells from which `step` steps along direction `id`
    /// stay on the board (empty for step 0).
    pub validity_masks: Vec<BitBoardLarge>,
    pub knight_offsets: Vec<Vec<isize>>,
    pub king_offsets: Vec<Vec<isize>>,
    pub rook_directions: Vec<DirectionInfo>,
    pub bishop_directions: Vec<DirectionInfo>,
    pub white_pawn_capture_offsets: Vec<Vec<isize>>,
    pub black_pawn_capture_offsets: Vec<Vec<isize>>,
    pub knight_targets: Vec<Targets>,
    pub king_targets: Vec<Targets>,
    pub white_pawn_capture_targets: Vec<Targets>,
    pub black_pawn_capture_targets: Vec<Targets>,
    /// Distance from the centre summed over the axes, rounded down.
    pub center_dist: Vec<i32>,
}

/// The sizes of a board that this library handles: at least two axes, at most 256
/// squares per axis, and every table fitting in memory.
pub open spec fn shape_ok(dim: nat, side: nat) -> bool {
    &&& 2 <= dim <= 16
    &&& 1 <= side <= 256
    &&& cell_count(side, dim) <= 64 * 65536
    &&& pow3(dim) <= 0x10_0000
}

impl BoardCache {
    /// Every table holds what its field documents for a board of `dim` axes of `side`.
    pub open spec fn wf(&self, dim: nat, side: nat) -> bool {
        let total = cell_count(side, dim);
        &&& self.index_to_coords.len() == total
        &&& forall|i: int| 0 <= i < total ==> (#[trigger] self.index_to_coords@[i])@ == coords_of(
            i as nat,
            dim,
            side,
        )
        &&& self.knight_targets.len() == total
        &&& self.king_targets.len() == total
        &&& self.white_pawn_capture_targets.len() == total
        &&& self.black_pawn_capture_targets.len() == total
        &&& self.center_dist.len() == total
        &&& forall|i: int| 0 <= i < total ==> (#[trigger] self.knight_targets@[i])@ == leaper_targets(
            coords_of(i as nat, dim, side),
            view_dirs(self.knight_offsets@),
            side as int,
        )
        &&& forall|i: int| 0 <= i < total ==> (#[trigger] self.king_targets@[i])@ == leaper_targets(
            coords_of(i as nat, dim, side),
            view_dirs(self.king_offsets@),
            side as int,
        )
        &&& forall|i: int|
            0 <= i < total ==> (#[trigger] self.white_pawn_capture_targets@[i])@ == leaper_targets(
                coords_of(i as nat, dim, side),
                view_dirs(self.white_pawn_capture_offsets@),
                side as int,
            )
        &&& forall|i: int|
            0 <= i < total ==> (#[trigger] self.black_pawn_capture_targets@[i])@ == leaper_targets(
                coords_of(i as nat, dim, side),
                view_dirs(self.black_pawn_capture_offsets@),
                side as int,
            )
        &&& forall|i: int| 0 <= i < total ==> #[trigger] self.center_dist@[i] == twice_center_dist(
            coords_of(i as nat, dim, side),
            side as int,
        ) / 2
        &&& view_dirs(self.knight_offsets@) == knight_offsets(dim, dim)
        &&& view_dirs(self.king_offsets@) == all_steps(dim).filter(|v: Seq<isize>| is_king_step(v))
        &&& view_dirs(self.white_pawn_capture_offsets@) == pawn_capture_offsets(dim, Player::White)
        &&& view_dirs(self.black_pawn_capture_offsets@) == pawn_capture_offsets(dim, Player::Black)
        &&& dirs_ok(self.rook_directions@, rook_dirs(dim), 0, dim, side)
        &&& dirs_ok(
            self.bishop_directions@,
            all_steps(dim).filter(|v: Seq<isize>| is_bishop_dir(v)),
            2 * dim as int,
            dim,
            side,
        )
        &&& masks_ok(self.validity_masks@, self.rook_directions@, dim, side)
        &&& masks_ok(self.validity_masks@, self.bishop_directions@, dim, side)
    }
}

/// The targets of cell `i` for each offset that stays on the board.
fn precompute_targets(
    index_to_coords: &Vec<CoordVals>,
    offsets: &Vec<Vec<isize>>,
    dim: usize,
    side: usize,
    total: usize,
) -> (r: Vec<Targets>)
    requires
        total == cell_count(side as nat, dim as nat),
        total <= 64 * 65536,
        1 <= side <= 256,
        index_to_coords.len() == total,
        forall|i: int| 0 <= i < total ==> (#[trigger] index_to_coords@[i])@ == coords_of(
            i as nat,
            dim as nat,
            side as nat,
        ),
        forall|t: int| 0 <= t < offsets.len() ==> (#[trigger] offsets@[t])@.len() == dim,
        forall|t: int, d: int|
            0 <= t < offsets.len() && 0 <= d < dim ==> -2 <= (#[trigger] offsets@[t]@[d]) <= 2,
    ensures
        r.len() == total,
        forall|i: int| 0 <= i < total ==> (#[trigger] r@[i])@ == leaper_targets(
            coords_of(i as nat, dim as nat, side as nat),
            view_dirs(offsets@),
            side as int,
        ),
{
    let mut targets: Vec<Targets> = Vec::new();
    let mut i: usize = 0;
    while i < total
        invariant
            i <= total,
            total == cell_count(side as nat, dim as nat),
            total <= 64 * 65536,
            1 <= side <= 256,
            index_to_coords.len() == total,
            forall|i: int| 0 <= i < total ==> (#[trigger] index_to_coords@[i])@ == coords_of(
                i as nat,
                dim as nat,
                side as nat,
            ),
            forall|t: int| 0 <= t < offsets.len() ==> (#[trigger] offsets@[t])@.len() == dim,
            forall|t: int, d: int|
                0 <= t < offsets.len() && 0 <= d < dim ==> -2 <= (#[trigger] offsets@[t]@[d])
                    <= 2,
            targets.len() == i,
            forall|j: int| 0 <= j < i ==> (#[trigger] targets@[j])@ == leaper_targets(
                coords_of(j as nat, dim as nat, side as nat),
                view_dirs(offsets@),
                side as int,
            ),
        decreases total - i,
    {
        let coords = &index_to_coords[i];
        let ghost cv = coords_of(i as nat, dim as nat, side as nat);
        let mut cell_targets = Targets::empty();
        let mut t: usize = 0;
        while t < offsets.len()
            invariant
                t <= offsets.len(),
                i < total,
                total == cell_count(side as nat, dim as nat),
                total <= 64 * 65536,
                1 <= side <= 256,
                coords@ == cv,
                cv == coords_of(i as nat, dim as nat, side as nat),
                forall|t: int| 0 <= t < offsets.len() ==> (#[trigger] offsets@[t])@.len() == dim,
                forall|t: int, d: int|
                    0 <= t < offsets.len() && 0 <= d < dim ==> -2 <= (#[trigger] offsets@[t]@[d])
                        <= 2,
                cell_targets@ == leaper_targets(cv, view_dirs(offsets@).take(t as int), side as int),
            decreases offsets.len() - t,
        {
            let offset = &offsets[t];
            let r = offset_target(coords, offset, dim, side);
            proof {
                assert(view_dirs(offsets@).take(t + 1).drop_last() =~= view_dirs(offsets@).take(
                    t as int,
                ));
            }
            match r {
                Some(target_idx) => cell_targets.push(target_idx),
                None => {},
            }
            t = t + 1;
        }
        proof {
            assert(view_dirs(offsets@).take(offsets.len() as int) =~= view_dirs(offsets@));
        }
        targets.push(cell_targets);
        i = i + 1;
    }
    targets
}

/// The cell reached from `coords` by `offset`, when every axis stays on the board.
fn offset_target(coords: &CoordVals, offset: &Vec<isize>, dim: usize, side: usize) -> (r: Option<
    usize,
>)
    requires
        coords@.len() == dim,
        offset@.len() == dim,
        1 <= side <= 256,
        in_bounds(coords@, side as nat),
        cell_count(side as nat, dim as nat) <= 64 * 65536,
        forall|d: int| 0 <= d < dim ==> -2 <= #[trigger] offset@[d] <= 2,
    ensures
        r == match offset_index(coords@, offset@, side as int) {
            Some(t) => Some(t as usize),
            None => None::<usize>,
        },
        r matches Some(t) ==> t < cell_count(side as nat, dim as nat),
{
    let vals = coords.as_slice();
    let mut target_idx: usize = 0;
    let mut multiplier: usize = 1;
    let mut d: usize = 0;
    while d < dim
        invariant
            d <= dim,
            vals@ == coords@,
            coords@.len() == dim,
            offset@.len() == dim,
            1 <= side <= 256,
            in_bounds(coords@, side as nat),
            cell_count(side as nat, dim as nat) <= 64 * 65536,
            forall|d: int| 0 <= d < dim ==> -2 <= #[trigger] offset@[d] <= 2,
            multiplier == cell_count(side as nat, d as nat),
            offset_index(coords@.take(d as int), offset@, side as int) == Some(target_idx as int),
            target_idx < multiplier,
        decreases dim - d,
    {
        proof {
            assert(coords@.take(d + 1).drop_last() =~= coords@.take(d as int));
            lemma_cell_count_monotone(side as nat, (d + 1) as nat, dim as nat);
        }
        let val = vals[d] as isize + offset[d];
        if val < 0 || val >= side as isize {
            proof {
                lemma_offset_none_prefix(coords@, offset@, side as int, d as int);
            }
            return None;
        }
        proof {
            assert(target_idx + val * multiplier < cell_count(side as nat, (d + 1) as nat))
                by (nonlinear_arith)
                requires
                    target_idx < multiplier,
                    0 <= val < side,
                    cell_count(side as nat, (d + 1) as nat) == side * multiplier,
            ;
        }
        proof {
            assert(multiplier * side == side * multiplier) by (nonlinear_arith);
        }
        target_idx = target_idx + (val as usize) * multiplier;
        multiplier = multiplier * side;
        d = d + 1;
    }
    proof {
        assert(coords@.take(dim as int) =~= coords@);
    }
    Some(target_idx)
}

/// Once an axis of a prefix leaves the board, so does every longer prefix.
proof fn lemma_offset_none_prefix(vals: Seq<u8>, off: Seq<isize>, side: int, d: int)
    requires
        0 <= d < vals.len(),
        !(0 <= vals[d] + off[d] < side),
    ensures
        offset_index(vals, off, side) is None,
    decreases vals.len(),
{
    if d < vals.len() - 1 {
        lemma_offset_none_prefix(vals.drop_last(), off, side, d);
    }
}


/// The mask entries of the directions `dirs`: step `step` of direction `dirs[t]` holds the
/// cells from which that many steps stay on the board.
pub open spec fn masks_ok(
    masks: Seq<BitBoardLarge>,
    dirs: Seq<DirectionInfo>,
    dim: nat,
    side: nat,
) -> bool {
    &&& forall|t: int| 0 <= t < dirs.len() ==> (#[trigger] dirs[t]).id * side + side <= masks.len()
    &&& forall|t: int, step: int|
        0 <= t < dirs.len() && 0 <= step < side ==> {
            &&& (#[trigger] masks[dirs[t].id * side + step]).inv()
            &&& masks[dirs[t].id * side + step].words().len() * 64 >= cell_count(side, dim)
            &&& masks[dirs[t].id * side + step].words().len() * 64 < cell_count(side, dim) + 64
        }
    &&& forall|t: int, step: int, i: int|
        0 <= t < dirs.len() && 0 <= step < side ==> (#[trigger] masks[dirs[t].id * side
            + step].spec_has(i)) == (0 < step && 0 <= i < cell_count(side, dim) && ray_step_valid(
            coords_of(i as nat, dim, side),
            dirs[t].offsets@,
            step,
            side as int,
        ))
}

/// The directions `dirs` are the vectors `raw` numbered from `first_id`, with their strides.
pub open spec fn dirs_ok(
    dirs: Seq<DirectionInfo>,
    raw: Seq<Seq<isize>>,
    first_id: int,
    dim: nat,
    side: nat,
) -> bool {
    &&& dirs.len() == raw.len()
    &&& forall|t: int|
        0 <= t < dirs.len() ==> {
            &&& (#[trigger] dirs[t]).id == first_id + t
            &&& dirs[t].offsets@ == raw[t]
            &&& dirs[t].stride == stride_of(raw[t], side, dim)
        }
}

/// The coordinates of every cell of the board.
fn build_index_to_coords(dim: usize, side: usize, total: usize) -> (r: Vec<CoordVals>)
    requires
        total == cell_count(side as nat, dim as nat),
        1 <= side <= 256,
        total <= 64 * 65536,
    ensures
        r.len() == total,
        forall|i: int| 0 <= i < total ==> (#[trigger] r@[i])@ == coords_of(
            i as nat,
            dim as nat,
            side as nat,
        ),
{
    let mut index_to_coords: Vec<CoordVals> = Vec::new();
    let mut i: usize = 0;
    while i < total
        invariant
            i <= total,
            total == cell_count(side as nat, dim as nat),
            1 <= side <= 256,
            index_to_coords.len() == i,
            forall|j: int| 0 <= j < i ==> (#[trigger] index_to_coords@[j])@ == coords_of(
                j as nat,
                dim as nat,
                side as nat,
            ),
        decreases total - i,
    {
        let mut coords = CoordVals::filled(0, dim);
        let mut temp = i;
        let mut d: usize = 0;
        assert(cell_count(side as nat, 0) == 1);
        while d < dim
            invariant
                d <= dim,
                1 <= side <= 256,
                coords@.len() == dim,
                temp == i as nat / cell_count(side as nat, d as nat),
                forall|k: int| 0 <= k < d ==> #[trigger] coords@[k] == coords_of(
                    i as nat,
                    dim as nat,
                    side as nat,
                )[k],
            decreases dim - d,
        {
            proof {
                lemma_cell_count_monotone(side as nat, d as nat, d as nat);
                lemma_cell_count_pos(side as nat, d as nat);
            }
            coords.set(d, (temp % side) as u8);
            proof {
                vstd::arithmetic::div_mod::lemma_div_denominator(
                    i as int,
                    cell_count(side as nat, d as nat) as int,
                    side as int,
                );
                assert(cell_count(side as nat, (d + 1) as nat) == side * cell_count(
                    side as nat,
                    d as nat,
                ));
                assert(cell_count(side as nat, d as nat) * side == side * cell_count(
                    side as nat,
                    d as nat,
                )) by (nonlinear_arith);
            }
            temp = temp / side;
            d = d + 1;
        }
        proof {
            assert(coords@ =~= coords_of(i as nat, dim as nat, side as nat));
        }
        index_to_coords.push(coords);
        i = i + 1;
    }
    index_to_coords
}

/// `side^d` is positive for a positive side.
pub proof fn lemma_cell_count_pos(side: nat, d: nat)
    requires
        side >= 1,
    ensures
        cell_count(side, d) >= 1,
    decreases d,
{
    if d > 0 {
        lemma_cell_count_pos(side, (d - 1) as nat);
        assert(side * cell_count(side, (d - 1) as nat) >= 1) by (nonlinear_arith)
            requires
                side >= 1,
                cell_count(side, (d - 1) as nat) >= 1,
        ;
    }
}

/// `index_of` read from the front: the first value plus `side` times the index of the rest.
pub proof fn lemma_index_of_front(v: Seq<u8>, side: nat)
    requires
        v.len() >= 1,
    ensures
        index_of(v, side) == v[0] as nat + side * index_of(v.subrange(1, v.len() as int), side),
    decreases v.len(),
{
    let n = v.len();
    let rest = v.subrange(1, n as int);
    if n == 1 {
        assert(v.drop_last().len() == 0);
        assert(index_of(v.drop_last(), side) == 0);
        assert(rest.len() == 0);
        assert(index_of(rest, side) == 0);
        assert(cell_count(side, 0) == 1);
        assert(v.last() == v[0]);
        assert(index_of(v, side) == v[0] as nat * 1);
        assert(side * index_of(rest, side) == 0) by (nonlinear_arith)
            requires
                index_of(rest, side) == 0,
        ;
        assert(index_of(v, side) == v[0] as nat + side * index_of(rest, side));
    } else {
        let init = v.drop_last();
        lemma_index_of_front(init, side);
        assert(rest.drop_last() =~= init.subrange(1, init.len() as int));
        assert(rest.last() == v.last());
        let a = index_of(init.subrange(1, init.len() as int), side);
        let x = v.last() as nat;
        let c = cell_count(side, (n - 2) as nat);
        assert(cell_count(side, (n - 1) as nat) == side * c);
        assert(init[0] == v[0]);
        assert(index_of(init, side) == v[0] as nat + side * a);
        assert(index_of(rest, side) == a + x * c);
        assert(index_of(v, side) == index_of(init, side) + x * cell_count(side, (n - 1) as nat));
        assert(side * (a + x * c) == side * a + x * (side * c)) by (nonlinear_arith);
        assert(index_of(v, side) == v[0] as nat + side * index_of(rest, side));
    }
}

/// Reading a cell's coordinates back gives the cell modulo `side^n`.
pub proof fn lemma_index_of_coords(i: nat, n: nat, side: nat)
    requires
        1 <= side <= 256,
    ensures
        index_of(coords_of(i, n, side), side) == i % cell_count(side, n),
    decreases n,
{
    lemma_cell_count_pos(side, n);
    let v = coords_of(i, n, side);
    if n == 0 {
        assert(cell_count(side, 0) == 1);
        assert(i % 1 == 0);
    } else {
        let m = cell_count(side, (n - 1) as nat);
        lemma_cell_count_pos(side, (n - 1) as nat);
        assert(v.drop_last() =~= coords_of(i, (n - 1) as nat, side));
        lemma_index_of_coords(i, (n - 1) as nat, side);
        let digit = ((i / m) % side) as nat;
        assert(v.last() as nat == digit);
        vstd::arithmetic::div_mod::lemma_mod_breakdown(i as int, m as int, side as int);
        assert(cell_count(side, n) == side * m);
        assert(m * side == side * m) by (nonlinear_arith);
        assert(digit * m == m * digit) by (nonlinear_arith);
    }
}

/// The coordinates of the index of in-bound values are those values.
pub proof fn lemma_coords_of_index(v: Seq<u8>, side: nat)
    requires
        1 <= side <= 256,
        in_bounds(v, side),
    ensures
        coords_of(index_of(v, side), v.len(), side) == v,
    decreases v.len(),
{
    let n = v.len();
    if n > 0 {
        let rest = v.subrange(1, n as int);
        assert(in_bounds(rest, side)) by {
            assert forall|d: int| 0 <= d < rest.len() implies (#[trigger] rest[d] as nat) < side by {
                assert(rest[d] == v[d + 1]);
            }
        }
        lemma_coords_of_index(rest, side);
        lemma_index_of_front(v, side);
        let j = index_of(rest, side);
        let x0 = v[0] as nat;
        assert(x0 < side);
        let i = index_of(v, side);
        assert(i == side * j + x0);
        let c = coords_of(i, n, side);
        assert forall|d: int| 0 <= d < n implies #[trigger] c[d] == v[d] by {
            if d == 0 {
                assert(cell_count(side, 0) == 1);
                assert(i / 1 == i);
                vstd::arithmetic::div_mod::lemma_mod_multiples_vanish(j as int, x0 as int, side as int);
                vstd::arithmetic::div_mod::lemma_small_mod(x0, side);
                assert(i % side == x0);
                assert(c[0] == ((i / cell_count(side, 0)) % side) as u8);
            } else {
                let cd = cell_count(side, (d - 1) as nat);
                lemma_cell_count_pos(side, (d - 1) as nat);
                assert(cell_count(side, d as nat) == side * cd);
                vstd::arithmetic::div_mod::lemma_div_denominator(i as int, side as int, cd as int);
                vstd::arithmetic::div_mod::lemma_div_multiples_vanish_fancy(j as int, x0 as int, side as int);
                assert(i / side == j);
                assert(i / cell_count(side, d as nat) == j / cd);
                assert(c[d] == ((i / cell_count(side, d as nat)) % side) as u8);
                assert(coords_of(j, (n - 1) as nat, side)[d - 1] == ((j / cd) % side) as u8);
                assert(coords_of(j, (n - 1) as nat, side)[d - 1] == rest[d - 1]);
                assert(rest[d - 1] == v[d]);
            }
        }
        assert(c =~= v);
    }
}

/// Moving every value by `k` times a direction moves the index by `k` times the stride.
pub proof fn lemma_index_of_shift(a: Seq<u8>, b: Seq<u8>, e: Seq<isize>, k: int, side: nat)
    requires
        a.len() == b.len(),
        a.len() <= e.len(),
        forall|d: int| 0 <= d < a.len() ==> #[trigger] b[d] == a[d] + e[d] * k,
    ensures
        index_of(b, side) == index_of(a, side) + k * stride_of(e, side, a.len()),
    decreases a.len(),
{
    let n = a.len();
    if n > 0 {
        let a1 = a.drop_last();
        let b1 = b.drop_last();
        assert forall|d: int| 0 <= d < a1.len() implies #[trigger] b1[d] == a1[d] + e[d] * k by {
            assert(b[d] == a[d] + e[d] * k);
        }
        lemma_index_of_shift(a1, b1, e, k, side);
        let c = cell_count(side, (n - 1) as nat);
        let s1 = stride_of(e, side, (n - 1) as nat);
        let x = a.last() as int;
        let y = b.last() as int;
        let ed = e[n - 1] as int;
        assert(y == x + ed * k);
        assert(y * c == x * c + k * (ed * c)) by (nonlinear_arith)
            requires
                y == x + ed * k,
        ;
        assert(k * (s1 + ed * c) == k * s1 + k * (ed * c)) by (nonlinear_arith);
    }
}

/// The values `k` steps along `dir` from `x`.
pub open spec fn ray_coords(x: Seq<u8>, dir: Seq<isize>, k: int) -> Seq<u8> {
    Seq::new(x.len(), |d: int| (x[d] + dir[d] * k) as u8)
}

/// A cell `k` steps along `dir` from cell `o`, when those steps stay on the board, has the
/// ray's coordinates and the index `o + k * stride`.
pub proof fn lemma_ray_cell(o: nat, dim: nat, side: nat, dir: Seq<isize>, k: int)
    requires
        1 <= side <= 256,
        o < cell_count(side, dim),
        dir.len() == dim,
        ray_step_valid(coords_of(o, dim, side), dir, k, side as int),
    ensures
        in_bounds(ray_coords(coords_of(o, dim, side), dir, k), side),
        index_of(ray_coords(coords_of(o, dim, side), dir, k), side) == o + k * stride_of(dir, side, dim),
        0 <= o + k * stride_of(dir, side, dim) < cell_count(side, dim),
        coords_of((o + k * stride_of(dir, side, dim)) as nat, dim, side) == ray_coords(
            coords_of(o, dim, side),
            dir,
            k,
        ),
{
    let x = coords_of(o, dim, side);
    let y = ray_coords(x, dir, k);
    assert forall|d: int| 0 <= d < y.len() implies (#[trigger] y[d] as nat) < side && y[d] == x[d]
        + dir[d] * k by {
        assert(0 <= x[d] + dir[d] * k < side);
    }
    assert forall|d: int| 0 <= d < x.len() implies #[trigger] y[d] == x[d] + dir[d] * k by {}
    lemma_index_of_shift(x, y, dir, k, side);
    lemma_index_of_coords(o, dim, side);
    vstd::arithmetic::div_mod::lemma_small_mod(o, cell_count(side, dim));
    lemma_coords_of_index(y, side);
    lemma_index_of_bound(y, side);
}

/// The index of on-board values is below `side^n`.
pub proof fn lemma_index_of_bound(vals: Seq<u8>, side: nat)
    requires
        in_bounds(vals, side),
    ensures
        index_of(vals, side) < cell_count(side, vals.len()),
    decreases vals.len(),
{
    if vals.len() > 0 {
        let init = vals.drop_last();
        assert(in_bounds(init, side)) by {
            assert forall|d: int| 0 <= d < init.len() implies (#[trigger] init[d] as nat) < side by {
                assert(init[d] == vals[d]);
            }
        }
        lemma_index_of_bound(init, side);
        let m = cell_count(side, (vals.len() - 1) as nat);
        let c = vals.last() as nat;
        assert((vals[vals.len() - 1] as nat) < side);
        assert(index_of(init, side) + c * m < side * m) by (nonlinear_arith)
            requires
                index_of(init, side) < m,
                c < side,
        ;
    }
}

/// The cell reached by an offset is a cell of the board.
pub proof fn lemma_offset_index_bound(vals: Seq<u8>, off: Seq<isize>, side: nat)
    requires
        side >= 1,
    ensures
        offset_index(vals, off, side as int) matches Some(p) ==> 0 <= p < cell_count(side, vals.len()),
    decreases vals.len(),
{
    if vals.len() > 0 {
        let d = vals.len() - 1;
        lemma_offset_index_bound(vals.drop_last(), off, side);
        let v = vals[d] + off[d];
        match offset_index(vals.drop_last(), off, side as int) {
            Some(p) => {
                if 0 <= v < side {
                    let c = cell_count(side, d as nat);
                    assert(p + v * c < side * c) by (nonlinear_arith)
                        requires
                            0 <= p < c,
                            0 <= v < side,
                    ;
                    assert(0 <= v * c) by (nonlinear_arith)
                        requires
                            0 <= v,
                            0 <= c,
                    ;
                }
            },
            None => {},
        }
    }
}

/// Every leaper target is a cell of the board.
pub proof fn lemma_leaper_targets_bound(vals: Seq<u8>, offs: Seq<Seq<isize>>, side: nat)
    requires
        side >= 1,
        cell_count(side, vals.len()) <= usize::MAX,
    ensures
        forall|j: int| 0 <= j < leaper_targets(vals, offs, side as int).len() ==> (#[trigger] leaper_targets(vals, offs, side as int)[j] as int) < cell_count(side, vals.len()),
    decreases offs.len(),
{
    if offs.len() > 0 {
        lemma_leaper_targets_bound(vals, offs.drop_last(), side);
        lemma_offset_index_bound(vals, offs.last(), side);
        let prev = leaper_targets(vals, offs.drop_last(), side as int);
        let lt = leaper_targets(vals, offs, side as int);
        assert forall|j: int| 0 <= j < lt.len() implies (#[trigger] lt[j] as int) < cell_count(side, vals.len()) by {
            match offset_index(vals, offs.last(), side as int) {
                Some(t) => {
                    assert(lt == prev.push(t as usize));
                    if j < prev.len() {
                        assert(lt[j] == prev[j]);
                    } else {
                        assert(lt[j] == t as usize);
                    }
                },
                None => {
                    assert(lt == prev);
                },
            }
        }
    }
}

/// A copy of a vector of steps.
fn copy_steps(v: &Vec<isize>) -> (r: Vec<isize>)
    ensures
        r@ == v@,
{
    let mut out: Vec<isize> = Vec::new();
    let mut k: usize = 0;
    while k < v.len()
        invariant
            k <= v.len(),
            out@ == v@.take(k as int),
        decreases v.len() - k,
    {
        out.push(v[k]);
        k = k + 1;
        assert(out@ =~= v@.take(k as int));
    }
    assert(v@.take(v.len() as int) =~= v@);
    out
}

/// The index step of one unit along `dir`.
fn stride_exec(dir: &Vec<isize>, dim: usize, side: usize) -> (r: isize)
    requires
        dir@.len() == dim,
        dim <= 16,
        forall|d: int| 0 <= d < dim ==> -1 <= #[trigger] dir@[d] <= 1,
        1 <= side <= 256,
        cell_count(side as nat, dim as nat) <= 64 * 65536,
    ensures
        r == stride_of(dir@, side as nat, dim as nat),
{
    let mut stride: isize = 0;
    let mut multiplier: usize = 1;
    let mut d: usize = 0;
    while d < dim
        invariant
            d <= dim,
            dir@.len() == dim,
            forall|d: int| 0 <= d < dim ==> -1 <= #[trigger] dir@[d] <= 1,
            1 <= side <= 256,
            cell_count(side as nat, dim as nat) <= 64 * 65536,
            multiplier == cell_count(side as nat, d as nat),
            stride == stride_of(dir@, side as nat, d as nat),
            -(d as int) * 0x40_0000 <= stride <= (d as int) * 0x40_0000,
            dim <= 16,
        decreases dim - d,
    {
        proof {
            lemma_cell_count_monotone(side as nat, d as nat, dim as nat);
            lemma_cell_count_monotone(side as nat, (d + 1) as nat, dim as nat);
            assert(multiplier * side == side * multiplier) by (nonlinear_arith);
            assert(-0x40_0000 <= dir@[d as int] * multiplier <= 0x40_0000) by (nonlinear_arith)
                requires
                    -1 <= dir@[d as int] <= 1,
                    multiplier <= 0x40_0000,
            ;
        }
        stride = stride + dir[d] * (multiplier as isize);
        multiplier = multiplier * side;
        d = d + 1;
    }
    stride
}

/// Whether `step` steps along `dir` from `coords` stay on the board.
fn ray_valid_exec(coords: &CoordVals, dir: &Vec<isize>, step: usize, side: usize) -> (r: bool)
    requires
        step < side <= 256,
        forall|d: int| 0 <= d < dir@.len() ==> -1 <= #[trigger] dir@[d] <= 1,
    ensures
        r == ray_step_valid(coords@, dir@, step as int, side as int),
{
    let vals = coords.as_slice();
    let n = if vals.len() < dir.len() {
        vals.len()
    } else {
        dir.len()
    };
    let mut d: usize = 0;
    while d < n
        invariant
            vals@ == coords@,
            n <= vals@.len(),
            n <= dir@.len(),
            n == vals@.len() || n == dir@.len(),
            step < side <= 256,
            forall|d: int| 0 <= d < dir@.len() ==> -1 <= #[trigger] dir@[d] <= 1,
            d <= n,
            forall|k: int| 0 <= k < d ==> 0 <= #[trigger] vals@[k] + dir@[k] * step < side,
        decreases n - d,
    {
        proof {
            let x = dir@[d as int];
            assert(-256 <= x * step <= 256) by (nonlinear_arith)
                requires
                    -1 <= x <= 1,
                    step < 256,
            ;
        }
        let res = vals[d] as isize + dir[d] * (step as isize);
        if res < 0 || res >= side as isize {
            return false;
        }
        d = d + 1;
    }
    true
}

/// Numbers the directions from `*current_id` on, and appends for each its `side` masks.
fn process_dirs(
    raw_dirs: &Vec<Vec<isize>>,
    validity_masks: &mut Vec<BitBoardLarge>,
    current_id: &mut usize,
    index_to_coords: &Vec<CoordVals>,
    dim: usize,
    side: usize,
    total: usize,
) -> (r: Vec<DirectionInfo>)
    requires
        total == cell_count(side as nat, dim as nat),
        1 <= side <= 256,
        total <= 64 * 65536,
        index_to_coords.len() == total,
        forall|i: int| 0 <= i < total ==> (#[trigger] index_to_coords@[i])@ == coords_of(
            i as nat,
            dim as nat,
            side as nat,
        ),
        forall|t: int| 0 <= t < raw_dirs.len() ==> (#[trigger] raw_dirs@[t])@.len() == dim,
        forall|t: int, d: int|
            0 <= t < raw_dirs.len() && 0 <= d < dim ==> -1 <= (#[trigger] raw_dirs@[t]@[d]) <= 1,
        old(validity_masks).len() == *old(current_id) * side,
        (*old(current_id) + raw_dirs.len()) * side <= 0x4000_0000,
        dim <= 16,
    ensures
        *final(current_id) == *old(current_id) + raw_dirs.len(),
        final(validity_masks).len() == *final(current_id) * side,
        forall|t: int| 0 <= t < old(validity_masks).len() ==> #[trigger] final(validity_masks)@[t]
            == old(validity_masks)@[t],
        dirs_ok(r@, view_dirs(raw_dirs@), *old(current_id) as int, dim as nat, side as nat),
        masks_ok(final(validity_masks)@, r@, dim as nat, side as nat),
{
    let mut infos: Vec<DirectionInfo> = Vec::new();
    let ghost start_id = *current_id;
    let ghost start_masks = validity_masks@;
    let mut t: usize = 0;
    while t < raw_dirs.len()
        invariant
            t <= raw_dirs.len(),
            total == cell_count(side as nat, dim as nat),
            1 <= side <= 256,
            total <= 64 * 65536,
            index_to_coords.len() == total,
            forall|i: int| 0 <= i < total ==> (#[trigger] index_to_coords@[i])@ == coords_of(
                i as nat,
                dim as nat,
                side as nat,
            ),
            forall|t: int| 0 <= t < raw_dirs.len() ==> (#[trigger] raw_dirs@[t])@.len() == dim,
            forall|t: int, d: int|
                0 <= t < raw_dirs.len() && 0 <= d < dim ==> -1 <= (#[trigger] raw_dirs@[t]@[d])
                    <= 1,
            (start_id + raw_dirs.len()) * side <= 0x4000_0000,
            start_masks.len() == start_id * side,
            dim <= 16,
            *current_id == start_id + t,
            validity_masks.len() == *current_id * side,
            forall|k: int| 0 <= k < start_masks.len() ==> #[trigger] validity_masks@[k]
                == start_masks[k],
            dirs_ok(infos@, view_dirs(raw_dirs@).take(t as int), start_id as int, dim as nat, side as nat),
            masks_ok(validity_masks@, infos@, dim as nat, side as nat),
        decreases raw_dirs.len() - t,
    {
        let dir_vec = &raw_dirs[t];
        let dir_id = *current_id;
        proof {
            assert(start_id + raw_dirs.len() <= (start_id + raw_dirs.len()) * side) by (nonlinear_arith)
                requires
                    side >= 1,
            ;
        }
        *current_id = *current_id + 1;
        let ghost masks_before = validity_masks@;
        let ghost infos_start = infos@;
        proof {
            assert(start_id * side <= dir_id * side) by (nonlinear_arith)
                requires
                    start_id <= dir_id,
            ;
            assert((start_id + t + 1) * side <= (start_id + raw_dirs.len()) * side) by (nonlinear_arith)
                requires
                    t + 1 <= raw_dirs.len(),
                    side >= 1,
            ;
            assert((dir_id + 1) * side == dir_id * side + side) by (nonlinear_arith);
        }
        let mut step: usize = 0;
        while step < side
            invariant
                step <= side,
                total == cell_count(side as nat, dim as nat),
                1 <= side <= 256,
                total <= 64 * 65536,
                index_to_coords.len() == total,
                forall|i: int| 0 <= i < total ==> (#[trigger] index_to_coords@[i])@ == coords_of(
                    i as nat,
                    dim as nat,
                    side as nat,
                ),
                dir_vec@ == raw_dirs@[t as int]@,
                forall|d: int| 0 <= d < dir_vec@.len() ==> -1 <= #[trigger] dir_vec@[d] <= 1,
                masks_before.len() == dir_id * side,
                (dir_id + 1) * side <= 0x4000_0000,
                validity_masks.len() == dir_id * side + step,
                forall|k: int| 0 <= k < masks_before.len() ==> #[trigger] validity_masks@[k]
                    == masks_before[k],
                forall|s: int|
                    0 <= s < step ==> (#[trigger] validity_masks@[dir_id * side + s]).inv()
                        && validity_masks@[dir_id * side + s].words().len() * 64 >= total
                        && validity_masks@[dir_id * side + s].words().len() * 64 < total + 64,
                forall|s: int, i: int|
                    0 <= s < step ==> (#[trigger] validity_masks@[dir_id * side + s].spec_has(i))
                        == (0 < s && 0 <= i < total && ray_step_valid(
                        coords_of(i as nat, dim as nat, side as nat),
                        dir_vec@,
                        s,
                        side as int,
                    )),
            decreases side - step,
        {
            let mut mask_bb = BitBoardLarge::new_empty(dim, side);
            if step > 0 {
                let mut i: usize = 0;
                while i < total
                    invariant
                        i <= total,
                        0 < step < side <= 256,
                        total == cell_count(side as nat, dim as nat),
                        index_to_coords.len() == total,
                        forall|i: int| 0 <= i < total ==> (#[trigger] index_to_coords@[i])@
                            == coords_of(i as nat, dim as nat, side as nat),
                        forall|d: int| 0 <= d < dir_vec@.len() ==> -1 <= #[trigger] dir_vec@[d] <= 1,
                        mask_bb.inv(),
                        mask_bb.words().len() * 64 >= total,
                        mask_bb.words().len() * 64 < total + 64,
                        forall|j: int| #[trigger] mask_bb.spec_has(j) == (0 <= j < i && ray_step_valid(
                            coords_of(j as nat, dim as nat, side as nat),
                            dir_vec@,
                            step as int,
                            side as int,
                        )),
                    decreases total - i,
                {
                    if ray_valid_exec(&index_to_coords[i], dir_vec, step, side) {
                        mask_bb.set_bit(i);
                    }
                    i = i + 1;
                }
            }
            let ghost mb = validity_masks@;
            validity_masks.push(mask_bb);
            proof {
                assert forall|s: int| 0 <= s < step + 1 implies (#[trigger] validity_masks@[dir_id
                    * side + s]).inv() && validity_masks@[dir_id * side + s].words().len() * 64
                    >= total && validity_masks@[dir_id * side + s].words().len() * 64 < total + 64 by {
                    assert(validity_masks@[dir_id * side + s] == if s < step {
                        mb[dir_id * side + s]
                    } else {
                        validity_masks@.last()
                    });
                }
                assert forall|s: int, i: int| 0 <= s < step + 1 implies (
                #[trigger] validity_masks@[dir_id * side + s].spec_has(i)) == (0 < s && 0 <= i
                    < total && ray_step_valid(
                    coords_of(i as nat, dim as nat, side as nat),
                    dir_vec@,
                    s,
                    side as int,
                )) by {
                    assert(validity_masks@[dir_id * side + s] == if s < step {
                        mb[dir_id * side + s]
                    } else {
                        validity_masks@.last()
                    });
                }
            }
            step = step + 1;
        }
        proof {
            assert forall|k: int| 0 <= k < start_masks.len() implies #[trigger] validity_masks@[k]
                == start_masks[k] by {
                assert(validity_masks@[k] == masks_before[k]);
            }
        }
        let offsets = copy_steps(dir_vec);
        let stride = stride_exec(dir_vec, dim, side);
        let ghost infos_before = infos@;
        infos.push(DirectionInfo { id: dir_id, offsets, stride });
        proof {
            assert(view_dirs(raw_dirs@).take(t + 1) =~= view_dirs(raw_dirs@).take(t as int).push(
                raw_dirs@[t as int]@,
            ));
            let sn = side as nat;
            let dn = dim as nat;
            assert forall|tt: int, st: int|
                0 <= tt < infos@.len() && 0 <= st < sn implies infos@[tt].id * sn + st
                < validity_masks@.len() && (#[trigger] validity_masks@[infos@[tt].id * side
                + st]).inv() && validity_masks@[infos@[tt].id * sn + st].words().len() * 64
                >= cell_count(sn, dn) && validity_masks@[infos@[tt].id * sn + st].words().len() * 64
                < cell_count(sn, dn) + 64 by {
                if tt < infos_before.len() {
                    assert(infos@[tt] == infos_before[tt]);
                    let id = infos_before[tt].id;
                    assert(id == start_id + tt);
                    assert(id * side + st < masks_before.len()) by (nonlinear_arith)
                        requires
                            id < dir_id,
                            st < side,
                            masks_before.len() == dir_id * side,
                    ;
                    assert(validity_masks@[id * side + st] == masks_before[id * side + st]);
                } else {
                    assert(dir_id * side + st < dir_id * side + side);
                }
            }
            assert forall|tt: int, st: int, i: int|
                0 <= tt < infos@.len() && 0 <= st < sn implies (
                #[trigger] validity_masks@[infos@[tt].id * sn + st].spec_has(i)) == (0 < st
                && 0 <= i < cell_count(sn, dn) && ray_step_valid(
                coords_of(i as nat, dim as nat, side as nat),
                infos@[tt].offsets@,
                st,
                side as int,
            )) by {
                if tt < infos_before.len() {
                    assert(infos@[tt] == infos_before[tt]);
                    let id = infos_before[tt].id;
                    assert(id == start_id + tt);
                    assert(id * side + st < masks_before.len()) by (nonlinear_arith)
                        requires
                            id < dir_id,
                            st < side,
                            masks_before.len() == dir_id * side,
                    ;
                    assert(validity_masks@[id * side + st] == masks_before[id * side + st]);
                } else {
                    assert(infos@[tt].id == dir_id);
                }
            }
            assert forall|tt: int| 0 <= tt < infos@.len() implies (#[trigger] infos@[tt]).id * sn
                + sn <= validity_masks@.len() by {
                if tt < infos_before.len() {
                    assert(infos@[tt] == infos_before[tt]);
                    assert(infos_before[tt].id * side + side <= masks_before.len());
                }
            }
            assert(masks_ok(validity_masks@, infos@, dn, sn));
        }
        t = t + 1;
    }
    proof {
        assert(view_dirs(raw_dirs@).take(raw_dirs.len() as int) =~= view_dirs(raw_dirs@));
    }
    infos
}


/// Distance of every cell from the centre, summed over the axes and rounded down.
#[verifier::spinoff_prover]
#[verifier::rlimit(40)]
fn build_center_dist(index_to_coords: &Vec<CoordVals>, dim: usize, side: usize, total: usize) -> (r:
    Vec<i32>)
    requires
        total == cell_count(side as nat, dim as nat),
        1 <= side <= 256,
        dim <= 16,
        index_to_coords.len() == total,
        forall|i: int| 0 <= i < total ==> (#[trigger] index_to_coords@[i])@ == coords_of(
            i as nat,
            dim as nat,
            side as nat,
        ),
    ensures
        r.len() == total,
        forall|i: int| 0 <= i < total ==> #[trigger] r@[i] == twice_center_dist(
            coords_of(i as nat, dim as nat, side as nat),
            side as int,
        ) / 2,
{
    let mut out: Vec<i32> = Vec::new();
    let mut i: usize = 0;
    while i < total
        invariant
            i <= total,
            total == cell_count(side as nat, dim as nat),
            1 <= side <= 256,
            dim <= 16,
            index_to_coords.len() == total,
            forall|i: int| 0 <= i < total ==> (#[trigger] index_to_coords@[i])@ == coords_of(
                i as nat,
                dim as nat,
                side as nat,
            ),
            out.len() == i,
            forall|j: int| 0 <= j < i ==> #[trigger] out@[j] == twice_center_dist(
                coords_of(j as nat, dim as nat, side as nat),
                side as int,
            ) / 2,
        decreases total - i,
    {
        let vals = index_to_coords[i].as_slice();
        let mut sum: i32 = 0;
        let mut d: usize = 0;
        while d < vals.len()
            invariant
                d <= vals@.len(),
                vals@.len() == dim,
                dim <= 16,
                1 <= side <= 256,
                sum == twice_center_dist(vals@.take(d as int), side as int),
                0 <= sum <= 512 * d,
            decreases vals@.len() - d,
        {
            let x: i32 = 2 * (vals[d] as i32) - (side as i32 - 1);
            proof {
                assert(vals@.take(d + 1).drop_last() =~= vals@.take(d as int));
            }
            sum = sum + if x < 0 {
                -x
            } else {
                x
            };
            d = d + 1;
        }
        proof {
            assert(vals@.take(dim as int) =~= vals@);
        }
        out.push(sum / 2);
        i = i + 1;
    }
    out
}

impl BoardCache {
    /// The tables of a board with `dimension` axes of `side` squares.
    pub fn new(dimension: usize, side: usize) -> (r: BoardCache)
        requires
            shape_ok(dimension as nat, side as nat),
        ensures
            r.wf(dimension as nat, side as nat),
    {
        let total_cells = total_cells_of(dimension, side);
        let index_to_coords = build_index_to_coords(dimension, side, total_cells);
        let raw_rook = get_rook_directions_calc(dimension);
        let raw_bishop = get_bishop_directions_calc(dimension);
        proof {
            lemma_rook_shaped(dimension as nat);
            lemma_steps_filter_shaped(dimension as nat, |v: Seq<isize>| is_bishop_dir(v));
            lemma_steps_filter_shaped(dimension as nat, |v: Seq<isize>| is_king_step(v));
            lemma_knight_shaped(dimension as nat, dimension as nat);
            lemma_pawn_shaped(dimension as nat, Player::White);
            lemma_pawn_shaped(dimension as nat, Player::Black);
            all_steps(dimension as nat).lemma_filter_len(|v: Seq<isize>| is_bishop_dir(v));
            assert forall|t: int| 0 <= t < raw_rook.len() implies (#[trigger] raw_rook@[t])@.len()
                == dimension && forall|d: int| 0 <= d < dimension ==> -1 <= #[trigger] raw_rook@[t]@[d]
                <= 1 by {
                assert(view_dirs(raw_rook@)[t] == raw_rook@[t]@);
            }
            assert forall|t: int| 0 <= t < raw_bishop.len() implies (#[trigger] raw_bishop@[t])@.len()
                == dimension && forall|d: int| 0 <= d < dimension ==> -1 <= #[trigger] raw_bishop@[t]@[d]
                <= 1 by {
                assert(view_dirs(raw_bishop@)[t] == raw_bishop@[t]@);
            }
            assert((2 * dimension + raw_bishop.len()) * side <= 0x4000_0000) by (nonlinear_arith)
                requires
                    dimension <= 16,
                    raw_bishop.len() <= 0x10_0000,
                    side <= 256,
            ;
            assert(0 * side == 0);
            assert(view_dirs(raw_rook@).len() == raw_rook@.len());
            assert(raw_rook.len() == 2 * dimension);
            assert((2 * dimension) * side <= 0x4000_0000) by (nonlinear_arith)
                requires
                    (2 * dimension + raw_bishop.len()) * side <= 0x4000_0000,
            ;
        }
        let mut validity_masks: Vec<BitBoardLarge> = Vec::new();
        let mut current_id: usize = 0;
        let rook_infos = process_dirs(
            &raw_rook,
            &mut validity_masks,
            &mut current_id,
            &index_to_coords,
            dimension,
            side,
            total_cells,
        );
        let ghost masks_after_rook = validity_masks@;
        let bishop_infos = process_dirs(
            &raw_bishop,
            &mut validity_masks,
            &mut current_id,
            &index_to_coords,
            dimension,
            side,
            total_cells,
        );
        proof {
            let sn = side as nat;
            let dn = dimension as nat;
            assert(masks_after_rook.len() == 2 * dimension * sn);
            assert(validity_masks@.len() == (2 * dimension + raw_bishop.len()) * sn);
            assert(2 * dimension * sn <= (2 * dimension + raw_bishop.len()) * sn) by (nonlinear_arith);
            assert forall|t: int| 0 <= t < rook_infos@.len() implies (#[trigger] rook_infos@[t]).id
                * sn + sn <= validity_masks@.len() by {
                assert(rook_infos@[t].id == t);
                assert(t * sn + sn <= 2 * dimension * sn) by (nonlinear_arith)
                    requires
                        t < 2 * dimension,
                ;
            }
            assert forall|t: int, step: int|
                0 <= t < rook_infos@.len() && 0 <= step < sn implies (
                #[trigger] validity_masks@[rook_infos@[t].id * sn + step]) == masks_after_rook[rook_infos@[t].id
                * sn + step] by {
                assert(rook_infos@[t].id * sn + sn <= masks_after_rook.len());
            }
            assert(masks_ok(validity_masks@, rook_infos@, dn, sn));
        }
        let knight_offsets = get_knight_offsets_calc(dimension);
        let king_offsets = get_king_offsets_calc(dimension);
        let white_pawn_capture_offsets = get_pawn_capture_offsets_calc(dimension, Player::White);
        let black_pawn_capture_offsets = get_pawn_capture_offsets_calc(dimension, Player::Black);
        proof {
            assert forall|t: int| 0 <= t < knight_offsets.len() implies (#[trigger] knight_offsets@[t])@.len()
                == dimension by {
                assert(view_dirs(knight_offsets@)[t] == knight_offsets@[t]@);
            }
            assert forall|t: int, d: int| 0 <= t < knight_offsets.len() && 0 <= d < dimension
                implies -2 <= (#[trigger] knight_offsets@[t]@[d]) <= 2 by {
                assert(view_dirs(knight_offsets@)[t] == knight_offsets@[t]@);
            }
            assert forall|t: int| 0 <= t < king_offsets.len() implies (#[trigger] king_offsets@[t])@.len()
                == dimension by {
                assert(view_dirs(king_offsets@)[t] == king_offsets@[t]@);
            }
            assert forall|t: int, d: int| 0 <= t < king_offsets.len() && 0 <= d < dimension
                implies -2 <= (#[trigger] king_offsets@[t]@[d]) <= 2 by {
                assert(view_dirs(king_offsets@)[t] == king_offsets@[t]@);
            }
            assert forall|t: int| 0 <= t < white_pawn_capture_offsets.len() implies (
            #[trigger] white_pawn_capture_offsets@[t])@.len() == dimension by {
                assert(view_dirs(white_pawn_capture_offsets@)[t] == white_pawn_capture_offsets@[t]@);
            }
            assert forall|t: int, d: int|
                0 <= t < white_pawn_capture_offsets.len() && 0 <= d < dimension implies -2 <= (
                #[trigger] white_pawn_capture_offsets@[t]@[d]) <= 2 by {
                assert(view_dirs(white_pawn_capture_offsets@)[t] == white_pawn_capture_offsets@[t]@);
            }
            assert forall|t: int| 0 <= t < black_pawn_capture_offsets.len() implies (
            #[trigger] black_pawn_capture_offsets@[t])@.len() == dimension by {
                assert(view_dirs(black_pawn_capture_offsets@)[t] == black_pawn_capture_offsets@[t]@);
            }
            assert forall|t: int, d: int|
                0 <= t < black_pawn_capture_offsets.len() && 0 <= d < dimension implies -2 <= (
                #[trigger] black_pawn_capture_offsets@[t]@[d]) <= 2 by {
                assert(view_dirs(black_pawn_capture_offsets@)[t] == black_pawn_capture_offsets@[t]@);
            }
        }
        let knight_targets = precompute_targets(
            &index_to_coords,
            &knight_offsets,
            dimension,
            side,
            total_cells,
        );
        let king_targets = precompute_targets(
            &index_to_coords,
            &king_offsets,
            dimension,
            side,
            total_cells,
        );
        let white_pawn_capture_targets = precompute_targets(
            &index_to_coords,
            &white_pawn_capture_offsets,
            dimension,
            side,
            total_cells,
        );
        let black_pawn_capture_targets = precompute_targets(
            &index_to_coords,
            &black_pawn_capture_offsets,
            dimension,
            side,
            total_cells,
        );
        let center_dist = build_center_dist(&index_to_coords, dimension, side, total_cells);
        BoardCache {
            index_to_coords,
            validity_masks,
            knight_offsets,
            king_offsets,
            rook_directions: rook_infos,
            bishop_directions: bishop_infos,
            white_pawn_capture_offsets,
            black_pawn_capture_offsets,
            knight_targets,
            king_targets,
            white_pawn_capture_targets,
            black_pawn_capture_targets,
            center_dist,
        }
    }
}

/// Immutable board topology, shared by every copy of a board.
pub struct BoardGeometry {
    pub dimension: usize,
    pub side: usize,
    pub total_cells: usize,
    pub cache: BoardCache,
}

impl BoardGeometry {
    /// Sizes and tables agree.
    pub open spec fn wf(&self) -> bool {
        &&& shape_ok(self.dimension as nat, self.side as nat)
        &&& self.total_cells == cell_count(self.side as nat, self.dimension as nat)
        &&& self.cache.wf(self.dimension as nat, self.side as nat)
    }

    /// The topology of a board with `dimension` axes of `side` squares.
    pub fn new(dimension: usize, side: usize) -> (r: BoardGeometry)
        requires
            shape_ok(dimension as nat, side as nat),
        ensures
            r.wf(),
            r.dimension == dimension,
            r.side == side,
    {
        let total_cells = total_cells_of(dimension, side);
        let cache = BoardCache::new(dimension, side);
        BoardGeometry { dimension, side, total_cells, cache }
    }
}

/// Whether this library handles a board of `dimension` axes of `side` squares (see
/// `shape_ok`).
pub fn shape_supported(dimension: usize, side: usize) -> (r: bool)
    ensures
        r == shape_ok(dimension as nat, side as nat),
{
    if dimension < 2 || dimension > 16 || side < 1 || side > 256 {
        return false;
    }
    let mut cells: u64 = 1;
    let mut threes: u64 = 1;
    let mut d: usize = 0;
    while d < dimension
        invariant
            2 <= dimension <= 16,
            1 <= side <= 256,
            d <= dimension,
            cells == cell_count(side as nat, d as nat),
            threes == crate::calculators::pow3(d as nat),
            cells <= 64 * 65536,
            threes <= 0x10_0000,
        decreases dimension - d,
    {
        proof {
            assert(cells * side <= 256 * 64 * 65536) by (nonlinear_arith)
                requires
                    cells <= 64 * 65536,
                    side <= 256,
            ;
            assert(cells * side == side * cells) by (nonlinear_arith);
        }
        cells = cells * side as u64;
        threes = threes * 3;
        d += 1;
        if cells > 64 * 65536 || threes > 0x10_0000 {
            proof {
                lemma_cell_count_monotone(side as nat, d as nat, dimension as nat);
                lemma_pow3_monotone(d as nat, dimension as nat);
            }
            return false;
        }
    }
    true
}

proof fn lemma_pow3_monotone(i: nat, d: nat)
    requires
        i <= d,
    ensures
        crate::calculators::pow3(i) <= crate::calculators::pow3(d),
    decreases d,
{
    if i < d {
        lemma_pow3_monotone(i, (d - 1) as nat);
    }
}

} // verus!
