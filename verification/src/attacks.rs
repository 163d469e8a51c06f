//! Attack detection: leaper targets, slider rays and pawn captures.
use vstd::prelude::*;
use crate::board::Board;
use crate::calculators::{rook_dirs, all_steps, is_bishop_dir, nonzero_count, lemma_steps_filter_shaped};
use crate::geometry::{
    DirectionInfo, coords_of, in_bounds, ray_step_valid, stride_of, ray_coords, lemma_ray_cell,
    dirs_ok, masks_ok,
};
use crate::models::{Coordinate, Piece, PieceType, Player};
use crate::representation::{BoardRepresentation, cell_count, lemma_cell_count_monotone};

verus! {

/// Cell `i` holds a piece of either side.
pub open spec fn occupied(b: Board, i: int) -> bool {
    b.pieces.white_occupancy.has(i) || b.pieces.black_occupancy.has(i)
}

/// Cell `i` holds a piece of `player`.
pub open spec fn owned(b: Board, i: int, player: Player) -> bool {
    match player {
        Player::White => b.pieces.white_occupancy.has(i),
        Player::Black => b.pieces.black_occupancy.has(i),
    }
}

/// `k` steps along `dir` from cell `o` stay on the board.
pub open spec fn on_ray(b: Board, o: int, dir: Seq<isize>, k: int) -> bool {
    ray_step_valid(
        coords_of(o as nat, b.geo.dimension as nat, b.geo.side as nat),
        dir,
        k,
        b.geo.side as int,
    )
}

/// The cell `k` steps along `dir` from cell `o`.
pub open spec fn ray_cell(b: Board, o: int, dir: Seq<isize>, k: int) -> int {
    o + k * stride_of(dir, b.geo.side as nat, b.geo.dimension as nat)
}

/// The cell `k` steps along `dir` from `o` is the first occupied one on that ray.
pub open spec fn first_on_ray(b: Board, o: int, dir: Seq<isize>, k: int) -> bool {
    &&& 1 <= k
    &&& on_ray(b, o, dir, k)
    &&& occupied(b, ray_cell(b, o, dir, k))
    &&& forall|m: int| 1 <= m < k ==> !occupied(b, #[trigger] ray_cell(b, o, dir, m))
}

/// A slider direction: one entry per axis, each in `-1..=1`, not all zero.
pub open spec fn slider_dir(v: Seq<isize>, dim: nat) -> bool {
    &&& v.len() == dim
    &&& forall|k: int| 0 <= k < dim ==> -1 <= #[trigger] v[k] <= 1
    &&& exists|k: int| 0 <= k < dim && #[trigger] v[k] != 0
}

/// A direction of the board's cache: a slider direction with its stride and the mask of
/// the cells from which one step stays on the board.
pub open spec fn dir_ok(b: Board, di: DirectionInfo) -> bool {
    let side = b.geo.side as nat;
    let dim = b.geo.dimension as nat;
    let masks = b.geo.cache.validity_masks@;
    &&& di.id * side + side <= masks.len()
    &&& masks[di.id * side + 1].inv()
    &&& forall|i: int| #[trigger] masks[di.id * side + 1].spec_has(i) == (0 <= i < cell_count(side, dim)
        && ray_step_valid(coords_of(i as nat, dim, side), di.offsets@, 1, side as int))
    &&& di.stride == stride_of(di.offsets@, side, dim)
    &&& slider_dir(di.offsets@, dim)
}

/// Cell `i` holds a rook or a queen.
pub open spec fn rook_or_queen(b: Board, i: int) -> bool {
    b.pieces.rooks.has(i) || b.pieces.queens.has(i)
}

/// Cell `i` holds a bishop or a queen.
pub open spec fn bishop_or_queen(b: Board, i: int) -> bool {
    b.pieces.bishops.has(i) || b.pieces.queens.has(i)
}

/// Cell `i` holds a piece of kind `t`, for the slider kinds (rook, bishop, queen) only.
pub open spec fn slider_kind(b: Board, i: int, t: PieceType) -> bool {
    match t {
        PieceType::Rook => b.pieces.rooks.has(i),
        PieceType::Bishop => b.pieces.bishops.has(i),
        PieceType::Queen => b.pieces.queens.has(i),
        _ => false,
    }
}

/// The first piece along the ray belongs to `attacker` and is a rook or queen.
pub open spec fn rook_queen_hit(b: Board, o: int, dir: Seq<isize>, attacker: Player) -> bool {
    exists|k: int|
        first_on_ray(b, o, dir, k) && owned(b, #[trigger] ray_cell(b, o, dir, k), attacker)
            && rook_or_queen(b, ray_cell(b, o, dir, k))
}

/// The first piece along the ray belongs to `attacker` and is a bishop or queen.
pub open spec fn bishop_queen_hit(b: Board, o: int, dir: Seq<isize>, attacker: Player) -> bool {
    exists|k: int|
        first_on_ray(b, o, dir, k) && owned(b, #[trigger] ray_cell(b, o, dir, k), attacker)
            && bishop_or_queen(b, ray_cell(b, o, dir, k))
}

/// The first piece along the ray belongs to `attacker` and is of one of the slider kinds
/// listed in `types`.
pub open spec fn threat_hit(b: Board, o: int, dir: Seq<isize>, attacker: Player, types: Seq<PieceType>) -> bool {
    exists|k: int|
        first_on_ray(b, o, dir, k) && owned(b, #[trigger] ray_cell(b, o, dir, k), attacker)
            && exists|j: int| 0 <= j < types.len() && slider_kind(b, ray_cell(b, o, dir, k), #[trigger] types[j])
}

/// The kind bitboard of `t` holds cell `i`.
pub open spec fn kind_has(b: Board, i: int, t: PieceType) -> bool {
    match t {
        PieceType::Pawn => b.pieces.pawns.has(i),
        PieceType::Rook => b.pieces.rooks.has(i),
        PieceType::Knight => b.pieces.knights.has(i),
        PieceType::Bishop => b.pieces.bishops.has(i),
        PieceType::Queen => b.pieces.queens.has(i),
        PieceType::King => b.pieces.kings.has(i),
    }
}

/// One of the cells `targets` holds a piece of `by` of kind `kind`.
pub open spec fn leaper_hit(b: Board, targets: Seq<usize>, by: Player, kind: PieceType) -> bool {
    exists|j: int| 0 <= j < targets.len() && owned(b, #[trigger] targets[j] as int, by) && kind_has(b, targets[j] as int, kind)
}

/// Cell `sq` is attacked by `by`: a knight or king on one of its leaper targets, a rook or
/// queen first along a rook direction, a bishop or queen first along a bishop direction,
/// or a pawn on one of its pawn-capture targets.
pub open spec fn attacked(b: Board, sq: int, by: Player) -> bool {
    let cache = b.geo.cache;
    let pawn_targets = match by {
        Player::White => cache.white_pawn_capture_targets@[sq]@,
        Player::Black => cache.black_pawn_capture_targets@[sq]@,
    };
    ||| leaper_hit(b, cache.knight_targets@[sq]@, by, PieceType::Knight)
    ||| leaper_hit(b, cache.king_targets@[sq]@, by, PieceType::King)
    ||| exists|t: int| 0 <= t < cache.rook_directions.len() && rook_queen_hit(b, sq, (#[trigger] cache.rook_directions@[t]).offsets@, by)
    ||| exists|t: int| 0 <= t < cache.bishop_directions.len() && bishop_queen_hit(b, sq, (#[trigger] cache.bishop_directions@[t]).offsets@, by)
    ||| leaper_hit(b, pawn_targets, by, PieceType::Pawn)
}

/// A king attacks every square it could step to: a cell among the king targets of `sq`
/// that holds a king of `by` makes `sq` attacked by `by`.
pub proof fn lemma_king_attacks_neighbours(b: Board, sq: int, by: Player, j: int)
    requires
        0 <= j < b.geo.cache.king_targets@[sq]@.len(),
        b.piece_at(b.geo.cache.king_targets@[sq]@[j] as int) == Some(
            Piece { piece_type: PieceType::King, owner: by },
        ),
    ensures
        attacked(b, sq, by),
{
    let c = b.geo.cache.king_targets@[sq]@[j] as int;
    let bits = b.pieces.bits(c);
    assert(b.piece_at(c) == crate::pieces::decode(bits));
    assert(bits.king);
    match by {
        Player::White => assert(bits.white),
        Player::Black => {
            assert(!bits.white);
            assert(bits.black);
        },
    }
    assert(owned(b, c, by) && kind_has(b, c, PieceType::King));
    assert(leaper_hit(b, b.geo.cache.king_targets@[sq]@, by, PieceType::King));
}

/// Only one cell of a ray is its first occupied one.
pub(crate) proof fn lemma_first_unique(b: Board, o: int, dir: Seq<isize>, k1: int, k2: int)
    requires
        first_on_ray(b, o, dir, k1),
        first_on_ray(b, o, dir, k2),
    ensures
        k1 == k2,
{
    if k1 < k2 {
        assert(!occupied(b, ray_cell(b, o, dir, k1)));
    } else if k2 < k1 {
        assert(!occupied(b, ray_cell(b, o, dir, k2)));
    }
}

/// A vector with a non-zero count has a non-zero entry.
proof fn lemma_nonzero_entry(v: Seq<isize>)
    requires
        nonzero_count(v) > 0,
    ensures
        exists|k: int| 0 <= k < v.len() && #[trigger] v[k] != 0,
    decreases v.len(),
{
    if v.last() == 0 {
        lemma_nonzero_entry(v.drop_last());
        let k = choose|k: int| 0 <= k < v.drop_last().len() && #[trigger] v.drop_last()[k] != 0;
        assert(v[k] != 0);
    } else {
        assert(v[v.len() - 1] != 0);
    }
}

/// Every rook and bishop direction of a well-formed board is fit for ray scans.
pub proof fn lemma_cache_dirs_ok(b: Board)
    requires
        b.wf(),
        b.geo.side >= 2,
    ensures
        forall|t: int| 0 <= t < b.geo.cache.rook_directions.len() ==> dir_ok(b, #[trigger] b.geo.cache.rook_directions@[t]),
        forall|t: int| 0 <= t < b.geo.cache.bishop_directions.len() ==> dir_ok(b, #[trigger] b.geo.cache.bishop_directions@[t]),
{
    let dim = b.geo.dimension as nat;
    let side = b.geo.side as nat;
    let rooks = b.geo.cache.rook_directions@;
    let bishops = b.geo.cache.bishop_directions@;
    let bf = all_steps(dim).filter(|v: Seq<isize>| is_bishop_dir(v));
    lemma_steps_filter_shaped(dim, |v: Seq<isize>| is_bishop_dir(v));
    assert forall|t: int| 0 <= t < rooks.len() implies dir_ok(b, #[trigger] rooks[t]) by {
        let v = rook_dirs(dim)[t];
        assert(rooks[t].offsets@ == v);
        assert(v[t / 2] != 0);
        assert(rooks[t].id * side + side <= b.geo.cache.validity_masks@.len());
        assert(b.geo.cache.validity_masks@[rooks[t].id * side + 1].inv());
    }
    assert forall|t: int| 0 <= t < bishops.len() implies dir_ok(b, #[trigger] bishops[t]) by {
        let v = bf[t];
        assert(bishops[t].offsets@ == v);
        broadcast use vstd::seq_lib::group_seq_properties;
        assert(bf.contains(v));
        assert(is_bishop_dir(v));
        lemma_nonzero_entry(v);
        assert(bishops[t].id * side + side <= b.geo.cache.validity_masks@.len());
        assert(b.geo.cache.validity_masks@[bishops[t].id * side + 1].inv());
    }
}

/// A ray along a slider direction has fewer than `side` steps.
pub(crate) proof fn lemma_ray_short(x: Seq<u8>, dir: Seq<isize>, dim: nat, side: int, k: int)
    requires
        slider_dir(dir, dim),
        x.len() == dim,
        forall|d: int| 0 <= d < x.len() ==> (#[trigger] x[d] as int) < side,
        ray_step_valid(x, dir, k, side),
        k >= 0,
    ensures
        k < side,
{
    let d = choose|d: int| 0 <= d < dim && #[trigger] dir[d] != 0;
    assert(0 <= x[d] + dir[d] * k < side);
    assert((x[d] as int) < side);
    if dir[d] == 1 {
        assert(dir[d] * k == k);
    } else {
        assert(dir[d] == -1);
        assert(dir[d] * k == -k) by (nonlinear_arith)
            requires
                dir[d] == -1,
        ;
    }
}

/// A ray that reaches `k` steps reaches every smaller positive number of steps.
pub(crate) proof fn lemma_ray_prefix(x: Seq<u8>, dir: Seq<isize>, dim: nat, side: int, j: int, k: int)
    requires
        slider_dir(dir, dim),
        x.len() == dim,
        forall|d: int| 0 <= d < x.len() ==> (#[trigger] x[d] as int) < side,
        ray_step_valid(x, dir, k, side),
        0 <= j <= k,
    ensures
        ray_step_valid(x, dir, j, side),
{
    assert forall|d: int| 0 <= d < x.len() && d < dir.len() implies 0 <= #[trigger] x[d] + dir[d] * j
        < side by {
        assert(0 <= x[d] + dir[d] * k < side);
        assert((x[d] as int) < side);
        if dir[d] == 1 {
            assert(dir[d] * k == k);
            assert(dir[d] * j == j);
        } else if dir[d] == -1 {
            assert(dir[d] * k == -k) by (nonlinear_arith)
                requires
                    dir[d] == -1,
            ;
            assert(dir[d] * j == -j) by (nonlinear_arith)
                requires
                    dir[d] == -1,
            ;
        } else {
            assert(dir[d] == 0);
            assert(dir[d] * j == 0);
        }
    }
}

impl Board {
    /// The first occupied cell along the ray of `dir_info` from `origin_idx`, if any.
    pub fn first_blocker(&self, origin_idx: usize, dir_info: &DirectionInfo) -> (r: Option<usize>)
        requires
            self.wf(),
            self.geo.side >= 2,
            origin_idx < self.total(),
            dir_ok(*self, *dir_info),
        ensures
            r matches Some(c) ==> exists|k: int|
                first_on_ray(*self, origin_idx as int, dir_info.offsets@, k) && c == #[trigger] ray_cell(
                    *self,
                    origin_idx as int,
                    dir_info.offsets@,
                    k,
                ),
            r is None ==> forall|k: int|
                1 <= k && on_ray(*self, origin_idx as int, dir_info.offsets@, k) ==> !occupied(
                    *self,
                    #[trigger] ray_cell(*self, origin_idx as int, dir_info.offsets@, k),
                ),
    {
        let side = self.geo.side;
        let ghost dim = self.geo.dimension as nat;
        let ghost o = origin_idx as int;
        let ghost dir = dir_info.offsets@;
        let ghost x = coords_of(origin_idx as nat, dim, side as nat);
        let stride = dir_info.stride;
        assert(dir_info.id * side + side <= self.geo.cache.validity_masks.len());
        assert(dir_info.id * side <= usize::MAX) by (nonlinear_arith)
            requires
                dir_info.id * side + side <= self.geo.cache.validity_masks.len(),
                self.geo.cache.validity_masks.len() <= usize::MAX,
                side >= 2,
        ;
        let mask = &self.geo.cache.validity_masks[dir_info.id * side + 1];
        let mut idx = origin_idx;
        let ghost mut k: int = 0;
        proof {
            assert(ray_step_valid(x, dir, 0, side as int)) by {
                assert forall|d: int| 0 <= d < x.len() && d < dir.len() implies 0 <= #[trigger] x[d]
                    + dir[d] * 0 < side by {
                    lemma_ray_cell(origin_idx as nat, dim, side as nat, dir, 0);
                    assert((ray_coords(x, dir, 0)[d] as nat) < side);
                }
            }
            assert(ray_cell(*self, o, dir, 0) == o);
        }
        loop
            invariant
                self.wf(),
                side == self.geo.side,
                side >= 2,
                dim == self.geo.dimension,
                dir == dir_info.offsets@,
                o == origin_idx,
                x == coords_of(origin_idx as nat, dim, side as nat),
                origin_idx < self.total(),
                dir_ok(*self, *dir_info),
                stride == dir_info.stride,
                *mask == self.geo.cache.validity_masks@[dir_info.id * side + 1],
                0 <= k < side,
                on_ray(*self, o, dir, k),
                idx == ray_cell(*self, o, dir, k),
                forall|m: int| 1 <= m <= k ==> !occupied(*self, #[trigger] ray_cell(*self, o, dir, m)),
            decreases side - k,
        {
            proof {
                lemma_ray_cell(origin_idx as nat, dim, side as nat, dir, k);
            }
            if !mask.get_bit(idx) {
                proof {
                    assert(!ray_step_valid(ray_coords(x, dir, k), dir, 1, side as int));
                    assert forall|kk: int| 1 <= kk && on_ray(*self, o, dir, kk) implies !occupied(
                        *self,
                        #[trigger] ray_cell(*self, o, dir, kk),
                    ) by {
                        if kk > k {
                            lemma_ray_cell(origin_idx as nat, dim, side as nat, dir, 0);
                            lemma_ray_prefix(x, dir, dim, side as int, k + 1, kk);
                            assert(ray_step_valid(ray_coords(x, dir, k), dir, 1, side as int)) by {
                                assert forall|d: int| 0 <= d < x.len() && d < dir.len() implies 0
                                    <= #[trigger] ray_coords(x, dir, k)[d] + dir[d] * 1 < side by {
                                    assert(0 <= x[d] + dir[d] * (k + 1) < side);
                                    assert(dir[d] * (k + 1) == dir[d] * k + dir[d]) by (nonlinear_arith);
                                }
                            }
                        }
                    }
                }
                return None;
            }
            proof {
                assert(ray_step_valid(x, dir, k + 1, side as int)) by {
                    assert forall|d: int| 0 <= d < x.len() && d < dir.len() implies 0 <= #[trigger] x[d]
                        + dir[d] * (k + 1) < side by {
                        assert(0 <= ray_coords(x, dir, k)[d] + dir[d] * 1 < side);
                        assert(dir[d] * (k + 1) == dir[d] * k + dir[d]) by (nonlinear_arith);
                    }
                }
                lemma_ray_cell(origin_idx as nat, dim, side as nat, dir, k + 1);
                lemma_ray_cell(origin_idx as nat, dim, side as nat, dir, 0);
                lemma_ray_short(x, dir, dim, side as int, k + 1);
                assert(ray_cell(*self, o, dir, k + 1) == ray_cell(*self, o, dir, k) + stride) by (nonlinear_arith)
                    requires
                        stride == stride_of(dir, side as nat, dim),
                        ray_cell(*self, o, dir, k + 1) == o + (k + 1) * stride_of(dir, side as nat, dim),
                        ray_cell(*self, o, dir, k) == o + k * stride_of(dir, side as nat, dim),
                ;
            }
            idx = (idx as isize + stride) as usize;
            proof {
                k = k + 1;
            }
            if self.pieces.white_occupancy.get_bit(idx) || self.pieces.black_occupancy.get_bit(idx) {
                return Some(idx);
            }
        }
    }

    /// The first occupied cell within `limit` steps along the ray of `dir_info` from
    /// `origin_idx`, if any.
    pub fn first_blocker_within(&self, origin_idx: usize, dir_info: &DirectionInfo, limit: usize) -> (r: Option<usize>)
        requires
            self.wf(),
            self.geo.side >= 2,
            origin_idx < self.total(),
            dir_ok(*self, *dir_info),
        ensures
            r matches Some(c) ==> exists|k: int|
                k <= limit && first_on_ray(*self, origin_idx as int, dir_info.offsets@, k) && c == #[trigger] ray_cell(
                    *self,
                    origin_idx as int,
                    dir_info.offsets@,
                    k,
                ),
            r is None ==> forall|k: int|
                1 <= k <= limit && on_ray(*self, origin_idx as int, dir_info.offsets@, k) ==> !occupied(
                    *self,
                    #[trigger] ray_cell(*self, origin_idx as int, dir_info.offsets@, k),
                ),
    {
        let side = self.geo.side;
        let ghost dim = self.geo.dimension as nat;
        let ghost o = origin_idx as int;
        let ghost dir = dir_info.offsets@;
        let ghost x = coords_of(origin_idx as nat, dim, side as nat);
        let stride = dir_info.stride;
        assert(dir_info.id * side + side <= self.geo.cache.validity_masks.len());
        assert(dir_info.id * side <= usize::MAX) by (nonlinear_arith)
            requires
                dir_info.id * side + side <= self.geo.cache.validity_masks.len(),
                self.geo.cache.validity_masks.len() <= usize::MAX,
                side >= 2,
        ;
        let mask = &self.geo.cache.validity_masks[dir_info.id * side + 1];
        let mut idx = origin_idx;
        let mut steps: usize = 0;
        let ghost mut k: int = 0;
        proof {
            assert(ray_step_valid(x, dir, 0, side as int)) by {
                assert forall|d: int| 0 <= d < x.len() && d < dir.len() implies 0 <= #[trigger] x[d]
                    + dir[d] * 0 < side by {
                    lemma_ray_cell(origin_idx as nat, dim, side as nat, dir, 0);
                    assert((ray_coords(x, dir, 0)[d] as nat) < side);
                }
            }
            assert(ray_cell(*self, o, dir, 0) == o);
        }
        loop
            invariant
                self.wf(),
                side == self.geo.side,
                side >= 2,
                dim == self.geo.dimension,
                dir == dir_info.offsets@,
                o == origin_idx,
                x == coords_of(origin_idx as nat, dim, side as nat),
                origin_idx < self.total(),
                dir_ok(*self, *dir_info),
                stride == dir_info.stride,
                *mask == self.geo.cache.validity_masks@[dir_info.id * side + 1],
                0 <= k < side,
                k <= limit,
                steps == k,
                on_ray(*self, o, dir, k),
                idx == ray_cell(*self, o, dir, k),
                forall|m: int| 1 <= m <= k ==> !occupied(*self, #[trigger] ray_cell(*self, o, dir, m)),
            decreases side - k,
        {
            proof {
                lemma_ray_cell(origin_idx as nat, dim, side as nat, dir, k);
            }
            if steps == limit {
                return None;
            }
            if !mask.get_bit(idx) {
                proof {
                    assert(!ray_step_valid(ray_coords(x, dir, k), dir, 1, side as int));
                    assert forall|kk: int| 1 <= kk && on_ray(*self, o, dir, kk) implies !occupied(
                        *self,
                        #[trigger] ray_cell(*self, o, dir, kk),
                    ) by {
                        if kk > k {
                            lemma_ray_cell(origin_idx as nat, dim, side as nat, dir, 0);
                            lemma_ray_prefix(x, dir, dim, side as int, k + 1, kk);
                            assert(ray_step_valid(ray_coords(x, dir, k), dir, 1, side as int)) by {
                                assert forall|d: int| 0 <= d < x.len() && d < dir.len() implies 0
                                    <= #[trigger] ray_coords(x, dir, k)[d] + dir[d] * 1 < side by {
                                    assert(0 <= x[d] + dir[d] * (k + 1) < side);
                                    assert(dir[d] * (k + 1) == dir[d] * k + dir[d]) by (nonlinear_arith);
                                }
                            }
                        }
                    }
                }
                return None;
            }
            proof {
                assert(ray_step_valid(x, dir, k + 1, side as int)) by {
                    assert forall|d: int| 0 <= d < x.len() && d < dir.len() implies 0 <= #[trigger] x[d]
                        + dir[d] * (k + 1) < side by {
                        assert(0 <= ray_coords(x, dir, k)[d] + dir[d] * 1 < side);
                        assert(dir[d] * (k + 1) == dir[d] * k + dir[d]) by (nonlinear_arith);
                    }
                }
                lemma_ray_cell(origin_idx as nat, dim, side as nat, dir, k + 1);
                lemma_ray_cell(origin_idx as nat, dim, side as nat, dir, 0);
                lemma_ray_short(x, dir, dim, side as int, k + 1);
                assert(ray_cell(*self, o, dir, k + 1) == ray_cell(*self, o, dir, k) + stride) by (nonlinear_arith)
                    requires
                        stride == stride_of(dir, side as nat, dim),
                        ray_cell(*self, o, dir, k + 1) == o + (k + 1) * stride_of(dir, side as nat, dim),
                        ray_cell(*self, o, dir, k) == o + k * stride_of(dir, side as nat, dim),
                ;
            }
            idx = (idx as isize + stride) as usize;
            steps = steps + 1;
            proof {
                k = k + 1;
            }
            if self.pieces.white_occupancy.get_bit(idx) || self.pieces.black_occupancy.get_bit(idx) {
                return Some(idx);
            }
        }
    }

    /// Whether the first piece along the ray is an `attacker` rook or queen.
    pub fn scan_ray_rook_queen(&self, origin_idx: usize, dir_info: &DirectionInfo, attacker: Player) -> (r: bool)
        requires
            self.wf(),
            self.geo.side >= 2,
            origin_idx < self.total(),
            dir_ok(*self, *dir_info),
        ensures
            r == rook_queen_hit(*self, origin_idx as int, dir_info.offsets@, attacker),
    {
        let ghost o = origin_idx as int;
        let ghost dir = dir_info.offsets@;
        match self.first_blocker(origin_idx, dir_info) {
            Some(idx) => {
                let enemy = match attacker {
                    Player::White => self.pieces.white_occupancy.get_bit(idx),
                    Player::Black => self.pieces.black_occupancy.get_bit(idx),
                };
                let r = enemy && (self.pieces.rooks.get_bit(idx) || self.pieces.queens.get_bit(idx));
                proof {
                    let k = choose|k: int| first_on_ray(*self, o, dir, k) && idx == #[trigger] ray_cell(*self, o, dir, k);
                    if rook_queen_hit(*self, o, dir, attacker) {
                        let k2 = choose|k2: int| first_on_ray(*self, o, dir, k2) && owned(*self, #[trigger] ray_cell(*self, o, dir, k2), attacker) && rook_or_queen(*self, ray_cell(*self, o, dir, k2));
                        lemma_first_unique(*self, o, dir, k, k2);
                    }
                }
                r
            },
            None => false,
        }
    }

    /// Whether the first piece along the ray is an `attacker` bishop or queen.
    pub fn scan_ray_bishop_queen(&self, origin_idx: usize, dir_info: &DirectionInfo, attacker: Player) -> (r: bool)
        requires
            self.wf(),
            self.geo.side >= 2,
            origin_idx < self.total(),
            dir_ok(*self, *dir_info),
        ensures
            r == bishop_queen_hit(*self, origin_idx as int, dir_info.offsets@, attacker),
    {
        let ghost o = origin_idx as int;
        let ghost dir = dir_info.offsets@;
        match self.first_blocker(origin_idx, dir_info) {
            Some(idx) => {
                let enemy = match attacker {
                    Player::White => self.pieces.white_occupancy.get_bit(idx),
                    Player::Black => self.pieces.black_occupancy.get_bit(idx),
                };
                let r = enemy && (self.pieces.bishops.get_bit(idx) || self.pieces.queens.get_bit(idx));
                proof {
                    let k = choose|k: int| first_on_ray(*self, o, dir, k) && idx == #[trigger] ray_cell(*self, o, dir, k);
                    if bishop_queen_hit(*self, o, dir, attacker) {
                        let k2 = choose|k2: int| first_on_ray(*self, o, dir, k2) && owned(*self, #[trigger] ray_cell(*self, o, dir, k2), attacker) && bishop_or_queen(*self, ray_cell(*self, o, dir, k2));
                        lemma_first_unique(*self, o, dir, k, k2);
                    }
                }
                r
            },
            None => false,
        }
    }

    /// Whether the first piece along the ray is an `attacker` piece of one of the slider
    /// kinds in `threat_types`.
    pub fn scan_ray_for_threat_idx(
        &self,
        origin_idx: usize,
        dir_info: &DirectionInfo,
        attacker: Player,
        threat_types: &[PieceType],
    ) -> (r: bool)
        requires
            self.wf(),
            self.geo.side >= 2,
            origin_idx < self.total(),
            dir_ok(*self, *dir_info),
        ensures
            r == threat_hit(*self, origin_idx as int, dir_info.offsets@, attacker, threat_types@),
    {
        let ghost o = origin_idx as int;
        let ghost dir = dir_info.offsets@;
        match self.first_blocker(origin_idx, dir_info) {
            Some(idx) => {
                let ghost k = choose|k: int| first_on_ray(*self, o, dir, k) && idx == #[trigger] ray_cell(*self, o, dir, k);
                proof {
                    assert forall|k2: int| first_on_ray(*self, o, dir, k2) implies #[trigger] ray_cell(*self, o, dir, k2) == idx by {
                        lemma_first_unique(*self, o, dir, k, k2);
                    }
                }
                let enemy = match attacker {
                    Player::White => self.pieces.white_occupancy.get_bit(idx),
                    Player::Black => self.pieces.black_occupancy.get_bit(idx),
                };
                if enemy {
                    let n = threat_types.len();
                    let mut j: usize = 0;
                    while j < n
                        invariant
                            n == threat_types@.len(),
                            j <= n,
                            o == origin_idx as int,
                            dir == dir_info.offsets@,
                            first_on_ray(*self, o, dir, k),
                            idx == ray_cell(*self, o, dir, k),
                            owned(*self, idx as int, attacker),
                            forall|q: int| 0 <= q < j ==> !slider_kind(*self, idx as int, #[trigger] threat_types@[q]),
                        decreases n - j,
                    {
                        let t = threat_types[j];
                        let found = match t {
                            PieceType::Rook => self.pieces.rooks.get_bit(idx),
                            PieceType::Bishop => self.pieces.bishops.get_bit(idx),
                            PieceType::Queen => self.pieces.queens.get_bit(idx),
                            _ => false,
                        };
                        if found {
                            proof {
                                let c = ray_cell(*self, o, dir, k);
                                assert(slider_kind(*self, c, threat_types@[j as int]));
                                assert(exists|q: int| 0 <= q < threat_types@.len() && slider_kind(*self, c, #[trigger] threat_types@[q]));
                                assert(first_on_ray(*self, o, dir, k) && owned(*self, c, attacker));
                                assert(threat_hit(*self, o, dir, attacker, threat_types@));
                            }
                            return true;
                        }
                        j = j + 1;
                    }
                }
                false
            },
            None => false,
        }
    }

    /// Whether cell `sq_idx` is attacked by `by_player` (see `attacked`).
    pub fn is_square_attacked_idx(&self, sq_idx: usize, by_player: Player) -> (r: bool)
        requires
            self.wf(),
            self.geo.side >= 2,
            sq_idx < self.total(),
        ensures
            r == attacked(*self, sq_idx as int, by_player),
    {
        proof {
            lemma_cache_dirs_ok(*self);
        }
        let ghost b = *self;
        let kt = self.geo.cache.knight_targets[sq_idx].as_slice();
        let mut j: usize = 0;
        while j < kt.len()
            invariant
                b == *self,
                kt@ == self.geo.cache.knight_targets@[sq_idx as int]@,
                j <= kt.len(),
                forall|q: int| 0 <= q < j ==> !(owned(b, #[trigger] kt@[q] as int, by_player) && b.pieces.knights.has(kt@[q] as int)),
            decreases kt.len() - j,
        {
            let t = kt[j];
            let enemy = match by_player {
                Player::White => self.pieces.white_occupancy.get_bit(t),
                Player::Black => self.pieces.black_occupancy.get_bit(t),
            };
            if enemy && self.pieces.knights.get_bit(t) {
                proof {
                    assert(owned(b, kt@[j as int] as int, by_player) && b.pieces.knights.has(kt@[j as int] as int));
                }
                return true;
            }
            j = j + 1;
        }
        let kg = self.geo.cache.king_targets[sq_idx].as_slice();
        let mut j: usize = 0;
        while j < kg.len()
            invariant
                b == *self,
                kg@ == self.geo.cache.king_targets@[sq_idx as int]@,
                j <= kg.len(),
                forall|q: int| 0 <= q < j ==> !(owned(b, #[trigger] kg@[q] as int, by_player) && b.pieces.kings.has(kg@[q] as int)),
            decreases kg.len() - j,
        {
            let t = kg[j];
            let enemy = match by_player {
                Player::White => self.pieces.white_occupancy.get_bit(t),
                Player::Black => self.pieces.black_occupancy.get_bit(t),
            };
            if enemy && self.pieces.kings.get_bit(t) {
                proof {
                    assert(owned(b, kg@[j as int] as int, by_player) && b.pieces.kings.has(kg@[j as int] as int));
                }
                return true;
            }
            j = j + 1;
        }
        let nr = self.geo.cache.rook_directions.len();
        let mut t: usize = 0;
        while t < nr
            invariant
                b == *self,
                self.wf(),
                self.geo.side >= 2,
                sq_idx < self.total(),
                nr == self.geo.cache.rook_directions.len(),
                forall|u: int| 0 <= u < nr ==> dir_ok(b, #[trigger] b.geo.cache.rook_directions@[u]),
                t <= nr,
                forall|u: int| 0 <= u < t ==> !rook_queen_hit(b, sq_idx as int, (#[trigger] b.geo.cache.rook_directions@[u]).offsets@, by_player),
            decreases nr - t,
        {
            if self.scan_ray_rook_queen(sq_idx, &self.geo.cache.rook_directions[t], by_player) {
                return true;
            }
            t = t + 1;
        }
        let nb = self.geo.cache.bishop_directions.len();
        let mut t: usize = 0;
        while t < nb
            invariant
                b == *self,
                self.wf(),
                self.geo.side >= 2,
                sq_idx < self.total(),
                nb == self.geo.cache.bishop_directions.len(),
                forall|u: int| 0 <= u < nb ==> dir_ok(b, #[trigger] b.geo.cache.bishop_directions@[u]),
                t <= nb,
                forall|u: int| 0 <= u < t ==> !bishop_queen_hit(b, sq_idx as int, (#[trigger] b.geo.cache.bishop_directions@[u]).offsets@, by_player),
            decreases nb - t,
        {
            if self.scan_ray_bishop_queen(sq_idx, &self.geo.cache.bishop_directions[t], by_player) {
                return true;
            }
            t = t + 1;
        }
        let pt = match by_player {
            Player::White => self.geo.cache.white_pawn_capture_targets[sq_idx].as_slice(),
            Player::Black => self.geo.cache.black_pawn_capture_targets[sq_idx].as_slice(),
        };
        let mut j: usize = 0;
        while j < pt.len()
            invariant
                b == *self,
                pt@ == match by_player {
                    Player::White => b.geo.cache.white_pawn_capture_targets@[sq_idx as int]@,
                    Player::Black => b.geo.cache.black_pawn_capture_targets@[sq_idx as int]@,
                },
                j <= pt.len(),
                forall|q: int| 0 <= q < j ==> !(owned(b, #[trigger] pt@[q] as int, by_player) && b.pieces.pawns.has(pt@[q] as int)),
            decreases pt.len() - j,
        {
            let t = pt[j];
            let enemy = match by_player {
                Player::White => self.pieces.white_occupancy.get_bit(t),
                Player::Black => self.pieces.black_occupancy.get_bit(t),
            };
            if enemy && self.pieces.pawns.get_bit(t) {
                proof {
                    assert(owned(b, pt@[j as int] as int, by_player) && b.pieces.pawns.has(pt@[j as int] as int));
                }
                return true;
            }
            j = j + 1;
        }
        false
    }

    /// Whether a square is attacked by `by_player`; false for a square off the board.
    pub fn is_square_attacked(&self, square: &Coordinate, by_player: Player) -> (r: bool)
        requires
            self.wf(),
            self.geo.side >= 2,
            square@.len() <= self.geo.dimension,
        ensures
            r == match self.spec_index(square@) {
                Some(i) => attacked(*self, i as int, by_player),
                None => false,
            },
    {
        proof {
            lemma_cell_count_monotone(self.geo.side as nat, square@.len(), self.geo.dimension as nat);
        }
        match self.coords_to_index(square.values.as_slice()) {
            Some(idx) => self.is_square_attacked_idx(idx, by_player),
            None => false,
        }
    }
}

} // verus!
