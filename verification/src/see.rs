//! Static exchange evaluation: the least valuable attacker of a square, and the balance
//! of a capture sequence on one square when each side recaptures with its cheapest piece.
use vstd::prelude::*;
use crate::attacks::{owned, kind_has, first_on_ray, ray_cell, dir_ok, lemma_cache_dirs_ok, lemma_first_unique};
use crate::board::Board;
use crate::geometry::DirectionInfo;
use crate::models::{Coordinate, Move, PieceType, Player};
use crate::pieces::{PieceMap, empty_bits};
use crate::bitboard_large::BitBoardLarge;
use crate::attacks::occupied;
use std::sync::Arc;

verus! {

/// The cells from which a pawn of `by` captures on `sq`.
pub open spec fn pawn_sources(b: Board, sq: int, by: Player) -> Seq<usize> {
    match by {
        Player::White => b.geo.cache.white_pawn_capture_targets@[sq]@,
        Player::Black => b.geo.cache.black_pawn_capture_targets@[sq]@,
    }
}

/// Entry `j` of `targets` is the first holding a piece of `by` of kind `kind`.
pub open spec fn leaper_first(b: Board, targets: Seq<usize>, by: Player, kind: PieceType, j: int) -> bool {
    &&& 0 <= j < targets.len()
    &&& owned(b, targets[j] as int, by)
    &&& kind_has(b, targets[j] as int, kind)
    &&& forall|m: int|
        0 <= m < j ==> !(owned(b, #[trigger] targets[m] as int, by) && kind_has(b, targets[m] as int, kind))
}

/// Some entry of `targets` holds a piece of `by` of kind `kind`.
pub open spec fn leaper_any(b: Board, targets: Seq<usize>, by: Player, kind: PieceType) -> bool {
    exists|j: int|
        0 <= j < targets.len() && owned(b, #[trigger] targets[j] as int, by) && kind_has(b, targets[j] as int, kind)
}

/// The first piece along the ray from `o` stands on `c` and is a piece of `by` of kind
/// `kind`.
pub open spec fn line_hit(b: Board, o: int, dir: Seq<isize>, by: Player, kind: PieceType, c: int) -> bool {
    exists|k: int|
        first_on_ray(b, o, dir, k) && c == #[trigger] ray_cell(b, o, dir, k) && owned(b, c, by)
            && kind_has(b, c, kind)
}

/// The first piece along the ray from `o` is a piece of `by` of kind `kind`.
pub open spec fn line_any(b: Board, o: int, dir: Seq<isize>, by: Player, kind: PieceType) -> bool {
    exists|k: int|
        first_on_ray(b, o, dir, k) && owned(b, #[trigger] ray_cell(b, o, dir, k), by) && kind_has(
            b,
            ray_cell(b, o, dir, k),
            kind,
        )
}

/// Direction `t` of `dirs` is the first whose first piece from `o` is one of `by` of kind
/// `kind`, and that piece stands on `c`.
pub open spec fn lines_first(
    b: Board,
    o: int,
    dirs: Seq<DirectionInfo>,
    by: Player,
    kind: PieceType,
    t: int,
    c: int,
) -> bool {
    &&& 0 <= t < dirs.len()
    &&& line_hit(b, o, dirs[t].offsets@, by, kind, c)
    &&& forall|u: int| 0 <= u < t ==> !line_any(b, o, (#[trigger] dirs[u]).offsets@, by, kind)
}

/// Some direction of `dirs` has a piece of `by` of kind `kind` first from `o`.
pub open spec fn lines_any(b: Board, o: int, dirs: Seq<DirectionInfo>, by: Player, kind: PieceType) -> bool {
    exists|t: int| 0 <= t < dirs.len() && line_any(b, o, (#[trigger] dirs[t]).offsets@, by, kind)
}

/// The stages of the attacker search in order: pawns, knights, bishops, rooks, queens on
/// bishop lines, queens on rook lines, king. Stage `s` finds a piece of `by` attacking
/// `sq`.
pub open spec fn stage_any(b: Board, sq: int, by: Player, s: int) -> bool {
    let cache = b.geo.cache;
    if s == 0 {
        leaper_any(b, pawn_sources(b, sq, by), by, PieceType::Pawn)
    } else if s == 1 {
        leaper_any(b, cache.knight_targets@[sq]@, by, PieceType::Knight)
    } else if s == 2 {
        lines_any(b, sq, cache.bishop_directions@, by, PieceType::Bishop)
    } else if s == 3 {
        lines_any(b, sq, cache.rook_directions@, by, PieceType::Rook)
    } else if s == 4 {
        lines_any(b, sq, cache.bishop_directions@, by, PieceType::Queen)
    } else if s == 5 {
        lines_any(b, sq, cache.rook_directions@, by, PieceType::Queen)
    } else if s == 6 {
        leaper_any(b, cache.king_targets@[sq]@, by, PieceType::King)
    } else {
        false
    }
}

/// Stage `s` finds first the piece on `c`: the first target in offset order for the
/// leapers, the first piece on the first matching direction for the sliders.
pub open spec fn stage_cell(b: Board, sq: int, by: Player, s: int, c: int) -> bool {
    let cache = b.geo.cache;
    if s == 0 {
        exists|j: int|
            leaper_first(b, pawn_sources(b, sq, by), by, PieceType::Pawn, j) && c == #[trigger] pawn_sources(
                b,
                sq,
                by,
            )[j]
    } else if s == 1 {
        exists|j: int|
            leaper_first(b, cache.knight_targets@[sq]@, by, PieceType::Knight, j) && c
                == #[trigger] cache.knight_targets@[sq]@[j]
    } else if s == 2 {
        exists|t: int| #[trigger] lines_first(b, sq, cache.bishop_directions@, by, PieceType::Bishop, t, c)
    } else if s == 3 {
        exists|t: int| #[trigger] lines_first(b, sq, cache.rook_directions@, by, PieceType::Rook, t, c)
    } else if s == 4 {
        exists|t: int| #[trigger] lines_first(b, sq, cache.bishop_directions@, by, PieceType::Queen, t, c)
    } else if s == 5 {
        exists|t: int| #[trigger] lines_first(b, sq, cache.rook_directions@, by, PieceType::Queen, t, c)
    } else if s == 6 {
        exists|j: int|
            leaper_first(b, cache.king_targets@[sq]@, by, PieceType::King, j) && c
                == #[trigger] cache.king_targets@[sq]@[j]
    } else {
        false
    }
}

/// The value of the pieces a stage looks for.
pub open spec fn stage_value(s: int) -> int {
    if s == 0 {
        100
    } else if s == 1 {
        320
    } else if s == 2 {
        330
    } else if s == 3 {
        500
    } else if s <= 5 {
        900
    } else {
        20000
    }
}

/// `r` is the cheapest attacker of `sq` of side `by`: the value and cell of the piece the
/// first stage with a find finds, or nothing when no stage finds one.
pub open spec fn attacker_result(b: Board, sq: int, by: Player, r: Option<(i32, usize)>) -> bool {
    match r {
        None => forall|s: int| 0 <= s < 7 ==> !#[trigger] stage_any(b, sq, by, s),
        Some((v, c)) => exists|s: int|
            0 <= s < 7 && (forall|s2: int| 0 <= s2 < s ==> !#[trigger] stage_any(b, sq, by, s2))
                && #[trigger] stage_cell(b, sq, by, s, c as int) && v == stage_value(s),
    }
}

/// Whether cell `i` holds a piece of kind `kind`.
fn kind_bit(board: &Board, i: usize, kind: PieceType) -> (r: bool)
    ensures
        r == kind_has(*board, i as int, kind),
{
    match kind {
        PieceType::Pawn => board.pieces.pawns.get_bit(i),
        PieceType::Knight => board.pieces.knights.get_bit(i),
        PieceType::Bishop => board.pieces.bishops.get_bit(i),
        PieceType::Rook => board.pieces.rooks.get_bit(i),
        PieceType::Queen => board.pieces.queens.get_bit(i),
        PieceType::King => board.pieces.kings.get_bit(i),
    }
}

/// Whether cell `i` holds a piece of `by`.
fn owned_bit(board: &Board, i: usize, by: Player) -> (r: bool)
    ensures
        r == owned(*board, i as int, by),
{
    match by {
        Player::White => board.pieces.white_occupancy.get_bit(i),
        Player::Black => board.pieces.black_occupancy.get_bit(i),
    }
}

/// The first of `targets` holding a piece of `by` of kind `kind`.
fn leaper_scan(board: &Board, targets: &[usize], by: Player, kind: PieceType) -> (r: Option<usize>)
    requires
        board.wf(),
        forall|q: int| 0 <= q < targets.len() ==> (#[trigger] targets@[q] as int) < board.total(),
    ensures
        r matches Some(c) ==> exists|j: int| leaper_first(*board, targets@, by, kind, j) && c == #[trigger] targets@[j],
        r is None ==> !leaper_any(*board, targets@, by, kind),
{
    let mut j: usize = 0;
    while j < targets.len()
        invariant
            board.wf(),
            forall|q: int| 0 <= q < targets.len() ==> (#[trigger] targets@[q] as int) < board.total(),
            j <= targets.len(),
            forall|m: int|
                0 <= m < j ==> !(owned(*board, #[trigger] targets@[m] as int, by) && kind_has(
                    *board,
                    targets@[m] as int,
                    kind,
                )),
        decreases targets.len() - j,
    {
        let t = targets[j];
        if owned_bit(board, t, by) && kind_bit(board, t, kind) {
            assert(leaper_first(*board, targets@, by, kind, j as int));
            return Some(t);
        }
        j += 1;
    }
    None
}

/// The first direction of `dirs` whose first piece from `sq` is one of `by` of kind
/// `kind`, and where that piece stands.
fn line_scan(board: &Board, sq: usize, dirs: &Vec<DirectionInfo>, by: Player, kind: PieceType) -> (r: Option<usize>)
    requires
        board.wf(),
        board.geo.side >= 2,
        sq < board.total(),
        forall|t: int| 0 <= t < dirs.len() ==> dir_ok(*board, #[trigger] dirs@[t]),
    ensures
        r matches Some(c) ==> exists|t: int| #[trigger] lines_first(*board, sq as int, dirs@, by, kind, t, c as int),
        r matches Some(c) ==> c < board.total(),
        r is None ==> !lines_any(*board, sq as int, dirs@, by, kind),
{
    let ghost b = *board;
    let ghost o = sq as int;
    let mut t: usize = 0;
    while t < dirs.len()
        invariant
            b == *board,
            o == sq as int,
            board.wf(),
            board.geo.side >= 2,
            sq < board.total(),
            forall|u: int| 0 <= u < dirs.len() ==> dir_ok(*board, #[trigger] dirs@[u]),
            t <= dirs.len(),
            forall|u: int| 0 <= u < t ==> !line_any(b, o, (#[trigger] dirs@[u]).offsets@, by, kind),
        decreases dirs.len() - t,
    {
        let di = &dirs[t];
        let ghost dir = di.offsets@;
        assert(dir_ok(b, dirs@[t as int]));
        match board.first_blocker(sq, di) {
            Some(c) => {
                let ghost k = choose|k: int| first_on_ray(b, o, dir, k) && c == #[trigger] ray_cell(b, o, dir, k);
                proof {
                    if c >= b.total() {
                        assert(b.pieces.bits(c as int) == crate::pieces::empty_bits());
                    }
                }
                if owned_bit(board, c, by) && kind_bit(board, c, kind) {
                    assert(line_hit(b, o, dir, by, kind, c as int));
                    assert(lines_first(b, o, dirs@, by, kind, t as int, c as int));
                    return Some(c);
                }
                proof {
                    if line_any(b, o, dir, by, kind) {
                        let k2 = choose|k2: int|
                            first_on_ray(b, o, dir, k2) && owned(b, #[trigger] ray_cell(b, o, dir, k2), by) && kind_has(
                                b,
                                ray_cell(b, o, dir, k2),
                                kind,
                            );
                        lemma_first_unique(b, o, dir, k, k2);
                    }
                }
            },
            None => {
                proof {
                    if line_any(b, o, dir, by, kind) {
                        let k2 = choose|k2: int|
                            first_on_ray(b, o, dir, k2) && owned(b, #[trigger] ray_cell(b, o, dir, k2), by) && kind_has(
                                b,
                                ray_cell(b, o, dir, k2),
                                kind,
                            );
                        assert(first_on_ray(b, o, dir, k2));
                    }
                }
            },
        }
        t += 1;
    }
    None
}

/// The targets of the offsets `offs` from cell `sq` lie on the board.
proof fn lemma_targets_on_board(b: Board, sq: int, offs: Seq<Seq<isize>>)
    requires
        b.wf(),
        0 <= sq < b.total(),
    ensures
        forall|q: int|
            0 <= q < crate::geometry::leaper_targets(crate::geometry::coords_of(sq as nat, b.geo.dimension as nat, b.geo.side as nat), offs, b.geo.side as int).len()
                ==> (#[trigger] crate::geometry::leaper_targets(crate::geometry::coords_of(sq as nat, b.geo.dimension as nat, b.geo.side as nat), offs, b.geo.side as int)[q] as int) < b.total(),
{
    let c = crate::geometry::coords_of(sq as nat, b.geo.dimension as nat, b.geo.side as nat);
    crate::representation::lemma_cell_count_monotone(b.geo.side as nat, c.len(), b.geo.dimension as nat);
    crate::geometry::lemma_leaper_targets_bound(c, offs, b.geo.side as nat);
}

proof fn lemma_found(b: Board, sq: int, by: Player, s: int, c: usize)
    requires
        0 <= s < 7,
        forall|s2: int| 0 <= s2 < s ==> !#[trigger] stage_any(b, sq, by, s2),
        stage_cell(b, sq, by, s, c as int),
    ensures
        attacker_result(b, sq, by, Some((stage_value(s) as i32, c))),
{
    let r = Some((stage_value(s) as i32, c));
    assert(stage_value(s) as i32 == stage_value(s));
    match r {
        Some((v, c2)) => {
            assert(c2 == c);
            assert(stage_cell(b, sq, by, s, c2 as int));
        },
        None => {},
    }
}

impl Board {
    /// The cheapest piece of `attacker` attacking `target_sq`, with its value (pawn 100,
    /// knight 320, bishop 330, rook 500, queen 900, king 20000) and its cell; see
    /// `attacker_result` for the order in which the pieces are looked for.
    pub fn get_smallest_attacker(&self, target_sq: &Coordinate, attacker: Player) -> (r: Option<(i32, usize)>)
        requires
            self.wf(),
            self.geo.side >= 2,
            target_sq@.len() == self.geo.dimension,
            self.spec_index(target_sq@) is Some,
        ensures
            attacker_result(*self, self.spec_index(target_sq@)->0 as int, attacker, r),
            r matches Some((v, c)) ==> c < self.total(),
    {
        let ghost b = *self;
        proof {
            lemma_cache_dirs_ok(b);
        }
        let sq = match self.coords_to_index(target_sq.values.as_slice()) {
            Some(i) => i,
            None => {
                return None;
            },
        };
        let ghost o = sq as int;
        let cache = &self.geo.cache;
        proof {
            lemma_targets_on_board(b, o, crate::calculators::view_dirs(cache.black_pawn_capture_offsets@));
            lemma_targets_on_board(b, o, crate::calculators::view_dirs(cache.white_pawn_capture_offsets@));
            lemma_targets_on_board(b, o, crate::calculators::view_dirs(cache.knight_offsets@));
            lemma_targets_on_board(b, o, crate::calculators::view_dirs(cache.king_offsets@));
        }
        let pawn_t = match attacker {
            Player::White => cache.white_pawn_capture_targets[sq].as_slice(),
            Player::Black => cache.black_pawn_capture_targets[sq].as_slice(),
        };
        assert(pawn_t@ == pawn_sources(b, o, attacker));
        if let Some(c) = leaper_scan(self, pawn_t, attacker, PieceType::Pawn) {
            let ghost j = choose|j: int| leaper_first(b, pawn_t@, attacker, PieceType::Pawn, j) && c == #[trigger] pawn_t@[j];
            assert(c == pawn_sources(b, o, attacker)[j]);
            assert(stage_cell(b, o, attacker, 0, c as int));
            proof {
                lemma_found(b, o, attacker, 0, c);
            }
            return Some((100, c));
        }
        assert(!stage_any(b, o, attacker, 0));
        if let Some(c) = leaper_scan(self, cache.knight_targets[sq].as_slice(), attacker, PieceType::Knight) {
            assert(stage_cell(b, o, attacker, 1, c as int));
            proof {
                lemma_found(b, o, attacker, 1, c);
            }
            return Some((320, c));
        }
        assert(!stage_any(b, o, attacker, 1));
        if let Some(c) = line_scan(self, sq, &cache.bishop_directions, attacker, PieceType::Bishop) {
            assert(stage_cell(b, o, attacker, 2, c as int));
            proof {
                lemma_found(b, o, attacker, 2, c);
            }
            return Some((330, c));
        }
        assert(!stage_any(b, o, attacker, 2));
        if let Some(c) = line_scan(self, sq, &cache.rook_directions, attacker, PieceType::Rook) {
            assert(stage_cell(b, o, attacker, 3, c as int));
            proof {
                lemma_found(b, o, attacker, 3, c);
            }
            return Some((500, c));
        }
        assert(!stage_any(b, o, attacker, 3));
        if let Some(c) = line_scan(self, sq, &cache.bishop_directions, attacker, PieceType::Queen) {
            assert(stage_cell(b, o, attacker, 4, c as int));
            proof {
                lemma_found(b, o, attacker, 4, c);
            }
            return Some((900, c));
        }
        assert(!stage_any(b, o, attacker, 4));
        if let Some(c) = line_scan(self, sq, &cache.rook_directions, attacker, PieceType::Queen) {
            assert(stage_cell(b, o, attacker, 5, c as int));
            proof {
                lemma_found(b, o, attacker, 5, c);
            }
            return Some((900, c));
        }
        assert(!stage_any(b, o, attacker, 5));
        if let Some(c) = leaper_scan(self, cache.king_targets[sq].as_slice(), attacker, PieceType::King) {
            assert(stage_cell(b, o, attacker, 6, c as int));
            proof {
                lemma_found(b, o, attacker, 6, c);
            }
            return Some((20000, c));
        }
        assert(!stage_any(b, o, attacker, 6));
        None
    }
}

/// Another handle on the shared value (`std::sync::Arc::clone`): the handle points at
/// the same value.
#[verifier::external_body]
fn share<T>(a: &Arc<T>) -> (r: Arc<T>)
    ensures
        r == *a,
{
    Arc::clone(a)
}

/// The cells of `a` are those of `b` but for cell `c`, which `a` has empty; the shape is
/// the same.
pub open spec fn cleared_from(a: Board, b: Board, c: int) -> bool {
    &&& a.wf()
    &&& a.geo == b.geo
    &&& forall|j: int| #[trigger] a.pieces.bits(j) == if j == c {
        empty_bits()
    } else {
        b.pieces.bits(j)
    }
}

/// The number of occupied cells below `n`.
pub open spec fn occ_count(b: Board, n: nat) -> nat
    decreases n,
{
    if n == 0 {
        0
    } else {
        occ_count(b, (n - 1) as nat) + if occupied(b, n - 1) {
            1nat
        } else {
            0
        }
    }
}

proof fn lemma_occ_count_cleared(a: Board, b: Board, c: int, n: nat)
    requires
        forall|j: int| #[trigger] a.pieces.bits(j) == if j == c {
            empty_bits()
        } else {
            b.pieces.bits(j)
        },
        occupied(b, c),
        0 <= c,
    ensures
        c < n ==> occ_count(a, n) + 1 == occ_count(b, n),
        c >= n ==> occ_count(a, n) == occ_count(b, n),
        occ_count(b, n) <= n,
    decreases n,
{
    if n > 0 {
        lemma_occ_count_cleared(a, b, c, (n - 1) as nat);
        assert(a.pieces.bits(n - 1) == if n - 1 == c { empty_bits() } else { b.pieces.bits(n - 1) });
    }
}

proof fn lemma_occ_count_pos(b: Board, c: int, n: nat)
    requires
        occupied(b, c),
        0 <= c < n,
    ensures
        occ_count(b, n) >= 1,
    decreases n,
{
    if c < n - 1 {
        lemma_occ_count_pos(b, c, (n - 1) as nat);
    }
}

/// The value of a piece kind in the exchange: pawn 100, knight 320, bishop 330, rook 500,
/// queen 900, king 20000.
pub open spec fn exchange_value(pt: PieceType) -> int {
    match pt {
        PieceType::Pawn => 100,
        PieceType::Knight => 320,
        PieceType::Bishop => 330,
        PieceType::Rook => 500,
        PieceType::Queen => 900,
        PieceType::King => 20000,
    }
}

/// The side to move after `k` captures when `side0` makes the first recapture.
pub open spec fn side_at(side0: Player, k: int) -> Player {
    if k % 2 == 0 {
        side0
    } else {
        side0.spec_opponent()
    }
}

/// The exchange on `sq` as it unfolds from board `boards[0]` (the first capture made,
/// its piece worth `first_val` having left its cell): capture `k` is made on
/// `boards[k]` by `atk[k]`, the cheapest attacker of the side to move, whose cell is then
/// emptied; it stops when the side to move has no attacker or a king captured.
/// `gains[k]` is what the side making capture `k` would win if the exchange stopped
/// there: the captured value less the previous gain.
pub open spec fn see_trace(
    sq: int,
    side0: Player,
    target_val: int,
    first_val: int,
    boards: Seq<Board>,
    atk: Seq<(i32, usize)>,
    gains: Seq<int>,
) -> bool {
    let n = atk.len() as int;
    &&& boards.len() == n + 1
    &&& gains.len() == n + 1
    &&& gains[0] == target_val
    &&& forall|k: int|
        0 <= k < n ==> attacker_result(#[trigger] boards[k], sq, side_at(side0, k), Some(atk[k]))
    &&& forall|k: int|
        0 <= k < n ==> cleared_from(#[trigger] boards[k + 1], boards[k], atk[k].1 as int)
    &&& forall|k: int| 0 <= k < n - 1 ==> (#[trigger] atk[k]).0 < 20000
    &&& forall|k: int|
        0 <= k < n ==> #[trigger] gains[k + 1] == (if k == 0 {
            first_val
        } else {
            atk[k - 1].0 as int
        }) - gains[k]
    &&& (n == 0 || atk[n - 1].0 < 20000) ==> attacker_result(boards[n], sq, side_at(side0, n), None)
}

/// The gains folded from the last capture back: each side stops the exchange where
/// going on would lose more.
pub open spec fn resolve(g: Seq<int>) -> int
    decreases g.len(),
{
    if g.len() <= 1 {
        g[0]
    } else {
        let n = g.len() as int;
        let last = g[n - 1];
        let prev = g[n - 2];
        resolve(g.take(n - 1).update(n - 2, if last > -prev { -last } else { prev }))
    }
}

/// The value of an exchange for the side making the first capture when, after each
/// capture, the side to move may stop or capture on: `g[k]` is what the side making
/// capture `k` keeps if the exchange stops there, and the side to move captures on only
/// when that leaves it better off.
pub open spec fn stop_value(g: Seq<int>) -> int
    decreases g.len(),
{
    if g.len() <= 1 {
        g[0]
    } else {
        let on = -stop_value(g.skip(1));
        if g[0] < on {
            g[0]
        } else {
            on
        }
    }
}

/// Settling the last capture first leaves the value of the exchange unchanged.
proof fn lemma_stop_value_fold(g: Seq<int>)
    requires
        g.len() >= 2,
    ensures
        stop_value(g) == stop_value(
            g.take(g.len() - 1).update(
                g.len() - 2,
                if g[g.len() - 1] > -g[g.len() - 2] {
                    -g[g.len() - 1]
                } else {
                    g[g.len() - 2]
                },
            ),
        ),
    decreases g.len(),
{
    let n = g.len() as int;
    let f = g.take(n - 1).update(n - 2, if g[n - 1] > -g[n - 2] { -g[n - 1] } else { g[n - 2] });
    if n == 2 {
        assert(g.skip(1).len() == 1);
        assert(g.skip(1)[0] == g[1]);
        assert(stop_value(g.skip(1)) == g[1]);
        assert(f.len() == 1);
        assert(stop_value(f) == f[0]);
    } else {
        let h = g.skip(1);
        lemma_stop_value_fold(h);
        let m = h.len() as int;
        let fh = h.take(m - 1).update(m - 2, if h[m - 1] > -h[m - 2] { -h[m - 1] } else { h[m - 2] });
        assert(f.skip(1) =~= fh);
        assert(f[0] == g[0]);
        assert(f.len() >= 2);
        assert(stop_value(f) == (if f[0] < -stop_value(f.skip(1)) { f[0] } else { -stop_value(f.skip(1)) }));
    }
}

/// Folding the gains from the last capture back gives the value of the exchange where
/// each side may stop.
pub proof fn lemma_resolve_is_stop_value(g: Seq<int>)
    requires
        g.len() >= 1,
    ensures
        resolve(g) == stop_value(g),
    decreases g.len(),
{
    if g.len() > 1 {
        let n = g.len() as int;
        let f = g.take(n - 1).update(n - 2, if g[n - 1] > -g[n - 2] { -g[n - 1] } else { g[n - 2] });
        lemma_resolve_is_stop_value(f);
        lemma_stop_value_fold(g);
    }
}

/// The side making a capture keeps at most what stopping there gives it, and at least the
/// smaller of that and what the next capture would leave it.
pub proof fn lemma_stop_value_bounds(g: Seq<int>)
    requires
        g.len() >= 1,
    ensures
        stop_value(g) <= g[0],
        g.len() >= 2 ==> stop_value(g) >= (if g[0] < -g[1] { g[0] } else { -g[1] }),
{
    if g.len() >= 2 {
        lemma_stop_value_bounds_rest(g.skip(1));
        assert(g.skip(1)[0] == g[1]);
    }
}

proof fn lemma_stop_value_bounds_rest(g: Seq<int>)
    requires
        g.len() >= 1,
    ensures
        stop_value(g) <= g[0],
{
}

/// The static exchange never wins more than what stands on the target square, and never
/// loses more than the capturing piece less what it took: the side that captures first
/// may be recaptured, but each side stops where capturing on would leave it worse off.
/// The value is that of the exchange where each side may stop after each capture.
pub proof fn lemma_see_law(b: Board, mv: Move, r: int)
    requires
        see_result(b, mv, r),
    ensures
        match b.spec_index(mv.to@) {
            None => r == 0,
            Some(t) => match capture_value(b, t as int) {
                None => r == 0,
                Some(v) => {
                    &&& r <= v
                    &&& v - exchange_value(b.piece_at(b.spec_index(mv.from@)->0 as int)->0.piece_type) <= r
                },
            },
        },
        b.spec_index(mv.to@) is Some && capture_value(b, b.spec_index(mv.to@)->0 as int) is Some ==> exists|
            boards: Seq<Board>,
            atk: Seq<(i32, usize)>,
            gains: Seq<int>,
        |
            #[trigger] see_trace(
                b.spec_index(mv.to@)->0 as int,
                b.piece_at(b.spec_index(mv.from@)->0 as int)->0.owner.spec_opponent(),
                capture_value(b, b.spec_index(mv.to@)->0 as int)->0,
                exchange_value(b.piece_at(b.spec_index(mv.from@)->0 as int)->0.piece_type),
                boards,
                atk,
                gains,
            ) && r == stop_value(gains),
{
    match b.spec_index(mv.to@) {
        None => {},
        Some(t) => match capture_value(b, t as int) {
            None => {},
            Some(v) => {
                let f = b.spec_index(mv.from@)->0 as int;
                let p = b.piece_at(f)->0;
                let (boards, atk, gains) = choose|boards: Seq<Board>, atk: Seq<(i32, usize)>, gains: Seq<int>|
                    cleared_from(boards[0], b, f) && #[trigger] see_trace(
                        t as int,
                        p.owner.spec_opponent(),
                        v,
                        exchange_value(p.piece_type),
                        boards,
                        atk,
                        gains,
                    ) && r == resolve(gains);
                lemma_resolve_is_stop_value(gains);
                lemma_stop_value_bounds(gains);
                if gains.len() >= 2 {
                    let k0: int = 0;
                    assert(gains[k0 + 1] == exchange_value(p.piece_type) - gains[k0]);
                    assert(exchange_value(p.piece_type) >= 0);
                }
            },
        },
    }
}

/// The square a move goes to holds something to win: a piece, or the en-passant target.
pub open spec fn capture_value(b: Board, t: int) -> Option<int> {
    match b.piece_at(t) {
        Some(p) => Some(exchange_value(p.piece_type)),
        None => if b.state.en_passant_target matches Some((e, _)) && e == t {
            Some(100)
        } else {
            None
        },
    }
}

/// What the static exchange on the square a move goes to comes to: nothing for a square
/// off the board or holding nothing to win; else the folded gains of the exchange that
/// starts with the move.
pub open spec fn see_result(b: Board, mv: Move, r: int) -> bool {
    match b.spec_index(mv.to@) {
        None => r == 0,
        Some(t) => match capture_value(b, t as int) {
            None => r == 0,
            Some(val) => {
                let f = b.spec_index(mv.from@)->0 as int;
                let p = b.piece_at(f)->0;
                exists|boards: Seq<Board>, atk: Seq<(i32, usize)>, gains: Seq<int>|
                    cleared_from(boards[0], b, f) && #[trigger] see_trace(
                        t as int,
                        p.owner.spec_opponent(),
                        val,
                        exchange_value(p.piece_type),
                        boards,
                        atk,
                        gains,
                    ) && r == resolve(gains)
            },
        },
    }
}

proof fn lemma_see_result(
    b: Board,
    mv: Move,
    r: int,
    t: usize,
    val: int,
    f: usize,
    boards: Seq<Board>,
    atk: Seq<(i32, usize)>,
    gains: Seq<int>,
)
    requires
        b.spec_index(mv.to@) == Some(t),
        capture_value(b, t as int) == Some(val),
        b.spec_index(mv.from@) == Some(f),
        cleared_from(boards[0], b, f as int),
        see_trace(
            t as int,
            b.piece_at(f as int)->0.owner.spec_opponent(),
            val,
            exchange_value(b.piece_at(f as int)->0.piece_type),
            boards,
            atk,
            gains,
        ),
        r == resolve(gains),
    ensures
        see_result(b, mv, r),
{
    let f2 = b.spec_index(mv.from@)->0 as int;
    assert(f2 == f);
    let p = b.piece_at(f2)->0;
    assert(see_trace(t as int, p.owner.spec_opponent(), val, exchange_value(p.piece_type), boards, atk, gains));
    assert(exists|boards: Seq<Board>, atk: Seq<(i32, usize)>, gains: Seq<int>|
        cleared_from(boards[0], b, f2) && #[trigger] see_trace(
            t as int,
            p.owner.spec_opponent(),
            val,
            exchange_value(p.piece_type),
            boards,
            atk,
            gains,
        ) && r == resolve(gains));
    match b.spec_index(mv.to@) {
        None => {},
        Some(t2) => {
            assert(t2 == t);
            match capture_value(b, t2 as int) {
                None => {},
                Some(v2) => {
                    assert(v2 == val);
                },
            }
        },
    }
}

proof fn lemma_attacker_owned(b: Board, sq: int, by: Player, v: i32, c: usize)
    requires
        attacker_result(b, sq, by, Some((v, c))),
    ensures
        owned(b, c as int, by),
        v == 100 || v == 320 || v == 330 || v == 500 || v == 900 || v == 20000,
{
    let s = choose|s: int|
        0 <= s < 7 && (forall|s2: int| 0 <= s2 < s ==> !#[trigger] stage_any(b, sq, by, s2))
            && #[trigger] stage_cell(b, sq, by, s, c as int) && v == stage_value(s);
    if s == 0 {
        let j = choose|j: int| leaper_first(b, pawn_sources(b, sq, by), by, PieceType::Pawn, j) && c == #[trigger] pawn_sources(b, sq, by)[j];
    } else if s == 1 {
        let j = choose|j: int| leaper_first(b, b.geo.cache.knight_targets@[sq]@, by, PieceType::Knight, j) && c == #[trigger] b.geo.cache.knight_targets@[sq]@[j];
    } else if s == 6 {
        let j = choose|j: int| leaper_first(b, b.geo.cache.king_targets@[sq]@, by, PieceType::King, j) && c == #[trigger] b.geo.cache.king_targets@[sq]@[j];
    }
}

impl Board {
    /// A copy of the position sharing the geometry and the keys.
    pub fn duplicate(&self) -> (r: Board)
        requires
            self.wf(),
        ensures
            crate::legal::same_position(r, *self),
            r.wf(),
    {
        let p = &self.pieces;
        let pieces = PieceMap::<BitBoardLarge> {
            white_occupancy: p.white_occupancy.duplicate(),
            black_occupancy: p.black_occupancy.duplicate(),
            all_occupancy: p.all_occupancy.duplicate(),
            pawns: p.pawns.duplicate(),
            rooks: p.rooks.duplicate(),
            knights: p.knights.duplicate(),
            bishops: p.bishops.duplicate(),
            queens: p.queens.duplicate(),
            kings: p.kings.duplicate(),
            white_king_idx: p.white_king_idx,
            black_king_idx: p.black_king_idx,
        };
        let r = Board { geo: share(&self.geo), zobrist: share(&self.zobrist), pieces, state: self.state.duplicate() };
        assert(forall|j: int| #[trigger] r.pieces.bits(j) == self.pieces.bits(j));
        r
    }
}

/// The gains as integers.
pub open spec fn ints(v: Seq<i32>) -> Seq<int> {
    v.map_values(|x: i32| x as int)
}

/// The static exchange evaluator.
pub struct SEE;

impl SEE {
    /// The value of a piece kind in the exchange (see `exchange_value`).
    fn get_val(pt: PieceType) -> (r: i32)
        ensures
            r == exchange_value(pt),
    {
        match pt {
            PieceType::Pawn => 100,
            PieceType::Knight => 320,
            PieceType::Bishop => 330,
            PieceType::Rook => 500,
            PieceType::Queen => 900,
            PieceType::King => 20000,
        }
    }

    /// What the exchange started by `mv` on its target square comes to for the side
    /// making it, each side recapturing with its cheapest attacker and stopping when
    /// going on would lose more (see `see_result`); 0 where the move wins nothing.
    pub fn static_exchange_evaluation(board: &Board, mv: &Move) -> (r: i32)
        requires
            board.wf(),
            board.geo.side >= 2,
            board.total() <= 2_000_000,
            mv.to@.len() == board.geo.dimension,
            mv.from@.len() == board.geo.dimension,
            board.spec_index(mv.to@) matches Some(t) && capture_value(*board, t as int) is Some
                ==> board.spec_index(mv.from@) is Some && board.piece_at(
                board.spec_index(mv.from@)->0 as int,
            ) is Some,
        ensures
            see_result(*board, *mv, r as int),
            board.spec_index(mv.to@) is Some && capture_value(*board, board.spec_index(mv.to@)->0 as int) is Some
                ==> r <= capture_value(*board, board.spec_index(mv.to@)->0 as int)->0
                && capture_value(*board, board.spec_index(mv.to@)->0 as int)->0 - exchange_value(
                board.piece_at(board.spec_index(mv.from@)->0 as int)->0.piece_type,
            ) <= r,
    {
        let ghost b = *board;
        let to_idx = match board.coords_to_index(mv.to.values.as_slice()) {
            Some(i) => i,
            None => {
                return 0;
            },
        };
        proof {
            assert(board.geo.total_cells == crate::representation::cell_count(board.geo.side as nat, board.geo.dimension as nat));
        }
        let value: i32 = match board.get_piece_at_index(to_idx) {
            Some(target) => Self::get_val(target.piece_type),
            None => match board.state.en_passant_target {
                Some((t, _)) => if t == to_idx {
                    100
                } else {
                    return 0;
                },
                None => {
                    return 0;
                },
            },
        };
        let from_idx = match board.coords_to_index(mv.from.values.as_slice()) {
            Some(i) => i,
            None => {
                return 0;
            },
        };
        let attacker_piece = match board.get_piece_at_index(from_idx) {
            Some(p) => p,
            None => {
                return 0;
            },
        };
        let mut board_clone = board.duplicate();
        let mut gain: Vec<i32> = Vec::new();
        gain.push(value);
        let side0 = attacker_piece.owner.opponent();
        let mut side_to_move = side0;
        let first_val = Self::get_val(attacker_piece.piece_type);
        let mut attacking_piece_val = first_val;
        board_clone.clear_cell(&mv.from);
        let ghost total = b.total();
        let ghost mut boards: Seq<Board> = seq![board_clone];
        let ghost mut atk: Seq<(i32, usize)> = Seq::empty();
        proof {
            assert(occupied(b, from_idx as int));
            assert(cleared_from(boards[0], b, from_idx as int));
            lemma_occ_count_cleared(board_clone, b, from_idx as int, total);
            assert(ints(gain@) =~= seq![value as int]);
        }
        let mut go = true;
        let ghost mut ended_none = false;
        while go
            invariant
                b == *board,
                board.wf(),
                board.geo.side >= 2,
                total == b.total(),
                total <= 2_000_000,
                to_idx < total,
                board.spec_index(mv.to@) == Some(to_idx),
                mv.to@.len() == board.geo.dimension,
                board_clone.wf(),
                board_clone.geo == b.geo,
                boards.len() == atk.len() + 1,
                boards[atk.len() as int] == board_clone,
                cleared_from(boards[0], b, from_idx as int),
                ints(gain@).len() == atk.len() + 1,
                ints(gain@)[0] == value,
                forall|k: int|
                    0 <= k < atk.len() ==> attacker_result(#[trigger] boards[k], to_idx as int, side_at(side0, k), Some(atk[k])),
                forall|k: int|
                    0 <= k < atk.len() ==> cleared_from(#[trigger] boards[k + 1], boards[k], atk[k].1 as int),
                forall|k: int| 0 <= k < atk.len() - 1 ==> (#[trigger] atk[k]).0 <= 900,
                forall|k: int| 0 <= k < atk.len() ==> 100 <= (#[trigger] atk[k]).0 <= 20000,
                100 <= value,
                go ==> forall|k: int| 0 <= k < atk.len() ==> (#[trigger] atk[k]).0 <= 900,
                forall|k: int|
                    0 <= k < atk.len() ==> #[trigger] ints(gain@)[k + 1] == (if k == 0 {
                        first_val as int
                    } else {
                        atk[k - 1].0 as int
                    }) - ints(gain@)[k],
                forall|k: int|
                    0 <= k <= atk.len() ==> -(40000 + 900 * k) <= #[trigger] ints(gain@)[k] <= 40000 + 900 * k,
                value <= 20000,
                0 <= first_val <= 20000,
                side_to_move == side_at(side0, atk.len() as int),
                attacking_piece_val == if atk.len() == 0 {
                    first_val as int
                } else {
                    atk[atk.len() - 1].0 as int
                },
                atk.len() + occ_count(board_clone, total) < total,
                go ==> !ended_none,
                !go ==> (ended_none ==> attacker_result(board_clone, to_idx as int, side_at(side0, atk.len() as int), None)),
                !go ==> (!ended_none ==> atk.len() >= 1 && atk[atk.len() - 1].0 >= 20000),
            decreases occ_count(board_clone, total) * 2 + if go { 1int } else { 0 },
        {
            match board_clone.get_smallest_attacker(&mv.to, side_to_move) {
                Some((val, from)) => {
                    let ghost pre = board_clone;
                    proof {
                        lemma_attacker_owned(pre, to_idx as int, side_to_move, val, from);
                        lemma_occ_count_pos(pre, from as int, total);
                        assert(atk.len() + 1 < total);
                    }
                    let captured_val = attacking_piece_val;
                    let last_gain = gain[gain.len() - 1];
                    proof {
                        let n = atk.len() as int;
                        assert(ints(gain@)[n] == last_gain as int);
                        if n > 0 {
                            assert(atk[n - 1].0 <= 900);
                        }
                        assert(-(40000 + 900 * (n + 1)) <= captured_val - last_gain <= 40000 + 900 * (n + 1));
                    }
                    let ghost og = gain@;
                    gain.push(captured_val - last_gain);
                    proof {
                        assert(ints(gain@) =~= ints(og).push((captured_val - last_gain) as int));
                    }
                    attacking_piece_val = val;
                    side_to_move = side_to_move.opponent();
                    let coords = board_clone.index_to_coords(from);
                    proof {
                        crate::board::lemma_coords_index_inverse(
                            b.geo.dimension as nat,
                            b.geo.side as nat,
                            from as nat,
                            coords@,
                        );
                    }
                    board_clone.clear_cell(&Coordinate::from_vals(coords));
                    proof {
                        let n = atk.len() as int;
                        atk = atk.push((val, from));
                        boards = boards.push(board_clone);
                        assert(cleared_from(boards[n + 1], boards[n], atk[n].1 as int));
                        assert(occupied(pre, from as int));
                        lemma_occ_count_cleared(board_clone, pre, from as int, total);
                    }
                    if val >= 20000 {
                        go = false;
                    }
                },
                None => {
                    assert(board_clone.spec_index(mv.to@) == Some(to_idx));
                    go = false;
                    proof {
                        ended_none = true;
                    }
                },
            }
        }
        let ghost gs = ints(gain@);
        proof {
            assert(see_trace(to_idx as int, side0, value as int, first_val as int, boards, atk, gs));
        }
        let ghost bound: int = 40000 + 900 * (atk.len() as int);
        proof {
            assert forall|k: int| 0 <= k < gain.len() implies -bound <= #[trigger] gain@[k] <= bound by {
                assert(ints(gain@)[k] == gain@[k] as int);
                assert(900 * k <= 900 * atk.len());
            }
        }
        while gain.len() > 1
            invariant
                gain.len() >= 1,
                resolve(ints(gain@)) == resolve(gs),
                bound <= 1_900_000_000,
                forall|k: int| 0 <= k < gain.len() ==> -bound <= #[trigger] gain@[k] <= bound,
            decreases gain.len(),
        {
            let ghost g = ints(gain@);
            let last = gain.pop().unwrap();
            let n = gain.len();
            let prev = gain[n - 1];
            if last > -prev {
                gain.set(n - 1, -last);
            }
            proof {
                let m = g.len() as int;
                assert(ints(gain@) =~= g.take(m - 1).update(m - 2, if g[m - 1] > -g[m - 2] { -g[m - 1] } else { g[m - 2] }));
            }
        }
        proof {
            assert(resolve(ints(gain@)) == ints(gain@)[0]);
            assert(ints(gain@)[0] == gain@[0] as int);
            assert(b.spec_index(mv.from@) == Some(from_idx));
            assert(capture_value(b, to_idx as int) == Some(value as int));
            assert(cleared_from(boards[0], b, from_idx as int) && see_trace(to_idx as int, b.piece_at(from_idx as int)->0.owner.spec_opponent(), value as int, exchange_value(b.piece_at(from_idx as int)->0.piece_type), boards, atk, gs));
            assert(resolve(gs) == gain@[0] as int);
            lemma_see_result(b, *mv, gain@[0] as int, to_idx, value as int, from_idx, boards, atk, gs);
            lemma_see_law(b, *mv, gain@[0] as int);
        }
        gain[0]
    }
}

} // verus!
