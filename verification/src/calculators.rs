//! Direction and offset vectors of the pieces in N dimensions.
use vstd::prelude::*;
use crate::models::Player;

verus! {

/// The vectors held by a list of vectors.
pub open spec fn view_dirs(v: Seq<Vec<isize>>) -> Seq<Seq<isize>> {
    v.map_values(|x: Vec<isize>| x@)
}

/// The vector of `d` zeros with `v` on axis `i`.
pub open spec fn unit(d: nat, i: int, v: isize) -> Seq<isize> {
    Seq::new(d, |k: int| if k == i { v } else { 0isize })
}

/// `3^d`.
pub open spec fn pow3(d: nat) -> nat
    decreases d,
{
    if d == 0 {
        1
    } else {
        3 * pow3((d - 1) as nat)
    }
}

/// A base-3 digit read as a step: 0 stays, 1 goes up, 2 goes down.
pub open spec fn ternary_value(digit: int) -> isize {
    if digit == 1 {
        1isize
    } else if digit == 2 {
        -1isize
    } else {
        0isize
    }
}

/// The first `d` base-3 digits of `i`, least significant first, read as steps.
pub open spec fn ternary_dir(i: nat, d: nat) -> Seq<isize> {
    Seq::new(d, |k: int| ternary_value(((i / pow3(k as nat)) % 3) as int))
}

/// Number of non-zero entries.
pub open spec fn nonzero_count(v: Seq<isize>) -> nat
    decreases v.len(),
{
    if v.len() == 0 {
        0
    } else {
        nonzero_count(v.drop_last()) + if v.last() != 0 {
            1nat
        } else {
            0nat
        }
    }
}

/// All `3^d` step vectors in {-1, 0, 1}^d, in base-3 order.
pub open spec fn all_steps(d: nat) -> Seq<Seq<isize>> {
    Seq::new(pow3(d), |i: int| ternary_dir(i as nat, d))
}

/// Bishop directions: a non-zero, even number of axes change by one.
pub open spec fn is_bishop_dir(v: Seq<isize>) -> bool {
    nonzero_count(v) > 0 && nonzero_count(v) % 2 == 0
}

/// King steps: at least one axis changes by one.
pub open spec fn is_king_step(v: Seq<isize>) -> bool {
    nonzero_count(v) > 0
}

/// Rook directions: `+1` then `-1` along each axis in turn.
pub open spec fn rook_dirs(d: nat) -> Seq<Seq<isize>> {
    Seq::new(2 * d, |t: int| unit(d, t / 2, if t % 2 == 0 { 1isize } else { -1isize }))
}

/// A knight offset: `2 * s1` on axis `i` and `s2` on axis `j`.
pub open spec fn knight_vec(d: nat, i: int, j: int, s1: isize, s2: isize) -> Seq<isize> {
    Seq::new(d, |k: int| if k == i { (2 * s1) as isize } else if k == j { s2 } else { 0isize })
}

/// The four knight offsets on axes `i` (by two) and `j` (by one); none when `i == j`.
pub open spec fn knight_block(d: nat, i: int, j: int) -> Seq<Seq<isize>> {
    if i == j {
        Seq::empty()
    } else {
        seq![
            knight_vec(d, i, j, -1isize, -1isize),
            knight_vec(d, i, j, -1isize, 1isize),
            knight_vec(d, i, j, 1isize, -1isize),
            knight_vec(d, i, j, 1isize, 1isize),
        ]
    }
}

/// Knight offsets moving two along axis `i` and one along axes `0..jn`.
pub open spec fn knight_row(d: nat, i: int, jn: nat) -> Seq<Seq<isize>>
    decreases jn,
{
    if jn == 0 {
        Seq::empty()
    } else {
        knight_row(d, i, (jn - 1) as nat) + knight_block(d, i, jn - 1)
    }
}

/// Knight offsets moving two along axes `0..n`.
pub open spec fn knight_offsets(d: nat, n: nat) -> Seq<Seq<isize>>
    decreases n,
{
    if n == 0 {
        Seq::empty()
    } else {
        knight_offsets(d, (n - 1) as nat) + knight_row(d, n - 1, d)
    }
}

/// The forward step (axis 0) of a pawn captured by the `attacker` side's pawns seen
/// from the target.
pub open spec fn pawn_capture_forward(attacker: Player) -> isize {
    match attacker {
        Player::White => -1isize,
        Player::Black => 1isize,
    }
}

/// A pawn capture offset: the step `fwd` on axis `a` and `s` on axis `c`.
pub open spec fn pawn_vec(d: nat, a: int, c: int, fwd: isize, s: isize) -> Seq<isize> {
    Seq::new(d, |k: int| if k == a { fwd } else if k == c { s } else { 0isize })
}

/// The two capture offsets stepping along movement axis `a` and by `-1` then `+1` along
/// axis `c`; none when `a` is axis 1 (no pawn moves along it) or `c` is `a`.
pub open spec fn pawn_block(d: nat, a: int, c: int, attacker: Player) -> Seq<Seq<isize>> {
    if a == 1 || a == c {
        Seq::empty()
    } else {
        seq![
            pawn_vec(d, a, c, pawn_capture_forward(attacker), -1isize),
            pawn_vec(d, a, c, pawn_capture_forward(attacker), 1isize),
        ]
    }
}

/// The capture offsets along movement axis `a`, sideways along axes `0..cn`.
pub open spec fn pawn_row(d: nat, a: int, cn: nat, attacker: Player) -> Seq<Seq<isize>>
    decreases cn,
{
    if cn == 0 {
        Seq::empty()
    } else {
        pawn_row(d, a, (cn - 1) as nat, attacker) + pawn_block(d, a, cn - 1, attacker)
    }
}

/// The capture offsets along the movement axes below `n`.
pub open spec fn pawn_rows(d: nat, n: nat, attacker: Player) -> Seq<Seq<isize>>
    decreases n,
{
    if n == 0 {
        Seq::empty()
    } else {
        pawn_rows(d, (n - 1) as nat, attacker) + pawn_row(d, n - 1, d, attacker)
    }
}

/// Pawn capture offsets seen from the captured cell: a pawn captures one step forward
/// along a movement axis (any axis but axis 1) and one step either way along one other
/// axis; for each movement axis in turn, each other axis in turn, `-1` then `+1`.
pub open spec fn pawn_capture_offsets(d: nat, attacker: Player) -> Seq<Seq<isize>> {
    pawn_rows(d, d, attacker)
}

/// Viewing a list with one more vector appends that vector's view.
proof fn lemma_view_dirs_push(s: Seq<Vec<isize>>, full: Seq<Vec<isize>>)
    requires
        full.len() == s.len() + 1,
        forall|t: int| 0 <= t < s.len() ==> #[trigger] full[t] == s[t],
    ensures
        view_dirs(full) == view_dirs(s).push(full.last()@),
{
    assert(view_dirs(full) =~= view_dirs(s).push(full.last()@));
}

/// A vector of `d` zeros.
fn zeros(d: usize) -> (r: Vec<isize>)
    ensures
        r@ == Seq::new(d as nat, |k: int| 0isize),
{
    let mut v: Vec<isize> = Vec::new();
    let mut k: usize = 0;
    while k < d
        invariant
            k <= d,
            v@ == Seq::new(k as nat, |t: int| 0isize),
        decreases d - k,
    {
        v.push(0);
        k = k + 1;
        assert(v@ =~= Seq::new(k as nat, |t: int| 0isize));
    }
    v
}

/// Rook directions: for each axis, `+1` then `-1` on that axis.
pub fn get_rook_directions_calc(dimension: usize) -> (r: Vec<Vec<isize>>)
    requires
        2 * dimension <= usize::MAX,
    ensures
        view_dirs(r@) == rook_dirs(dimension as nat),
{
    let mut dirs: Vec<Vec<isize>> = Vec::new();
    let mut i: usize = 0;
    while i < dimension
        invariant
            i <= dimension,
            view_dirs(dirs@) == rook_dirs(dimension as nat).take(2 * i),
        decreases dimension - i,
    {
        let mut v = zeros(dimension);
        v.set(i, 1);
        let mut w = zeros(dimension);
        w.set(i, -1);
        proof {
            assert(v@ =~= unit(dimension as nat, i as int, 1isize));
            assert(w@ =~= unit(dimension as nat, i as int, -1isize));
        }
        let ghost p0 = dirs@;
        dirs.push(v);
        proof {
            lemma_view_dirs_push(p0, dirs@);
        }
        let ghost p1 = dirs@;
        dirs.push(w);
        proof {
            lemma_view_dirs_push(p1, dirs@);
            let full = rook_dirs(dimension as nat);
            assert(full[2 * i as int] == unit(dimension as nat, i as int, 1isize)) by {
                assert((2 * i) / 2 == i);
            }
            assert(full[2 * i + 1] == unit(dimension as nat, i as int, -1isize)) by {
                assert((2 * i + 1) / 2 == i);
                assert((2 * i + 1) % 2 == 1);
            }
            assert(view_dirs(dirs@) =~= full.take(2 * i + 2));
        }
        i = i + 1;
    }
    proof {
        assert(rook_dirs(dimension as nat).take(2 * dimension as int) =~= rook_dirs(
            dimension as nat,
        ));
    }
    dirs
}

/// `3^d`.
fn pow3_exec(d: usize) -> (r: usize)
    requires
        pow3(d as nat) <= usize::MAX,
    ensures
        r == pow3(d as nat),
{
    let mut acc: usize = 1;
    let mut k: usize = 0;
    while k < d
        invariant
            k <= d,
            acc == pow3(k as nat),
            pow3(d as nat) <= usize::MAX,
        decreases d - k,
    {
        proof {
            lemma_pow3_monotone((k + 1) as nat, d as nat);
        }
        acc = acc * 3;
        k = k + 1;
    }
    acc
}

proof fn lemma_pow3_monotone(a: nat, b: nat)
    requires
        a <= b,
    ensures
        pow3(a) <= pow3(b),
        pow3(a) >= 1,
    decreases b,
{
    if a < b {
        lemma_pow3_monotone(a, (b - 1) as nat);
    }
    if a > 0 {
        lemma_pow3_monotone((a - 1) as nat, (a - 1) as nat);
    }
}

/// The step vector of base-3 number `i` on `d` axes, with its count of non-zero entries.
fn ternary_step(i: usize, d: usize) -> (r: (Vec<isize>, usize))
    requires
        pow3(d as nat) <= usize::MAX,
    ensures
        r.0@ == ternary_dir(i as nat, d as nat),
        r.1 == nonzero_count(r.0@),
{
    let mut dir: Vec<isize> = Vec::new();
    let mut temp = i;
    let mut count: usize = 0;
    let mut k: usize = 0;
    assert(pow3(0) == 1);
    while k < d
        invariant
            k <= d,
            temp == i as nat / pow3(k as nat),
            dir@ == ternary_dir(i as nat, k as nat),
            count == nonzero_count(dir@),
            count <= k,
        decreases d - k,
    {
        proof {
            lemma_pow3_monotone(k as nat, k as nat);
        }
        let digit = temp % 3;
        let val: isize = if digit == 0 {
            0
        } else if digit == 1 {
            1
        } else {
            -1
        };
        let ghost prev = dir@;
        dir.push(val);
        if val != 0 {
            count = count + 1;
        }
        proof {
            assert(dir@.drop_last() =~= prev);
            assert(dir@ =~= ternary_dir(i as nat, (k + 1) as nat));
            vstd::arithmetic::div_mod::lemma_div_denominator(i as int, pow3(k as nat) as int, 3);
            assert(pow3((k + 1) as nat) == pow3(k as nat) * 3);
        }
        temp = temp / 3;
        k = k + 1;
    }
    (dir, count)
}

/// Bishop directions: every step vector changing a non-zero, even number of axes, in
/// base-3 order.
pub fn get_bishop_directions_calc(dimension: usize) -> (r: Vec<Vec<isize>>)
    requires
        pow3(dimension as nat) <= usize::MAX,
    ensures
        view_dirs(r@) == all_steps(dimension as nat).filter(|v: Seq<isize>| is_bishop_dir(v)),
{
    let num_dirs = pow3_exec(dimension);
    let mut dirs: Vec<Vec<isize>> = Vec::new();
    let ghost pred = |v: Seq<isize>| is_bishop_dir(v);
    let mut i: usize = 0;
    while i < num_dirs
        invariant
            i <= num_dirs,
            num_dirs == pow3(dimension as nat),
            pow3(dimension as nat) <= usize::MAX,
            pred == (|v: Seq<isize>| is_bishop_dir(v)),
            view_dirs(dirs@) == all_steps(dimension as nat).take(i as int).filter(pred),
        decreases num_dirs - i,
    {
        let (dir, count) = ternary_step(i, dimension);
        proof {
            reveal_with_fuel(Seq::<_>::filter, 1);
            assert(all_steps(dimension as nat).take(i + 1).drop_last() =~= all_steps(
                dimension as nat,
            ).take(i as int));
        }
        if count > 0 && count % 2 == 0 {
            dirs.push(dir);
        }
        proof {
            assert(view_dirs(dirs@) =~= all_steps(dimension as nat).take(i + 1).filter(pred));
        }
        i = i + 1;
    }
    proof {
        assert(all_steps(dimension as nat).take(num_dirs as int) =~= all_steps(dimension as nat));
    }
    dirs
}

/// King steps: every non-zero step vector, in base-3 order.
pub fn get_king_offsets_calc(dimension: usize) -> (r: Vec<Vec<isize>>)
    requires
        pow3(dimension as nat) <= usize::MAX,
    ensures
        view_dirs(r@) == all_steps(dimension as nat).filter(|v: Seq<isize>| is_king_step(v)),
{
    let num_dirs = pow3_exec(dimension);
    let mut dirs: Vec<Vec<isize>> = Vec::new();
    let ghost pred = |v: Seq<isize>| is_king_step(v);
    let mut i: usize = 0;
    while i < num_dirs
        invariant
            i <= num_dirs,
            num_dirs == pow3(dimension as nat),
            pow3(dimension as nat) <= usize::MAX,
            pred == (|v: Seq<isize>| is_king_step(v)),
            view_dirs(dirs@) == all_steps(dimension as nat).take(i as int).filter(pred),
        decreases num_dirs - i,
    {
        let (dir, count) = ternary_step(i, dimension);
        proof {
            reveal_with_fuel(Seq::<_>::filter, 1);
            assert(all_steps(dimension as nat).take(i + 1).drop_last() =~= all_steps(
                dimension as nat,
            ).take(i as int));
        }
        if count != 0 {
            dirs.push(dir);
        }
        proof {
            assert(view_dirs(dirs@) =~= all_steps(dimension as nat).take(i + 1).filter(pred));
        }
        i = i + 1;
    }
    proof {
        assert(all_steps(dimension as nat).take(num_dirs as int) =~= all_steps(dimension as nat));
    }
    dirs
}

/// Knight offsets: two along one axis and one along another, for every ordered pair of
/// distinct axes and every pair of signs.
pub fn get_knight_offsets_calc(dimension: usize) -> (r: Vec<Vec<isize>>)
    ensures
        view_dirs(r@) == knight_offsets(dimension as nat, dimension as nat),
{
    let mut offsets: Vec<Vec<isize>> = Vec::new();
    let mut i: usize = 0;
    while i < dimension
        invariant
            i <= dimension,
            view_dirs(offsets@) == knight_offsets(dimension as nat, i as nat),
        decreases dimension - i,
    {
        let ghost before_row = view_dirs(offsets@);
        let mut j: usize = 0;
        while j < dimension
            invariant
                i < dimension,
                j <= dimension,
                view_dirs(offsets@) == before_row + knight_row(dimension as nat, i as int, j as nat),
            decreases dimension - j,
        {
            if i != j {
                let ghost before_block = view_dirs(offsets@);
                let mut s1: isize = -1;
                while s1 <= 1
                    invariant
                        i < dimension,
                        j < dimension,
                        i != j,
                        s1 == -1 || s1 == 1 || s1 == 3,
                        view_dirs(offsets@) == before_block + knight_block(
                            dimension as nat,
                            i as int,
                            j as int,
                        ).take(if s1 == -1 { 0int } else if s1 == 1 { 2int } else { 4int }),
                    decreases 3 - s1,
                {
                    let mut s2: isize = -1;
                    while s2 <= 1
                        invariant
                            i < dimension,
                            j < dimension,
                            i != j,
                            s1 == -1 || s1 == 1,
                            s2 == -1 || s2 == 1 || s2 == 3,
                            view_dirs(offsets@) == before_block + knight_block(
                                dimension as nat,
                                i as int,
                                j as int,
                            ).take(
                                (if s1 == -1 { 0int } else { 2int }) + if s2 == -1 {
                                    0int
                                } else if s2 == 1 {
                                    1int
                                } else {
                                    2int
                                },
                            ),
                        decreases 3 - s2,
                    {
                        let mut v = zeros(dimension);
                        v.set(i, 2 * s1);
                        v.set(j, s2);
                        proof {
                            assert(v@ =~= knight_vec(dimension as nat, i as int, j as int, s1, s2));
                        }
                        let ghost p0 = offsets@;
                        offsets.push(v);
                        proof {
                            lemma_view_dirs_push(p0, offsets@);
                            let kb = knight_block(dimension as nat, i as int, j as int);
                            let n0 = (if s1 == -1 { 0int } else { 2int }) + if s2 == -1 {
                                0int
                            } else {
                                1int
                            };
                            assert(view_dirs(offsets@) =~= before_block + kb.take(n0 + 1));
                        }
                        s2 = s2 + 2;
                    }
                    s1 = s1 + 2;
                }
                proof {
                    assert(knight_block(dimension as nat, i as int, j as int).take(4) =~= knight_block(
                        dimension as nat,
                        i as int,
                        j as int,
                    ));
                }
            }
            proof {
                assert(knight_row(dimension as nat, i as int, (j + 1) as nat) =~= knight_row(
                    dimension as nat,
                    i as int,
                    j as nat,
                ) + knight_block(dimension as nat, i as int, j as int));
                assert(view_dirs(offsets@) =~= before_row + knight_row(
                    dimension as nat,
                    i as int,
                    (j + 1) as nat,
                ));
            }
            j = j + 1;
        }
        proof {
            assert(view_dirs(offsets@) =~= knight_offsets(dimension as nat, (i + 1) as nat));
        }
        i = i + 1;
    }
    offsets
}

/// Pawn capture offsets of the `attacker` side seen from the captured cell (see
/// `pawn_capture_offsets`): the backward step along each movement axis with `-1` then `+1`
/// on each other axis in turn.
pub fn get_pawn_capture_offsets_calc(dimension: usize, attacker: Player) -> (r: Vec<Vec<isize>>)
    requires
        2 * dimension <= usize::MAX,
    ensures
        view_dirs(r@) == pawn_capture_offsets(dimension as nat, attacker),
{
    let direction: isize = match attacker {
        Player::White => -1,
        Player::Black => 1,
    };
    let mut offsets: Vec<Vec<isize>> = Vec::new();
    let mut a: usize = 0;
    while a < dimension
        invariant
            a <= dimension,
            direction == pawn_capture_forward(attacker),
            view_dirs(offsets@) == pawn_rows(dimension as nat, a as nat, attacker),
        decreases dimension - a,
    {
        let ghost before_row = view_dirs(offsets@);
        let mut c: usize = 0;
        while c < dimension
            invariant
                a < dimension,
                c <= dimension,
                direction == pawn_capture_forward(attacker),
                view_dirs(offsets@) == before_row + pawn_row(dimension as nat, a as int, c as nat, attacker),
            decreases dimension - c,
        {
            let ghost p0 = offsets@;
            if a != 1 && a != c {
                let mut v = zeros(dimension);
                v.set(a, direction);
                v.set(c, -1);
                let mut w = zeros(dimension);
                w.set(a, direction);
                w.set(c, 1);
                proof {
                    assert(v@ =~= pawn_vec(dimension as nat, a as int, c as int, direction, -1isize));
                    assert(w@ =~= pawn_vec(dimension as nat, a as int, c as int, direction, 1isize));
                }
                offsets.push(v);
                let ghost p1 = offsets@;
                proof {
                    lemma_view_dirs_push(p0, p1);
                }
                offsets.push(w);
                proof {
                    lemma_view_dirs_push(p1, offsets@);
                    assert(view_dirs(offsets@) =~= before_row + pawn_row(dimension as nat, a as int, (c + 1) as nat, attacker));
                }
            } else {
                proof {
                    assert(pawn_block(dimension as nat, a as int, c as int, attacker) =~= Seq::<Seq<isize>>::empty());
                    assert(view_dirs(offsets@) =~= before_row + pawn_row(dimension as nat, a as int, (c + 1) as nat, attacker));
                }
            }
            c = c + 1;
        }
        proof {
            assert(view_dirs(offsets@) =~= pawn_rows(dimension as nat, (a + 1) as nat, attacker));
        }
        a = a + 1;
    }
    offsets
}


/// Every vector of the list has `d` entries, each within `-b..=b`.
pub open spec fn vecs_shaped(v: Seq<Seq<isize>>, d: nat, b: int) -> bool {
    forall|t: int| 0 <= t < v.len() ==> {
        &&& (#[trigger] v[t]).len() == d
        &&& forall|k: int| 0 <= k < d ==> -b <= #[trigger] v[t][k] <= b
    }
}

/// Step vectors kept by a filter are step vectors of `d` entries in `-1..=1`.
pub proof fn lemma_steps_filter_shaped(d: nat, p: spec_fn(Seq<isize>) -> bool)
    ensures
        vecs_shaped(all_steps(d).filter(p), d, 1),
{
    broadcast use vstd::seq_lib::group_seq_properties;
    let f = all_steps(d).filter(p);
    assert forall|t: int| 0 <= t < f.len() implies {
        &&& (#[trigger] f[t]).len() == d
        &&& forall|k: int| 0 <= k < d ==> -1 <= #[trigger] f[t][k] <= 1
    } by {
        assert(f.contains(f[t]));
        all_steps(d).lemma_filter_contains_rev(p, f[t]);
        let j = choose|j: int| 0 <= j < all_steps(d).len() && all_steps(d)[j] == f[t];
        assert(f[t] == ternary_dir(j as nat, d));
    }
}

/// Rook directions are unit vectors of `d` entries.
pub proof fn lemma_rook_shaped(d: nat)
    ensures
        vecs_shaped(rook_dirs(d), d, 1),
{
}

/// Pawn capture offsets have `d` entries in `-1..=1`.
pub proof fn lemma_pawn_shaped(d: nat, attacker: Player)
    ensures
        vecs_shaped(pawn_capture_offsets(d, attacker), d, 1),
{
    lemma_pawn_rows_shaped(d, d, attacker);
}

proof fn lemma_pawn_rows_shaped(d: nat, n: nat, attacker: Player)
    ensures
        vecs_shaped(pawn_rows(d, n, attacker), d, 1),
    decreases n,
{
    if n > 0 {
        lemma_pawn_rows_shaped(d, (n - 1) as nat, attacker);
        lemma_pawn_row_shaped(d, n - 1, d, attacker);
        let a = pawn_rows(d, (n - 1) as nat, attacker);
        let b = pawn_row(d, n - 1, d, attacker);
        assert forall|t: int| 0 <= t < (a + b).len() implies #[trigger] (a + b)[t] == if t
            < a.len() {
            a[t]
        } else {
            b[t - a.len()]
        } by {}
    }
}

proof fn lemma_pawn_row_shaped(d: nat, i: int, cn: nat, attacker: Player)
    ensures
        vecs_shaped(pawn_row(d, i, cn, attacker), d, 1),
    decreases cn,
{
    if cn > 0 {
        lemma_pawn_row_shaped(d, i, (cn - 1) as nat, attacker);
        let a = pawn_row(d, i, (cn - 1) as nat, attacker);
        let b = pawn_block(d, i, cn - 1, attacker);
        assert forall|t: int| 0 <= t < (a + b).len() implies #[trigger] (a + b)[t] == if t
            < a.len() {
            a[t]
        } else {
            b[t - a.len()]
        } by {}
    }
}

/// Knight offsets have `d` entries in `-2..=2`.
pub proof fn lemma_knight_shaped(d: nat, n: nat)
    ensures
        vecs_shaped(knight_offsets(d, n), d, 2),
    decreases n,
{
    if n > 0 {
        lemma_knight_shaped(d, (n - 1) as nat);
        lemma_knight_row_shaped(d, n - 1, d);
        let a = knight_offsets(d, (n - 1) as nat);
        let b = knight_row(d, n - 1, d);
        assert forall|t: int| 0 <= t < (a + b).len() implies #[trigger] (a + b)[t] == if t
            < a.len() {
            a[t]
        } else {
            b[t - a.len()]
        } by {}
    }
}

proof fn lemma_knight_row_shaped(d: nat, i: int, jn: nat)
    ensures
        vecs_shaped(knight_row(d, i, jn), d, 2),
    decreases jn,
{
    if jn > 0 {
        lemma_knight_row_shaped(d, i, (jn - 1) as nat);
        let a = knight_row(d, i, (jn - 1) as nat);
        let b = knight_block(d, i, jn - 1);
        assert forall|t: int| 0 <= t < (a + b).len() implies #[trigger] (a + b)[t] == if t
            < a.len() {
            a[t]
        } else {
            b[t - a.len()]
        } by {}
    }
}

} // verus!
