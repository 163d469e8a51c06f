//! The symmetries of an N-dimensional board: every permutation of the axes combined with
//! every choice of axes to mirror, each given as the map it makes on the cells.
use vstd::prelude::*;
use crate::coords::{digits_of, value_of, all_below};
use vstd::arithmetic::power2::pow2;
use crate::representation::cell_count;

verus! {

/// `n!`.
pub open spec fn fact(n: nat) -> nat
    decreases n,
{
    if n == 0 {
        1
    } else {
        n * fact((n - 1) as nat)
    }
}

/// `sum of c[k] * k!` over `i <= k < n`.
pub open spec fn upper_sum(c: Seq<usize>, i: nat, n: nat) -> int
    decreases n - i,
{
    if i >= n {
        0
    } else {
        c[i as int] * fact(i) + upper_sum(c, i + 1, n)
    }
}

/// How many swaps the permutation generator has made in state `(c, i)`: the counters read
/// as a number in the factorial base, with the counters below `i` counted as full.
pub open spec fn heap_count(c: Seq<usize>, i: nat, n: nat) -> int {
    upper_sum(c, i, n) + fact(i) - 1
}

proof fn lemma_fact_pos(n: nat)
    ensures
        fact(n) >= 1,
    decreases n,
{
    if n > 0 {
        lemma_fact_pos((n - 1) as nat);
        assert(n * fact((n - 1) as nat) >= 1) by (nonlinear_arith)
            requires
                n >= 1,
                fact((n - 1) as nat) >= 1,
        ;
    }
}

proof fn lemma_upper_sum_bound(c: Seq<usize>, i: nat, n: nat)
    requires
        i <= n,
        c.len() == n,
        forall|k: int| i <= k < n ==> #[trigger] c[k] <= k,
    ensures
        0 <= upper_sum(c, i, n) <= fact(n) - fact(i),
    decreases n - i,
{
    if i < n {
        lemma_upper_sum_bound(c, i + 1, n);
        lemma_fact_pos(i);
        let f = fact(i);
        assert(fact(i + 1) == (i + 1) * f);
        assert(0 <= c[i as int] * f <= i * f && (i + 1) * f == i * f + f) by (nonlinear_arith)
            requires
                0 <= c[i as int] <= i,
                f >= 1,
        ;
    }
}

proof fn lemma_upper_sum_frame(c: Seq<usize>, d: Seq<usize>, i: nat, n: nat)
    requires
        forall|k: int| i <= k < n ==> #[trigger] c[k] == d[k],
    ensures
        upper_sum(c, i, n) == upper_sum(d, i, n),
    decreases n - i,
{
    if i < n {
        lemma_upper_sum_frame(c, d, i + 1, n);
    }
}

proof fn lemma_upper_sum_zeros(c: Seq<usize>, j: nat, i: nat, n: nat)
    requires
        j <= i <= n,
        forall|k: int| j <= k < i ==> #[trigger] c[k] == 0,
    ensures
        upper_sum(c, j, n) == upper_sum(c, i, n),
    decreases i - j,
{
    if j < i {
        lemma_upper_sum_zeros(c, j + 1, i, n);
        assert(c[j as int] == 0);
        assert(c[j as int] * fact(j) == 0);
    }
}

proof fn lemma_swap_multiset(s: Seq<usize>, a: int, b: int)
    requires
        0 <= a < s.len(),
        0 <= b < s.len(),
    ensures
        s.update(a, s[b]).update(b, s[a]).to_multiset() == s.to_multiset(),
{
    broadcast use vstd::seq_lib::to_multiset_update;
    broadcast use vstd::seq_lib::to_multiset_contains;
    broadcast use vstd::multiset::group_multiset_properties;
    broadcast use vstd::multiset::group_multiset_axioms;

    let s1 = s.update(a, s[b]);
    assert(s1.to_multiset() == s.to_multiset().insert(s[b]).remove(s[a]));
    assert(s1.update(b, s[a]).to_multiset() == s1.to_multiset().insert(s[a]).remove(s1[b]));
    if a == b {
        assert(s.update(a, s[b]) =~= s);
        assert(s1.update(b, s[a]) =~= s);
    } else {
        assert(s1[b] == s[b]);
        assert(s.contains(s[a]));
        assert(s.contains(s[b]));
        assert(s.to_multiset().insert(s[b]).remove(s[a]).insert(s[a]).remove(s[b]) =~= s.to_multiset());
    }
}

fn copy_vec(v: &Vec<usize>) -> (r: Vec<usize>)
    ensures
        r@ == v@,
{
    let mut r: Vec<usize> = Vec::new();
    let mut k: usize = 0;
    while k < v.len()
        invariant
            k <= v.len(),
            r@ == v@.take(k as int),
        decreases v.len() - k,
    {
        r.push(v[k]);
        k += 1;
        proof {
            assert(r@ =~= v@.take(k as int));
        }
    }
    proof {
        assert(v@.take(v.len() as int) =~= v@);
    }
    r
}

fn swap_entries(arr: &mut Vec<usize>, a: usize, b: usize)
    requires
        a < old(arr).len(),
        b < old(arr).len(),
    ensures
        final(arr)@ == old(arr)@.update(a as int, old(arr)@[b as int]).update(b as int, old(arr)@[a as int]),
{
    let x = arr[a];
    let y = arr[b];
    arr.set(a, y);
    arr.set(b, x);
}

/// All the orders of `arr`, by Heap's algorithm: `n!` of them, the first `arr` itself, each
/// the one before with two entries swapped; `arr` is left in the last.
fn permute(arr: &mut Vec<usize>) -> (r: Vec<Vec<usize>>)
    ensures
        r.len() == fact(old(arr).len() as nat),
        r@[0]@ == old(arr)@,
        forall|k: int| 0 <= k < r.len() ==> (#[trigger] r@[k])@.to_multiset() == old(arr)@.to_multiset(),
        forall|k: int| 0 <= k < r.len() ==> (#[trigger] r@[k])@.len() == old(arr)@.len(),
{
    let n = arr.len();
    let ghost orig = arr@;
    let mut result: Vec<Vec<usize>> = Vec::new();
    result.push(copy_vec(arr));
    let mut c: Vec<usize> = Vec::new();
    let mut q: usize = 0;
    while q < n
        invariant
            q <= n,
            c@ == Seq::new(q as nat, |k: int| 0usize),
        decreases n - q,
    {
        c.push(0);
        q += 1;
        proof {
            assert(c@ =~= Seq::new(q as nat, |k: int| 0usize));
        }
    }
    let mut i: usize = 0;
    proof {
        lemma_upper_sum_zeros(c@, 0, n as nat, n as nat);
        lemma_fact_pos(n as nat);
    }
    while i < n
        invariant
            n == arr.len(),
            n == orig.len(),
            c.len() == n,
            i <= n,
            forall|k: int| 0 <= k < i ==> #[trigger] c@[k] == 0,
            forall|k: int| 0 <= k < n ==> #[trigger] c@[k] <= k,
            result.len() == heap_count(c@, i as nat, n as nat) + 1,
            result.len() >= 1,
            result@[0]@ == orig,
            forall|k: int| 0 <= k < result.len() ==> (#[trigger] result@[k])@.to_multiset() == orig.to_multiset(),
            forall|k: int| 0 <= k < result.len() ==> (#[trigger] result@[k])@.len() == n,
            arr@.to_multiset() == orig.to_multiset(),
        decreases fact(n as nat) - heap_count(c@, i as nat, n as nat), n - i,
    {
        proof {
            lemma_upper_sum_bound(c@, i as nat, n as nat);
        }
        if c[i] < i {
            let ghost before = arr@;
            if i % 2 == 0 {
                swap_entries(arr, 0, i);
                proof {
                    lemma_swap_multiset(before, 0, i as int);
                }
            } else {
                let ci = c[i];
                swap_entries(arr, ci, i);
                proof {
                    lemma_swap_multiset(before, ci as int, i as int);
                }
            }
            result.push(copy_vec(arr));
            let ghost c0 = c@;
            let v = c[i] + 1;
            c.set(i, v);
            proof {
                lemma_upper_sum_frame(c0, c@, i as nat + 1, n as nat);
                lemma_upper_sum_zeros(c@, 0, i as nat, n as nat);
                lemma_upper_sum_zeros(c0, 0, i as nat, n as nat);
                lemma_upper_sum_bound(c@, i as nat, n as nat);
                assert(c@[i as int] * fact(i as nat) == c0[i as int] * fact(i as nat) + fact(i as nat)) by (nonlinear_arith)
                    requires
                        c@[i as int] == c0[i as int] + 1,
                ;
                assert(fact(0) == 1);
            }
            i = 0;
        } else {
            let ghost c0 = c@;
            c.set(i, 0);
            proof {
                lemma_upper_sum_frame(c0, c@, i as nat + 1, n as nat);
                assert(c0[i as int] == i);
                assert(fact(i as nat + 1) == (i + 1) * fact(i as nat));
                assert((i + 1) * fact(i as nat) == i * fact(i as nat) + fact(i as nat)) by (nonlinear_arith);
            }
            i += 1;
        }
    }
    result
}

/// Whether the mask mirrors axis `axis`.
pub open spec fn mirrors(mask: usize, axis: usize) -> bool {
    (mask >> axis) & 1 == 1
}

/// The coordinates of cell `i` with the axes reordered by `perm` (axis `dest` takes the
/// value of axis `perm[dest]`) and the axes of `mask` mirrored.
pub open spec fn sym_coords(i: nat, perm: Seq<usize>, mask: usize, dim: nat, side: nat) -> Seq<usize> {
    let c = digits_of(i, dim, side);
    Seq::new(
        dim,
        |dest: int|
            if mirrors(mask, dest as usize) {
                (side - 1 - c[perm[dest] as int]) as usize
            } else {
                c[perm[dest] as int]
            },
    )
}

/// The cell that cell `i` goes to.
pub open spec fn sym_image(i: nat, perm: Seq<usize>, mask: usize, dim: nat, side: nat) -> nat {
    value_of(sym_coords(i, perm, mask, dim, side), side)
}

/// The axes `0..dim` in order.
pub open spec fn axes(dim: nat) -> Seq<usize> {
    Seq::new(dim, |k: int| k as usize)
}


/// `maps` holds, for each order `perms[p]` of the axes and each mirror mask `m`, at entry
/// `p * 2^dim + m`, the cell each cell goes to; `perms` holds the `dim!` orders of the axes,
/// the first the identity.
pub open spec fn symmetry_maps(maps: Seq<Vec<usize>>, perms: Seq<Seq<usize>>, dim: nat, side: nat) -> bool {
    let reflections = pow2(dim);
    &&& perms.len() == fact(dim)
    &&& perms[0] == axes(dim)
    &&& forall|p: int|
        0 <= p < perms.len() ==> (#[trigger] perms[p]).len() == dim && perms[p].to_multiset() == axes(
            dim,
        ).to_multiset()
    &&& maps.len() == fact(dim) * reflections
    &&& forall|p: int, m: int|
        0 <= p < perms.len() && 0 <= m < reflections ==> (#[trigger] maps[p * reflections + m])@ == Seq::new(
            cell_count(side, dim),
            |i: int| sym_image(i as nat, perms[p], m as usize, dim, side) as usize,
        )
}

proof fn lemma_perm_entries(s: Seq<usize>, n: nat)
    requires
        s.to_multiset() == axes(n).to_multiset(),
    ensures
        forall|k: int| 0 <= k < s.len() ==> (#[trigger] s[k]) < n,
{
    broadcast use vstd::seq_lib::to_multiset_contains;

    assert forall|k: int| 0 <= k < s.len() implies (#[trigger] s[k]) < n by {
        assert(s.contains(s[k]));
        assert(s.to_multiset().count(s[k]) > 0);
        assert(axes(n).contains(s[k]));
    }
}

/// The map one symmetry makes on the cells (see `sym_image`).
fn symmetry_map(perm: &Vec<usize>, mask: usize, dim: usize, side: usize, total: usize) -> (r: Vec<usize>)
    requires
        1 <= side,
        dim < 32,
        total == cell_count(side as nat, dim as nat),
        perm@.len() == dim,
        forall|k: int| 0 <= k < dim ==> (#[trigger] perm@[k]) < dim,
    ensures
        r@ == Seq::new(total as nat, |i: int| sym_image(i as nat, perm@, mask, dim as nat, side as nat) as usize),
{
    let mut map: Vec<usize> = Vec::new();
    let mut i: usize = 0;
    while i < total
        invariant
            1 <= side,
            dim < 32,
            total == cell_count(side as nat, dim as nat),
            perm@.len() == dim,
            forall|k: int| 0 <= k < dim ==> (#[trigger] perm@[k]) < dim,
            i <= total,
            map@ == Seq::new(i as nat, |j: int| sym_image(j as nat, perm@, mask, dim as nat, side as nat) as usize),
        decreases total - i,
    {
        let coords = crate::coords::index_to_coords(i, dim, side);
        let ghost c = digits_of(i as nat, dim as nat, side as nat);
        let mut nc: Vec<usize> = Vec::new();
        let mut dest: usize = 0;
        while dest < dim
            invariant
                1 <= side,
                dim < 32,
                coords@ == c,
                c.len() == dim,
                c == digits_of(i as nat, dim as nat, side as nat),
                perm@.len() == dim,
                forall|k: int| 0 <= k < dim ==> (#[trigger] perm@[k]) < dim,
                dest <= dim,
                nc@ == sym_coords(i as nat, perm@, mask, dim as nat, side as nat).take(dest as int),
                all_below(nc@, side as nat),
            decreases dim - dest,
        {
            let src = perm[dest];
            let x = coords[src];
            proof {
                let q = i as nat / cell_count(side as nat, src as nat);
                assert(q % (side as nat) < side) by (nonlinear_arith)
                    requires
                        side >= 1,
                ;
                assert(x == q % (side as nat));
            }
            let v = if (mask >> dest) & 1 == 1 {
                side - 1 - x
            } else {
                x
            };
            nc.push(v);
            dest += 1;
            proof {
                assert(nc@ =~= sym_coords(i as nat, perm@, mask, dim as nat, side as nat).take(dest as int));
            }
        }
        proof {
            assert(sym_coords(i as nat, perm@, mask, dim as nat, side as nat).take(dim as int) =~= sym_coords(
                i as nat,
                perm@,
                mask,
                dim as nat,
                side as nat,
            ));
        }
        let cell = match crate::coords::coords_to_index(nc.as_slice(), side) {
            Some(v) => v,
            None => 0,
        };
        map.push(cell);
        i += 1;
        proof {
            assert(map@ =~= Seq::new(i as nat, |j: int| sym_image(j as nat, perm@, mask, dim as nat, side as nat) as usize));
        }
    }
    map
}

/// The cell maps of all symmetries of a board.
pub struct SymmetryHandler {
    pub maps: Vec<Vec<usize>>,
}

impl SymmetryHandler {
    /// The maps of every permutation of the axes (in the order Heap's algorithm makes them)
    /// combined with every mirror mask (see `symmetry_maps`).
    pub fn new(dimension: usize, side: usize) -> (r: SymmetryHandler)
        requires
            1 <= side,
            dimension < 32,
            cell_count(side as nat, dimension as nat) <= usize::MAX,
        ensures
            exists|perms: Seq<Seq<usize>>| #[trigger] symmetry_maps(r.maps@, perms, dimension as nat, side as nat),
    {
        let total = crate::representation::total_cells_of(dimension, side);
        let mut axes_v: Vec<usize> = Vec::new();
        let mut k: usize = 0;
        while k < dimension
            invariant
                k <= dimension,
                axes_v@ == axes(k as nat),
            decreases dimension - k,
        {
            axes_v.push(k);
            k += 1;
            proof {
                assert(axes_v@ =~= axes(k as nat));
            }
        }
        let ghost ax = axes_v@;
        let permutations = permute(&mut axes_v);
        proof {
            vstd::bits::lemma_usize_pow2_no_overflow(dimension as nat);
            vstd::bits::lemma_usize_shl_is_mul(1, dimension);
        }
        let num_reflections: usize = 1usize << dimension;
        let ghost perms = Seq::new(permutations.len() as nat, |p: int| permutations@[p]@);
        let ghost reflections = pow2(dimension as nat);
        proof {
            lemma_fact_pos(dimension as nat);
        }
        let mut maps: Vec<Vec<usize>> = Vec::new();
        let mut p: usize = 0;
        while p < permutations.len()
            invariant
                1 <= side,
                dimension < 32,
                total == cell_count(side as nat, dimension as nat),
                num_reflections == reflections,
                reflections >= 1,
                ax == axes(dimension as nat),
                permutations.len() == fact(dimension as nat),
                permutations.len() >= 1,
                permutations@[0]@ == ax,
                perms == Seq::new(permutations.len() as nat, |q: int| permutations@[q]@),
                forall|q: int| 0 <= q < permutations.len() ==> (#[trigger] permutations@[q])@.to_multiset() == ax.to_multiset(),
                forall|q: int| 0 <= q < permutations.len() ==> (#[trigger] permutations@[q])@.len() == dimension,
                p <= permutations.len(),
                maps.len() == p * reflections,
                forall|pp: int, m: int|
                    0 <= pp < p && 0 <= m < reflections ==> (#[trigger] maps@[pp * reflections + m])@ == Seq::new(
                        cell_count(side as nat, dimension as nat),
                        |i: int| sym_image(i as nat, perms[pp], m as usize, dimension as nat, side as nat) as usize,
                    ),
            decreases permutations.len() - p,
        {
            let perm = &permutations[p];
            proof {
                lemma_perm_entries(perm@, dimension as nat);
            }
            let mut m: usize = 0;
            while m < num_reflections
                invariant
                    1 <= side,
                    dimension < 32,
                    total == cell_count(side as nat, dimension as nat),
                    num_reflections == reflections,
                    perm@.len() == dimension,
                    forall|k: int| 0 <= k < dimension ==> (#[trigger] perm@[k]) < dimension,
                    perm@ == perms[p as int],
                    p < permutations.len(),
                    m <= num_reflections,
                    maps.len() == p * reflections + m,
                    forall|pp: int, mm: int|
                        0 <= pp < p && 0 <= mm < reflections ==> (#[trigger] maps@[pp * reflections + mm])@ == Seq::new(
                            cell_count(side as nat, dimension as nat),
                            |i: int| sym_image(i as nat, perms[pp], mm as usize, dimension as nat, side as nat) as usize,
                        ),
                    forall|mm: int|
                        0 <= mm < m ==> (#[trigger] maps@[p * reflections + mm])@ == Seq::new(
                            cell_count(side as nat, dimension as nat),
                            |i: int| sym_image(i as nat, perms[p as int], mm as usize, dimension as nat, side as nat) as usize,
                        ),
                decreases num_reflections - m,
            {
                let map = symmetry_map(perm, m, dimension, side, total);
                let ghost before = maps@;
                maps.push(map);
                proof {
                    assert forall|pp: int, mm: int|
                        0 <= pp < p && 0 <= mm < reflections implies (#[trigger] maps@[pp * reflections + mm])@ == Seq::new(
                            cell_count(side as nat, dimension as nat),
                            |i: int| sym_image(i as nat, perms[pp], mm as usize, dimension as nat, side as nat) as usize,
                        ) by {
                        assert(pp * reflections + mm < p * reflections) by (nonlinear_arith)
                            requires
                                0 <= pp < p,
                                0 <= mm < reflections,
                        ;
                        assert(maps@[pp * reflections + mm] == before[pp * reflections + mm]);
                    }
                }
                m += 1;
            }
            proof {
                assert((p + 1) * reflections == p * reflections + reflections) by (nonlinear_arith);
                assert forall|pp: int, mm: int|
                    0 <= pp < p + 1 && 0 <= mm < reflections implies (#[trigger] maps@[pp * reflections + mm])@ == Seq::new(
                        cell_count(side as nat, dimension as nat),
                        |i: int| sym_image(i as nat, perms[pp], mm as usize, dimension as nat, side as nat) as usize,
                    ) by {
                    if pp == p {
                        assert(maps@[p * reflections + mm] == maps@[pp * reflections + mm]);
                    }
                }
            }
            p += 1;
        }
        let r = SymmetryHandler { maps };
        proof {
            assert(perms[0] == ax);
            assert(symmetry_maps(r.maps@, perms, dimension as nat, side as nat));
        }
        r
    }
}

/// A symmetry sends every cell to a cell and different cells to different cells: its map
/// is a permutation of the cells.
pub proof fn lemma_symmetry_permutes(perm: Seq<usize>, mask: usize, dim: nat, side: nat, i: nat, j: nat)
    requires
        0 < side <= usize::MAX,
        dim < 32,
        perm.len() == dim,
        perm.to_multiset() == axes(dim).to_multiset(),
        i < cell_count(side, dim),
        j < cell_count(side, dim),
    ensures
        sym_image(i, perm, mask, dim, side) < cell_count(side, dim),
        sym_image(i, perm, mask, dim, side) == sym_image(j, perm, mask, dim, side) ==> i == j,
{
    broadcast use vstd::seq_lib::to_multiset_contains;

    lemma_perm_entries(perm, dim);
    crate::coords::lemma_coords_roundtrip(i, dim, side);
    crate::coords::lemma_coords_roundtrip(j, dim, side);
    let ci = digits_of(i, dim, side);
    let cj = digits_of(j, dim, side);
    let si = sym_coords(i, perm, mask, dim, side);
    let sj = sym_coords(j, perm, mask, dim, side);
    assert(all_below(si, side)) by {
        assert forall|d: int| 0 <= d < si.len() implies (#[trigger] si[d] as nat) < side by {
            assert((ci[perm[d] as int] as nat) < side);
        }
    }
    assert(all_below(sj, side)) by {
        assert forall|d: int| 0 <= d < sj.len() implies (#[trigger] sj[d] as nat) < side by {
            assert((cj[perm[d] as int] as nat) < side);
        }
    }
    crate::coords::lemma_value_of_bound(si, side);
    if dim == 0 {
        assert(cell_count(side, 0) == 1);
    }
    if sym_image(i, perm, mask, dim, side) == sym_image(j, perm, mask, dim, side) {
        crate::coords::lemma_value_of_injective(si, sj, side);
        assert forall|a: int| 0 <= a < dim implies ci[a] == cj[a] by {
            assert(axes(dim)[a] == a as usize);
            assert(axes(dim).contains(a as usize));
            assert(axes(dim).to_multiset().count(a as usize) > 0);
            assert(perm.to_multiset().count(a as usize) > 0);
            assert(perm.contains(a as usize));
            let dest = choose|dest: int| 0 <= dest < perm.len() && perm[dest] == a as usize;
            assert(si[dest] == sj[dest]);
            assert((ci[a] as nat) < side && (cj[a] as nat) < side);
            if mirrors(mask, dest as usize) {
                assert(si[dest] == (side - 1 - ci[a]) as usize);
                assert(sj[dest] == (side - 1 - cj[a]) as usize);
            } else {
                assert(si[dest] == ci[a]);
                assert(sj[dest] == cj[a]);
            }
        }
        assert(ci =~= cj);
    }
}

/// Every map of the symmetry maps sends the cells to cells, different cells to different
/// cells.
pub proof fn lemma_symmetry_maps_permute(
    maps: Seq<Vec<usize>>,
    perms: Seq<Seq<usize>>,
    dim: nat,
    side: nat,
    k: int,
    i: int,
    j: int,
)
    requires
        0 < side <= usize::MAX,
        dim < 32,
        cell_count(side, dim) <= usize::MAX,
        symmetry_maps(maps, perms, dim, side),
        0 <= k < maps.len(),
        0 <= i < cell_count(side, dim),
        0 <= j < cell_count(side, dim),
    ensures
        maps[k]@[i] < cell_count(side, dim),
        maps[k]@[i] == maps[k]@[j] ==> i == j,
{
    let r = pow2(dim);
    vstd::arithmetic::power2::lemma_pow2_pos(dim);
    let p = k / (r as int);
    let m = k % (r as int);
    vstd::arithmetic::div_mod::lemma_fundamental_div_mod(k, r as int);
    assert(0 <= m < r);
    assert(0 <= p);
    assert(p < perms.len()) by {
        assert(maps.len() == fact(dim) * r);
        assert(k < fact(dim) * r);
        assert(p * r <= k) by (nonlinear_arith)
            requires
                k == r * p + m,
                0 <= m,
                r > 0,
        ;
        if p >= perms.len() {
            assert(p * r >= perms.len() * r) by (nonlinear_arith)
                requires
                    p >= perms.len(),
                    r > 0,
            ;
        }
    }
    assert(k == p * r + m) by (nonlinear_arith)
        requires
            k == r * p + m,
    ;
    assert((maps[p * r + m])@ == Seq::new(
        cell_count(side, dim),
        |x: int| sym_image(x as nat, perms[p], m as usize, dim, side) as usize,
    ));
    lemma_symmetry_permutes(perms[p], m as usize, dim, side, i as nat, j as nat);
    let ii = sym_image(i as nat, perms[p], m as usize, dim, side);
    let jj = sym_image(j as nat, perms[p], m as usize, dim, side);
    lemma_symmetry_permutes(perms[p], m as usize, dim, side, j as nat, i as nat);
    assert(maps[k]@[i] == ii as usize);
    assert(maps[k]@[j] == jj as usize);
}

} // verus!
