//! Cell numbers and coordinates with one `usize` value per axis.
use vstd::prelude::*;
use crate::representation::{cell_count, lemma_cell_count_monotone};

verus! {

/// The coordinates of cell `index` on `dim` axes of `side` squares: digit `d` of `index` in
/// base `side`, least significant first.
pub open spec fn digits_of(index: nat, dim: nat, side: nat) -> Seq<usize> {
    Seq::new(dim, |d: int| ((index / cell_count(side, d as nat)) % side) as usize)
}

/// The cell of coordinates: `sum of coords[d] * side^d`.
pub open spec fn value_of(coords: Seq<usize>, side: nat) -> nat
    decreases coords.len(),
{
    if coords.len() == 0 {
        0
    } else {
        value_of(coords.drop_last(), side) + coords.last() as nat * cell_count(
            side,
            (coords.len() - 1) as nat,
        )
    }
}

/// Every value is below `side`.
pub open spec fn all_below(coords: Seq<usize>, side: nat) -> bool {
    forall|d: int| 0 <= d < coords.len() ==> (#[trigger] coords[d] as nat) < side
}

/// The coordinates of cell `index`: its base-`side` digits, least significant first.
pub fn index_to_coords(index: usize, dimension: usize, side: usize) -> (r: Vec<usize>)
    requires
        dimension > 0 ==> side > 0,
    ensures
        r@ == digits_of(index as nat, dimension as nat, side as nat),
{
    let mut coords: Vec<usize> = Vec::new();
    let mut temp = index;
    let mut i: usize = 0;
    proof {
        assert(cell_count(side as nat, 0) == 1);
        assert(index as nat / 1 == index);
    }
    while i < dimension
        invariant
            i <= dimension,
            dimension > 0 ==> side > 0,
            temp == index as nat / cell_count(side as nat, i as nat),
            coords@ == digits_of(index as nat, dimension as nat, side as nat).take(i as int),
        decreases dimension - i,
    {
        proof {
            crate::geometry::lemma_cell_count_pos(side as nat, i as nat);
            vstd::arithmetic::div_mod::lemma_div_denominator(
                index as int,
                cell_count(side as nat, i as nat) as int,
                side as int,
            );
            assert(cell_count(side as nat, (i + 1) as nat) == side * cell_count(side as nat, i as nat));
            assert(cell_count(side as nat, i as nat) * side == side * cell_count(side as nat, i as nat))
                by (nonlinear_arith);
        }
        coords.push(temp % side);
        temp = temp / side;
        proof {
            assert(coords@ =~= digits_of(index as nat, dimension as nat, side as nat).take(i + 1));
        }
        i += 1;
    }
    proof {
        assert(digits_of(index as nat, dimension as nat, side as nat).take(dimension as int)
            =~= digits_of(index as nat, dimension as nat, side as nat));
    }
    coords
}

/// The cell of coordinates below `side` are all below `side^len`.
pub(crate) proof fn lemma_value_of_bound(coords: Seq<usize>, side: nat)
    requires
        all_below(coords, side),
    ensures
        value_of(coords, side) < cell_count(side, coords.len()) || coords.len() == 0 && value_of(
            coords,
            side,
        ) == 0,
        coords.len() == 0 || side > 0,
    decreases coords.len(),
{
    if coords.len() > 0 {
        let rest = coords.drop_last();
        assert(all_below(rest, side)) by {
            assert forall|d: int| 0 <= d < rest.len() implies (#[trigger] rest[d] as nat) < side by {
                assert(rest[d] == coords[d]);
            }
        }
        lemma_value_of_bound(rest, side);
        let m = cell_count(side, rest.len());
        let x = coords.last() as nat;
        assert(x < side);
        crate::geometry::lemma_cell_count_pos(side, rest.len());
        assert(cell_count(side, coords.len()) == side * m);
        if rest.len() == 0 {
            assert(m == 1);
        }
        assert(value_of(rest, side) + x * m < side * m) by (nonlinear_arith)
            requires
                value_of(rest, side) < m,
                x < side,
        ;
    }
}

/// The cell of the coordinates, or `None` when a value is not below `side`.
pub fn coords_to_index(coords: &[usize], side: usize) -> (r: Option<usize>)
    requires
        cell_count(side as nat, coords@.len()) <= usize::MAX,
    ensures
        r == if all_below(coords@, side as nat) {
            Some(value_of(coords@, side as nat) as usize)
        } else {
            None::<usize>
        },
{
    let mut index: usize = 0;
    let mut multiplier: usize = 1;
    let mut i: usize = 0;
    while i < coords.len()
        invariant
            i <= coords.len(),
            cell_count(side as nat, coords@.len()) <= usize::MAX,
            all_below(coords@.take(i as int), side as nat),
            index == value_of(coords@.take(i as int), side as nat),
            multiplier == cell_count(side as nat, i as nat),
        decreases coords.len() - i,
    {
        let c = coords[i];
        if c >= side {
            proof {
                assert(!(coords@[i as int] < side));
            }
            return None;
        }
        proof {
            let pre = coords@.take(i + 1);
            assert(pre.drop_last() =~= coords@.take(i as int));
            assert(all_below(pre, side as nat)) by {
                assert forall|d: int| 0 <= d < pre.len() implies (#[trigger] pre[d] as nat) < side by {
                    if d < i {
                        assert(pre[d] == coords@.take(i as int)[d]);
                    }
                }
            }
            lemma_value_of_bound(pre, side as nat);
            lemma_cell_count_monotone(side as nat, (i + 1) as nat, coords@.len());
            assert(cell_count(side as nat, (i + 1) as nat) == side * multiplier);
            assert(multiplier * side == side * multiplier) by (nonlinear_arith);
            assert(c * multiplier <= value_of(pre, side as nat)) by (nonlinear_arith)
                requires
                    value_of(pre, side as nat) == index + c * multiplier,
                    index >= 0,
            ;
        }
        index = index + c * multiplier;
        multiplier = multiplier * side;
        i += 1;
    }
    proof {
        assert(coords@.take(coords@.len() as int) =~= coords@);
    }
    Some(index)
}

/// The first `n` digits of a cell are below `side` and read back as the cell modulo
/// `side^n`.
proof fn lemma_digits_value(index: nat, n: nat, side: nat)
    requires
        0 < side <= usize::MAX,
    ensures
        all_below(digits_of(index, n, side), side),
        value_of(digits_of(index, n, side), side) == index % cell_count(side, n),
    decreases n,
{
    let ds = digits_of(index, n, side);
    assert forall|d: int| 0 <= d < ds.len() implies (#[trigger] ds[d] as nat) < side by {
        crate::geometry::lemma_cell_count_pos(side, d as nat);
        let q = index / cell_count(side, d as nat);
        assert(q % side < side) by {
            vstd::arithmetic::div_mod::lemma_mod_bound(q as int, side as int);
        }
    }
    if n == 0 {
        assert(index % 1 == 0);
    } else {
        let m = (n - 1) as nat;
        lemma_digits_value(index, m, side);
        assert(ds.drop_last() =~= digits_of(index, m, side));
        let c = cell_count(side, m);
        crate::geometry::lemma_cell_count_pos(side, m);
        let q = index / c;
        assert(q % side < side) by {
            vstd::arithmetic::div_mod::lemma_mod_bound(q as int, side as int);
        }
        assert(ds.last() as nat == q % side);
        vstd::arithmetic::div_mod::lemma_mod_breakdown(index as int, c as int, side as int);
        assert(cell_count(side, n) == side * c);
        assert(c * side == side * c) by (nonlinear_arith);
        assert((q % side) * c == c * (q % side)) by (nonlinear_arith);
    }
}

/// Reading back the coordinates of a cell gives the cell: each coordinate is below `side`
/// and their value is the cell.
pub proof fn lemma_coords_roundtrip(index: nat, dim: nat, side: nat)
    requires
        0 < side <= usize::MAX,
        index < cell_count(side, dim),
    ensures
        all_below(digits_of(index, dim, side), side),
        value_of(digits_of(index, dim, side), side) == index,
{
    lemma_digits_value(index, dim, side);
    vstd::arithmetic::div_mod::lemma_small_mod(index, cell_count(side, dim));
}

/// Coordinates below `side` of the same length with the same cell are the same.
pub proof fn lemma_value_of_injective(c1: Seq<usize>, c2: Seq<usize>, side: nat)
    requires
        all_below(c1, side),
        all_below(c2, side),
        c1.len() == c2.len(),
        value_of(c1, side) == value_of(c2, side),
    ensures
        c1 == c2,
    decreases c1.len(),
{
    if c1.len() > 0 {
        let r1 = c1.drop_last();
        let r2 = c2.drop_last();
        assert(all_below(r1, side)) by {
            assert forall|d: int| 0 <= d < r1.len() implies (#[trigger] r1[d] as nat) < side by {
                assert(r1[d] == c1[d]);
            }
        }
        assert(all_below(r2, side)) by {
            assert forall|d: int| 0 <= d < r2.len() implies (#[trigger] r2[d] as nat) < side by {
                assert(r2[d] == c2[d]);
            }
        }
        lemma_value_of_bound(r1, side);
        lemma_value_of_bound(r2, side);
        let m = cell_count(side, r1.len());
        crate::geometry::lemma_cell_count_pos(side, r1.len());
        if r1.len() == 0 {
            assert(m == 1);
        }
        let v = value_of(c1, side) as int;
        assert(v == c1.last() as int * m + value_of(r1, side)) by (nonlinear_arith)
            requires
                v == value_of(r1, side) + c1.last() as nat * m,
        ;
        assert(v == c2.last() as int * m + value_of(r2, side)) by (nonlinear_arith)
            requires
                v == value_of(r2, side) + c2.last() as nat * m,
        ;
        vstd::arithmetic::div_mod::lemma_fundamental_div_mod_converse(v, m as int, c1.last() as int, value_of(r1, side) as int);
        vstd::arithmetic::div_mod::lemma_fundamental_div_mod_converse(v, m as int, c2.last() as int, value_of(r2, side) as int);
        lemma_value_of_injective(r1, r2, side);
        assert(c1 =~= r1.push(c1.last()));
        assert(c2 =~= r2.push(c2.last()));
    }
}

} // verus!
