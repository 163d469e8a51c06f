//! The common interface of bitboard backends, and board size arithmetic.
use vstd::prelude::*;

verus! {

/// Number of cells of a board with `dim` axes of `side` squares each: `side^dim`.
pub open spec fn cell_count(side: nat, dim: nat) -> nat
    decreases dim,
{
    if dim == 0 {
        1
    } else {
        side * cell_count(side, (dim - 1) as nat)
    }
}

/// Partial products of `side^dim` never exceed the full product when the side is positive.
pub proof fn lemma_cell_count_monotone(side: nat, i: nat, d: nat)
    requires
        side >= 1,
        i <= d,
    ensures
        cell_count(side, i) <= cell_count(side, d),
    decreases d,
{
    if i < d {
        lemma_cell_count_monotone(side, i, (d - 1) as nat);
        assert(cell_count(side, (d - 1) as nat) <= side * cell_count(side, (d - 1) as nat))
            by (nonlinear_arith)
            requires
                side >= 1,
        ;
    }
}

/// `side^dimension`, the number of cells of the board.
pub fn total_cells_of(dimension: usize, side: usize) -> (r: usize)
    requires
        cell_count(side as nat, dimension as nat) <= usize::MAX,
    ensures
        r == cell_count(side as nat, dimension as nat),
{
    let mut acc: usize = 1;
    let mut i: usize = 0;
    while i < dimension
        invariant
            i <= dimension,
            acc == cell_count(side as nat, i as nat),
            cell_count(side as nat, dimension as nat) <= usize::MAX,
        decreases dimension - i,
    {
        proof {
            assert(cell_count(side as nat, (i + 1) as nat) == side * cell_count(side as nat, i as nat));
            assert(acc * side == side * acc) by (nonlinear_arith);
            if side >= 1 {
                lemma_cell_count_monotone(side as nat, (i + 1) as nat, dimension as nat);
            } else {
                assert(side * acc == 0) by (nonlinear_arith)
                    requires
                        side == 0,
                ;
            }
        }
        acc = acc * side;
        i = i + 1;
    }
    acc
}

/// A set of board cells stored as bits.
pub trait BoardRepresentation: Sized {
    /// Well-formedness of the representation.
    spec fn wf(&self) -> bool;

    /// Number of cells that can be addressed.
    spec fn cells(&self) -> nat;

    /// Whether cell `i` is in the set.
    spec fn has(&self, i: int) -> bool;

    /// Whether boards with `dim` axes of `side` squares fit this representation.
    spec fn supports(dim: nat, side: nat) -> bool;

    /// An empty set sized for a board with `dimension` axes of `side` squares.
    fn new_empty(dimension: usize, side: usize) -> (r: Self)
        requires
            Self::supports(dimension as nat, side as nat),
        ensures
            r.wf(),
            r.cells() >= cell_count(side as nat, dimension as nat),
            r.cells() < cell_count(side as nat, dimension as nat) + 64,
            forall|i: int| !#[trigger] r.has(i),
    ;

    /// Adds cell `index`.
    fn set_bit(&mut self, index: usize)
        requires
            old(self).wf(),
            index < old(self).cells(),
        ensures
            final(self).wf(),
            final(self).cells() == old(self).cells(),
            forall|i: int| #[trigger] final(self).has(i) == (i == index || old(self).has(i)),
    ;

    /// Removes cell `index`.
    fn clear_bit(&mut self, index: usize)
        requires
            old(self).wf(),
            index < old(self).cells(),
        ensures
            final(self).wf(),
            final(self).cells() == old(self).cells(),
            forall|i: int| #[trigger] final(self).has(i) == (i != index && old(self).has(i)),
    ;

    /// Whether cell `index` is in the set.
    fn get_bit(&self, index: usize) -> (r: bool)
        requires
            self.wf(),
            index < self.cells(),
        ensures
            r == self.has(index as int),
    ;

    /// The cells of the set in increasing order.
    fn indices(&self) -> (r: Vec<usize>)
        requires
            self.wf(),
        ensures
            forall|j: int| 0 <= j < r.len() ==> #[trigger] r[j] < self.cells() && self.has(
                r[j] as int,
            ),
            forall|j: int, k: int| 0 <= j < k < r.len() ==> r[j] < r[k],
            forall|i: int| 0 <= i < self.cells() && #[trigger] self.has(i) ==> r@.contains(
                i as usize,
            ),
    ;

    /// Makes this set equal to `other`.
    fn copy_from(&mut self, other: &Self)
        requires
            old(self).wf(),
            other.wf(),
        ensures
            final(self).wf(),
            final(self).cells() == other.cells(),
            forall|i: int| #[trigger] final(self).has(i) == other.has(i),
    ;

    /// An empty set of the same size.
    fn zero_like(&self) -> (r: Self)
        requires
            self.wf(),
        ensures
            r.wf(),
            r.cells() == self.cells(),
            forall|i: int| !#[trigger] r.has(i),
    ;

    /// Empties this set and sizes it like `template`.
    fn ensure_capacity_and_clear(&mut self, template: &Self)
        requires
            old(self).wf(),
            template.wf(),
        ensures
            final(self).wf(),
            final(self).cells() == template.cells(),
            forall|i: int| !#[trigger] final(self).has(i),
    ;
}

} // verus!
