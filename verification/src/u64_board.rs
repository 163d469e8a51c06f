//! A bitboard held in a single 64-bit word, for boards of at most 64 cells.
use vstd::prelude::*;
use crate::bits::{bit, popcount, lemma_set_bit, lemma_clear_bit, lemma_mask_test, lemma_zero_bit};
use crate::representation::{BoardRepresentation, cell_count};

verus! {

/// Wrapper of std's `u64::count_ones`.
#[verifier::external_body]
pub(crate) fn u64_count_ones(x: u64) -> (r: u32)
    ensures
        r as nat == popcount(x),
        r <= 64,
{
    x.count_ones()
}

/// A set of at most 64 cells: bit `i` of the word is cell `i`.
#[derive(Clone, Copy, Debug, PartialEq, Eq, Hash, Default, Structural)]
pub struct BitBoard64(pub u64);

impl BitBoard64 {
    /// Whether cell `i` is in the set.
    pub open spec fn spec_has(self, i: int) -> bool {
        0 <= i < 64 && bit(self.0, i as u64)
    }

    /// An empty set.
    pub fn new_empty(_dimension: usize, _side: usize) -> (r: BitBoard64)
        ensures
            r.0 == 0,
    {
        BitBoard64(0)
    }

    /// Adds cell `index`.
    pub fn set_bit(&mut self, index: usize)
        requires
            index < 64,
        ensures
            final(self).0 == old(self).0 | (1u64 << index),
            forall|i: int| #[trigger] final(self).spec_has(i) == (i == index || old(self).spec_has(i)),
    {
        let ghost old0 = self.0;
        self.0 = self.0 | (1u64 << index);
        proof {
            assert forall|i: int| #[trigger] self.spec_has(i) == (i == index || BitBoard64(
                old0,
            ).spec_has(i)) by {
                if 0 <= i < 64 {
                    lemma_set_bit(old0, index as u64, i as u64);
                }
            }
        }
    }

    /// Removes cell `index`.
    pub fn clear_bit(&mut self, index: usize)
        requires
            index < 64,
        ensures
            final(self).0 == old(self).0 & !(1u64 << index),
            forall|i: int| #[trigger] final(self).spec_has(i) == (i != index && old(self).spec_has(i)),
    {
        proof {
            assert forall|i: int| #[trigger] BitBoard64(self.0 & !(1u64 << index)).spec_has(i) == (i
                != index && self.spec_has(i)) by {
                if 0 <= i < 64 {
                    lemma_clear_bit(self.0, index as u64, i as u64);
                }
            }
        }
        self.0 = self.0 & !(1u64 << index);
    }

    /// Whether cell `index` is in the set.
    pub fn get_bit(&self, index: usize) -> (r: bool)
        requires
            index < 64,
        ensures
            r == self.spec_has(index as int),
    {
        proof {
            lemma_mask_test(self.0, index as u64);
        }
        (self.0 & (1u64 << index)) != 0
    }

    /// Number of cells in the set.
    pub fn count_ones(&self) -> (r: u32)
        ensures
            r as nat == popcount(self.0),
    {
        u64_count_ones(self.0)
    }

    /// An iterator over the cells of the set, in increasing order.
    pub fn iter_indices(&self) -> (r: BitIterator64)
        ensures
            r.current == self.0,
    {
        BitIterator64 { current: self.0 }
    }

    /// Makes this set equal to `other`.
    pub fn copy_from(&mut self, other: &BitBoard64)
        ensures
            *final(self) == *other,
    {
        self.0 = other.0;
    }

    /// An empty set.
    pub fn zero_like(&self) -> (r: BitBoard64)
        ensures
            r.0 == 0,
    {
        BitBoard64(0)
    }

    /// Empties this set.
    pub fn ensure_capacity_and_clear(&mut self, _template: &BitBoard64)
        ensures
            final(self).0 == 0,
    {
        self.0 = 0;
    }

    /// Intersection.
    pub fn bitand(self, rhs: BitBoard64) -> (r: BitBoard64)
        ensures
            r.0 == self.0 & rhs.0,
    {
        BitBoard64(self.0 & rhs.0)
    }

    /// Union.
    pub fn bitor(self, rhs: BitBoard64) -> (r: BitBoard64)
        ensures
            r.0 == self.0 | rhs.0,
    {
        BitBoard64(self.0 | rhs.0)
    }

    /// Complement.
    pub fn not(self) -> (r: BitBoard64)
        ensures
            r.0 == !self.0,
    {
        BitBoard64(!self.0)
    }

    /// In-place intersection.
    pub fn bitand_assign(&mut self, rhs: &BitBoard64)
        ensures
            final(self).0 == old(self).0 & rhs.0,
    {
        self.0 = self.0 & rhs.0;
    }

    /// In-place union.
    pub fn bitor_assign(&mut self, rhs: &BitBoard64)
        ensures
            final(self).0 == old(self).0 | rhs.0,
    {
        self.0 = self.0 | rhs.0;
    }

    /// Every cell moved up by `rhs` (cells past the top are lost).
    pub fn shl(self, rhs: usize) -> (r: BitBoard64)
        requires
            rhs < 64,
        ensures
            r.0 == self.0 << rhs,
    {
        BitBoard64(self.0 << rhs)
    }

    /// Every cell moved down by `rhs` (cells below zero are lost).
    pub fn shr(self, rhs: usize) -> (r: BitBoard64)
        requires
            rhs < 64,
        ensures
            r.0 == self.0 >> rhs,
    {
        BitBoard64(self.0 >> rhs)
    }

    /// In-place shift up.
    pub fn shl_assign(&mut self, rhs: usize)
        requires
            rhs < 64,
        ensures
            final(self).0 == old(self).0 << rhs,
    {
        self.0 = self.0 << rhs;
    }

    /// In-place shift down.
    pub fn shr_assign(&mut self, rhs: usize)
        requires
            rhs < 64,
        ensures
            final(self).0 == old(self).0 >> rhs,
    {
        self.0 = self.0 >> rhs;
    }
}

/// Walks the set bits of a word from the lowest up.
pub struct BitIterator64 {
    pub current: u64,
}

impl BitIterator64 {
    /// The lowest remaining cell, which is then dropped; `None` once no cell remains.
    pub fn next(&mut self) -> (r: Option<usize>)
        ensures
            old(self).current == 0 ==> r is None && final(self).current == 0,
            old(self).current != 0 ==> (r matches Some(k) && k < 64 && bit(old(self).current, k as u64)
                && (forall|j: u64| j < k ==> !#[trigger] bit(old(self).current, j))
                && final(self).current == old(self).current & !(1u64 << (k as u64))),
    {
        if self.current == 0 {
            return None;
        }
        let trailing = self.current.trailing_zeros();
        proof {
            vstd::std_specs::bits::axiom_u64_trailing_zeros(self.current);
        }
        self.current = self.current & !(1u64 << trailing);
        Some(trailing as usize)
    }
}

impl BoardRepresentation for BitBoard64 {
    open spec fn wf(&self) -> bool {
        true
    }

    open spec fn cells(&self) -> nat {
        64
    }

    open spec fn has(&self, i: int) -> bool {
        self.spec_has(i)
    }

    open spec fn supports(dim: nat, side: nat) -> bool {
        1 <= cell_count(side, dim) <= 64
    }

    fn new_empty(dimension: usize, side: usize) -> (r: Self) {
        proof {
            assert forall|i: int| !#[trigger] BitBoard64(0).spec_has(i) by {
                if 0 <= i < 64 {
                    lemma_zero_bit(i as u64);
                }
            }
        }
        BitBoard64(0)
    }

    fn set_bit(&mut self, index: usize) {
        BitBoard64::set_bit(self, index)
    }

    fn clear_bit(&mut self, index: usize) {
        BitBoard64::clear_bit(self, index)
    }

    fn get_bit(&self, index: usize) -> (r: bool) {
        BitBoard64::get_bit(self, index)
    }

    fn indices(&self) -> (r: Vec<usize>) {
        let mut out: Vec<usize> = Vec::new();
        let mut i: usize = 0;
        while i < 64
            invariant
                i <= 64,
                forall|j: int| 0 <= j < out.len() ==> #[trigger] out[j] < i && self.spec_has(
                    out[j] as int,
                ),
                forall|j: int, k: int| 0 <= j < k < out.len() ==> out[j] < out[k],
                forall|c: int| 0 <= c < i && #[trigger] self.spec_has(c) ==> out@.contains(
                    c as usize,
                ),
            decreases 64 - i,
        {
            if BitBoard64::get_bit(self, i) {
                let ghost prev = out@;
                out.push(i);
                proof {
                    assert(out@[out.len() - 1] == i);
                    assert forall|c: int| 0 <= c < i + 1 && #[trigger] self.spec_has(c) implies out@.contains(
                        c as usize) by {
                        if c == i {
                            assert(out@[out.len() - 1] == c as usize);
                        } else {
                            let w = choose|w: int| 0 <= w < prev.len() && prev[w] == c as usize;
                            assert(out@[w] == c as usize);
                        }
                    }
                }
            }
            i = i + 1;
        }
        out
    }

    fn copy_from(&mut self, other: &Self) {
        self.0 = other.0;
    }

    fn zero_like(&self) -> (r: Self) {
        <BitBoard64 as BoardRepresentation>::new_empty(0, 0)
    }

    fn ensure_capacity_and_clear(&mut self, template: &Self) {
        *self = <BitBoard64 as BoardRepresentation>::new_empty(0, 0);
    }
}

} // verus!
