//! Equality of large bitboards: two boards are equal when they hold the same words.
use vstd::prelude::*;
use vstd::std_specs::cmp::PartialEqSpecImpl;
use crate::bitboard_large::BitBoardLarge;

verus! {

impl PartialEq for BitBoardLarge {
    fn eq(&self, other: &Self) -> (r: bool) {
        let n = self.num_words();
        if n != other.num_words() {
            return false;
        }
        let mut k: usize = 0;
        while k < n
            invariant
                n == self.words().len(),
                n == other.words().len(),
                k <= n,
                forall|j: int| 0 <= j < k ==> self.words()[j] == other.words()[j],
            decreases n - k,
        {
            if self.word(k) != other.word(k) {
                return false;
            }
            k += 1;
        }
        proof {
            assert(self.words() =~= other.words());
        }
        true
    }
}

impl PartialEqSpecImpl for BitBoardLarge {
    open spec fn obeys_eq_spec() -> bool {
        true
    }

    open spec fn eq_spec(&self, other: &Self) -> bool {
        self.words() == other.words()
    }
}

} // verus!
