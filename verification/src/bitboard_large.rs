//! Bitboard for N-dimensional boards of any size: a sequence of 64-bit words with a
//! tracked range `lo..=hi` outside of which every word is zero.
use vstd::prelude::*;
use crate::bits::{
    bit, popcount, lemma_set_bit, lemma_clear_bit, lemma_mask_test, lemma_zero_bit,
    lemma_and_bit, lemma_or_bit, lemma_andnot_bit, lemma_not_bit, lemma_zero_iff_no_bits,
    lemma_shl_carry_bit, lemma_shr_carry_bit,
};
use crate::inline::Words;
use crate::representation::{BoardRepresentation, cell_count, total_cells_of};
use crate::u64_board::u64_count_ones;

verus! {

/// Word `k` of `ws`, or zero past either end.
pub open spec fn word_or_zero(ws: Seq<u64>, k: int) -> u64 {
    if 0 <= k < ws.len() {
        ws[k]
    } else {
        0
    }
}

/// Whether cell `i` is set in the words `ws` (cell `i` is bit `i % 64` of word `i / 64`).
pub open spec fn words_has(ws: Seq<u64>, i: int) -> bool {
    0 <= i < ws.len() * 64 && bit(ws[i / 64], (i % 64) as u64)
}

/// Total number of set bits of the words.
pub open spec fn words_popcount(ws: Seq<u64>) -> nat
    decreases ws.len(),
{
    if ws.len() == 0 {
        0
    } else {
        words_popcount(ws.drop_last()) + popcount(ws.last())
    }
}

/// Every word outside `lo..=hi` is zero, and a non-empty range lies within the words.
pub open spec fn range_ok(ws: Seq<u64>, lo: int, hi: int) -> bool {
    &&& (lo <= hi ==> hi < ws.len())
    &&& forall|k: int| 0 <= k < ws.len() && (k < lo || k > hi) ==> #[trigger] ws[k] == 0u64
}

/// Word `k` of `ws` shifted up by `c` whole words and `b` bits.
pub open spec fn shl_word(ws: Seq<u64>, c: int, b: u64, k: int) -> u64 {
    if b == 0 {
        word_or_zero(ws, k - c)
    } else {
        (word_or_zero(ws, k - c) << b) | (word_or_zero(ws, k - c - 1) >> ((64 - b) as u64))
    }
}

/// Word `k` of `ws` shifted down by `c` whole words and `b` bits.
pub open spec fn shr_word(ws: Seq<u64>, c: int, b: u64, k: int) -> u64 {
    if b == 0 {
        word_or_zero(ws, k + c)
    } else {
        (word_or_zero(ws, k + c) >> b) | (word_or_zero(ws, k + c + 1) << ((64 - b) as u64))
    }
}

/// The mask of the valid bits of word `k` of a board with `total` cells.
pub open spec fn valid_mask(total: int, k: int) -> u64 {
    let limit = total - 64 * k;
    if limit >= 64 {
        !0u64
    } else if limit <= 0 {
        0u64
    } else {
        ((1u64 << (limit as u64)) - 1) as u64
    }
}

/// Cell `i` of `ws` read through the word and bit it lives in.
pub proof fn lemma_words_has_split(ws: Seq<u64>, i: int)
    requires
        0 <= i,
    ensures
        words_has(ws, i) == bit(word_or_zero(ws, i / 64), (i % 64) as u64),
        0 <= i % 64 < 64,
        i == 64 * (i / 64) + i % 64,
        (i < ws.len() * 64) == (i / 64 < ws.len()),
{
    if i / 64 >= ws.len() {
        lemma_zero_bit((i % 64) as u64);
    }
}

/// Cells of word-wise results: intersection, union and difference.
pub proof fn lemma_words_combine(a: Seq<u64>, b: Seq<u64>, r: Seq<u64>, op: int)
    requires
        0 <= op <= 2,
        forall|k: int| 0 <= k < r.len() ==> #[trigger] r[k] == if op == 0 {
            word_or_zero(a, k) & word_or_zero(b, k)
        } else if op == 1 {
            word_or_zero(a, k) | word_or_zero(b, k)
        } else {
            word_or_zero(a, k) & !word_or_zero(b, k)
        },
    ensures
        forall|i: int| #[trigger] words_has(r, i) == (0 <= i < r.len() * 64 && if op == 0 {
            words_has(a, i) && words_has(b, i)
        } else if op == 1 {
            words_has(a, i) || words_has(b, i)
        } else {
            words_has(a, i) && !words_has(b, i)
        }),
{
    assert forall|i: int| #[trigger] words_has(r, i) == (0 <= i < r.len() * 64 && if op == 0 {
        words_has(a, i) && words_has(b, i)
    } else if op == 1 {
        words_has(a, i) || words_has(b, i)
    } else {
        words_has(a, i) && !words_has(b, i)
    }) by {
        if 0 <= i < r.len() * 64 {
            lemma_words_has_split(r, i);
            lemma_words_has_split(a, i);
            lemma_words_has_split(b, i);
            let k = i / 64;
            let j = (i % 64) as u64;
            if op == 0 {
                lemma_and_bit(word_or_zero(a, k), word_or_zero(b, k), j);
            } else if op == 1 {
                lemma_or_bit(word_or_zero(a, k), word_or_zero(b, k), j);
            } else {
                lemma_andnot_bit(word_or_zero(a, k), word_or_zero(b, k), j);
            }
        }
    }
}

/// Words that are all zero hold no cell.
pub proof fn lemma_words_zero(ws: Seq<u64>)
    requires
        forall|k: int| 0 <= k < ws.len() ==> #[trigger] ws[k] == 0u64,
    ensures
        forall|i: int| !#[trigger] words_has(ws, i),
{
    assert forall|i: int| !#[trigger] words_has(ws, i) by {
        if 0 <= i < ws.len() * 64 {
            lemma_words_has_split(ws, i);
            lemma_zero_bit((i % 64) as u64);
        }
    }
}


/// Cells of words shifted up: cell `i` comes from cell `i - shift`.
pub proof fn lemma_shl_words(ws: Seq<u64>, r: Seq<u64>, shift: int)
    requires
        shift >= 0,
        r.len() == ws.len(),
        forall|k: int| 0 <= k < r.len() ==> #[trigger] r[k] == shl_word(ws, shift / 64, (shift % 64) as u64, k),
    ensures
        forall|i: int| #[trigger] words_has(r, i) == (0 <= i < ws.len() * 64 && i >= shift
            && words_has(ws, i - shift)),
{
    let c = shift / 64;
    let b = (shift % 64) as u64;
    assert forall|i: int| #[trigger] words_has(r, i) == (0 <= i < ws.len() * 64 && i >= shift
        && words_has(ws, i - shift)) by {
        if 0 <= i < ws.len() * 64 {
            lemma_words_has_split(r, i);
            let k = i / 64;
            let j = (i % 64) as u64;
            let m = i - shift;
            if b == 0 {
                if k - c >= 0 {
                    lemma_words_has_split(ws, m);
                    assert(m / 64 == k - c);
                } else {
                    lemma_zero_bit(j);
                }
            } else {
                lemma_shl_carry_bit(word_or_zero(ws, k - c), word_or_zero(ws, k - c - 1), b, j);
                if j >= b {
                    if k - c >= 0 {
                        lemma_words_has_split(ws, m);
                        assert(m / 64 == k - c);
                        assert(m % 64 == j - b);
                    } else {
                        lemma_zero_bit((j - b) as u64);
                    }
                } else {
                    if k - c - 1 >= 0 {
                        lemma_words_has_split(ws, m);
                        assert(m / 64 == k - c - 1);
                        assert(m % 64 == j + 64 - b);
                    } else {
                        lemma_zero_bit((j + 64 - b) as u64);
                    }
                }
            }
        }
    }
}

/// Cells of words shifted down: cell `i` comes from cell `i + shift`.
pub proof fn lemma_shr_words(ws: Seq<u64>, r: Seq<u64>, shift: int)
    requires
        shift >= 0,
        r.len() == ws.len(),
        forall|k: int| 0 <= k < r.len() ==> #[trigger] r[k] == shr_word(ws, shift / 64, (shift % 64) as u64, k),
    ensures
        forall|i: int| #[trigger] words_has(r, i) == (0 <= i < ws.len() * 64 && words_has(
            ws,
            i + shift,
        )),
{
    let c = shift / 64;
    let b = (shift % 64) as u64;
    assert forall|i: int| #[trigger] words_has(r, i) == (0 <= i < ws.len() * 64 && words_has(
        ws,
        i + shift,
    )) by {
        if 0 <= i < ws.len() * 64 {
            lemma_words_has_split(r, i);
            let k = i / 64;
            let j = (i % 64) as u64;
            let m = i + shift;
            lemma_words_has_split(ws, m);
            if b == 0 {
                assert(m / 64 == k + c);
            } else {
                lemma_shr_carry_bit(word_or_zero(ws, k + c), word_or_zero(ws, k + c + 1), b, j);
                if j + b < 64 {
                    assert(m / 64 == k + c);
                    assert(m % 64 == j + b);
                } else {
                    assert(m / 64 == k + c + 1);
                    assert(m % 64 == j + b - 64);
                }
            }
        }
    }
}

/// Bitboard for N-dimensional boards.
/// Tracks `lo`/`hi` (inclusive range of potentially non-zero u64 words)
/// to avoid scanning the full data array.
/// Invariant: all words outside `lo..=hi` are zero. `lo > hi` means all-zero.
pub struct BitBoardLarge {
    data: Words,
    lo: u16,
    hi: u16,
}

impl BitBoardLarge {
    /// The words of the board.
    pub closed spec fn words(self) -> Seq<u64> {
        self.data@
    }

    /// The tracked lower bound of possibly non-zero words.
    pub closed spec fn spec_lo(self) -> int {
        self.lo as int
    }

    /// The tracked upper bound of possibly non-zero words.
    pub closed spec fn spec_hi(self) -> int {
        self.hi as int
    }

    /// Whether cell `i` is set.
    pub open spec fn spec_has(self, i: int) -> bool {
        words_has(self.words(), i)
    }

    /// The representation invariant.
    pub open spec fn inv(self) -> bool {
        &&& self.words().len() <= 65536
        &&& range_ok(self.words(), self.spec_lo(), self.spec_hi())
    }

    /// Word `k`.
    pub(crate) fn word(&self, k: usize) -> (r: u64)
        requires
            k < self.words().len(),
        ensures
            r == self.words()[k as int],
    {
        self.data.as_slice()[k]
    }

    /// Number of words.
    pub fn num_words(&self) -> (r: usize)
        ensures
            r == self.words().len(),
    {
        self.data.len()
    }

    /// An all-zero board of `len` words.
    pub fn new(len: usize) -> (r: BitBoardLarge)
        requires
            len <= 65536,
        ensures
            r.inv(),
            r.words() == Seq::new(len as nat, |i: int| 0u64),
            forall|i: int| !#[trigger] r.spec_has(i),
    {
        let r = BitBoardLarge { data: Words::zeroed(len), lo: 1, hi: 0 };
        proof {
            lemma_words_zero(r.words());
        }
        r
    }

    /// The empty board with one zero word.
    pub fn default() -> (r: BitBoardLarge)
        ensures
            r.inv(),
            r.words() == seq![0u64],
    {
        let r = BitBoardLarge::new(1);
        assert(r.words() =~= seq![0u64]);
        r
    }

    /// An all-zero board sized for `side^dimension` cells.
    pub fn new_empty(dimension: usize, side: usize) -> (r: BitBoardLarge)
        requires
            cell_count(side as nat, dimension as nat) <= 64 * 65536,
        ensures
            r.inv(),
            r.words().len() * 64 >= cell_count(side as nat, dimension as nat),
            r.words().len() * 64 < cell_count(side as nat, dimension as nat) + 64,
            forall|i: int| !#[trigger] r.spec_has(i),
    {
        let total_cells = total_cells_of(dimension, side);
        let len = total_cells / 64 + if total_cells % 64 != 0 {
            1
        } else {
            0
        };
        BitBoardLarge::new(len)
    }

    /// Lowest word index that may be non-zero (inclusive).
    pub fn lo(&self) -> (r: usize)
        ensures
            r == self.spec_lo(),
    {
        self.lo as usize
    }

    /// Highest word index that may be non-zero (inclusive).
    pub fn hi(&self) -> (r: usize)
        ensures
            r == self.spec_hi(),
    {
        self.hi as usize
    }

    /// Whether the tracked range is empty (all-zero board).
    pub fn is_range_empty(&self) -> (r: bool)
        requires
            self.inv(),
        ensures
            r == (self.spec_lo() > self.spec_hi()),
            r ==> forall|i: int| !#[trigger] self.spec_has(i),
    {
        proof {
            if self.lo > self.hi {
                lemma_words_zero(self.words());
            }
        }
        self.lo > self.hi
    }

    /// Whether the board is all-zero based on tracked range.
    pub fn is_empty_board(&self) -> (r: bool)
        requires
            self.inv(),
        ensures
            r == (self.spec_lo() > self.spec_hi()),
            r ==> forall|i: int| !#[trigger] self.spec_has(i),
    {
        self.is_range_empty()
    }

    /// Sets the range directly; the words outside it must already be zero.
    pub fn set_range(&mut self, lo: usize, hi: usize)
        requires
            lo <= u16::MAX,
            hi <= u16::MAX,
        ensures
            final(self).words() == old(self).words(),
            final(self).spec_lo() == lo,
            final(self).spec_hi() == hi,
            old(self).words().len() <= 65536 && range_ok(old(self).words(), lo as int, hi as int)
                ==> final(self).inv(),
    {
        self.lo = lo as u16;
        self.hi = hi as u16;
    }

    /// Adds cell `index` (no effect past the last word).
    pub fn set_bit(&mut self, index: usize)
        requires
            old(self).inv(),
        ensures
            final(self).inv(),
            final(self).words().len() == old(self).words().len(),
            forall|i: int| #[trigger] final(self).spec_has(i) == (old(self).spec_has(i) || (i
                == index && index < old(self).words().len() * 64)),
    {
        let vec_idx = index / 64;
        let ghost old_ws = self.words();
        if vec_idx < self.data.len() {
            let w = self.word(vec_idx);
            let b = (index % 64) as u64;
            self.data.set(vec_idx, w | (1u64 << b));
            let vi = vec_idx as u16;
            if self.lo > self.hi {
                self.lo = vi;
                self.hi = vi;
            } else {
                if vi < self.lo {
                    self.lo = vi;
                }
                if vi > self.hi {
                    self.hi = vi;
                }
            }
            proof {
                assert forall|i: int| #[trigger] self.spec_has(i) == (words_has(old_ws, i) || i
                    == index) by {
                    if 0 <= i {
                        lemma_words_has_split(self.words(), i);
                        lemma_words_has_split(old_ws, i);
                        if i / 64 == vec_idx {
                            lemma_set_bit(w, b, (i % 64) as u64);
                        }
                    }
                }
            }
        }
    }

    /// Removes cell `index` (no effect past the last word).
    pub fn clear_bit(&mut self, index: usize)
        requires
            old(self).inv(),
        ensures
            final(self).inv(),
            final(self).words().len() == old(self).words().len(),
            forall|i: int| #[trigger] final(self).spec_has(i) == (old(self).spec_has(i) && i
                != index),
    {
        let vec_idx = index / 64;
        let ghost old_ws = self.words();
        if vec_idx < self.data.len() {
            let w = self.word(vec_idx);
            let b = (index % 64) as u64;
            self.data.set(vec_idx, w & !(1u64 << b));
            proof {
                if w == 0 {
                    assert(0u64 & !(1u64 << b) == 0u64) by (bit_vector);
                }
                assert forall|i: int| #[trigger] self.spec_has(i) == (words_has(old_ws, i) && i
                    != index) by {
                    if 0 <= i {
                        lemma_words_has_split(self.words(), i);
                        lemma_words_has_split(old_ws, i);
                        if i / 64 == vec_idx {
                            lemma_clear_bit(w, b, (i % 64) as u64);
                        }
                    }
                }
            }
        }
    }

    /// Whether cell `index` is set (false past the last word).
    pub fn get_bit(&self, index: usize) -> (r: bool)
        ensures
            r == self.spec_has(index as int),
    {
        let vec_idx = index / 64;
        proof {
            lemma_words_has_split(self.words(), index as int);
        }
        if vec_idx < self.data.len() {
            let w = self.word(vec_idx);
            proof {
                lemma_mask_test(w, (index % 64) as u64);
            }
            (w & (1u64 << ((index % 64) as u64))) != 0
        } else {
            false
        }
    }

    /// Number of set cells.
    pub fn count_ones(&self) -> (r: u32)
        requires
            self.inv(),
        ensures
            r as nat == words_popcount(self.words()),
    {
        let n = self.data.len();
        let mut count: u32 = 0;
        let mut i: usize = 0;
        while i < n
            invariant
                n == self.words().len(),
                n <= 65536,
                i <= n,
                count as nat == words_popcount(self.words().take(i as int)),
                count <= 64 * i,
            decreases n - i,
        {
            let c = u64_count_ones(self.word(i));
            proof {
                assert(self.words().take((i + 1) as int).drop_last() =~= self.words().take(
                    i as int,
                ));
            }
            count = count + c;
            i = i + 1;
        }
        proof {
            assert(self.words().take(n as int) =~= self.words());
        }
        count
    }

    /// The set cells in increasing order.
    pub fn iter_indices(&self) -> (r: Vec<usize>)
        requires
            self.inv(),
        ensures
            forall|j: int| 0 <= j < r.len() ==> #[trigger] self.spec_has(r[j] as int),
            forall|j: int, k: int| 0 <= j < k < r.len() ==> r[j] < r[k],
            forall|i: int| #[trigger] self.spec_has(i) ==> r@.contains(i as usize),
    {
        let n = self.data.len();
        let mut out: Vec<usize> = Vec::new();
        let mut k: usize = 0;
        while k < n
            invariant
                n == self.words().len(),
                n <= 65536,
                k <= n,
                forall|j: int| 0 <= j < out.len() ==> #[trigger] out[j] < 64 * k && self.spec_has(
                    out[j] as int,
                ),
                forall|j: int, m: int| 0 <= j < m < out.len() ==> out[j] < out[m],
                forall|c: int| 0 <= c < 64 * k && #[trigger] self.spec_has(c) ==> out@.contains(
                    c as usize,
                ),
            decreases n - k,
        {
            let w = self.word(k);
            let mut b: usize = 0;
            while b < 64
                invariant
                    n == self.words().len(),
                    n <= 65536,
                    k < n,
                    w == self.words()[k as int],
                    b <= 64,
                    forall|j: int| 0 <= j < out.len() ==> #[trigger] out[j] < 64 * k + b
                        && self.spec_has(out[j] as int),
                    forall|j: int, m: int| 0 <= j < m < out.len() ==> out[j] < out[m],
                    forall|c: int| 0 <= c < 64 * k + b && #[trigger] self.spec_has(c)
                        ==> out@.contains(c as usize),
                decreases 64 - b,
            {
                let idx = 64 * k + b;
                proof {
                    lemma_mask_test(w, b as u64);
                    lemma_words_has_split(self.words(), idx as int);
                    assert(idx as int / 64 == k as int);
                    assert(idx as int % 64 == b as int);
                }
                if (w & (1u64 << (b as u64))) != 0 {
                    let ghost prev = out@;
                    out.push(idx);
                    proof {
                        assert forall|c: int| 0 <= c < idx + 1 && #[trigger] self.spec_has(c)
                            implies out@.contains(c as usize) by {
                            if c == idx {
                                assert(out@[out.len() - 1] == c as usize);
                            } else {
                                let x = choose|x: int| 0 <= x < prev.len() && prev[x] == c as usize;
                                assert(out@[x] == c as usize);
                            }
                        }
                    }
                }
                b = b + 1;
            }
            k = k + 1;
        }
        proof {
            assert forall|i: int| #[trigger] self.spec_has(i) implies out@.contains(i as usize) by {
                assert(0 <= i < 64 * n);
            }
        }
        out
    }

    /// A copy of this board.
    pub fn duplicate(&self) -> (r: BitBoardLarge)
        ensures
            r.words() == self.words(),
            r.spec_lo() == self.spec_lo(),
            r.spec_hi() == self.spec_hi(),
    {
        BitBoardLarge { data: self.data.duplicate(), lo: self.lo, hi: self.hi }
    }

    /// Makes this board equal to `other` (words and range).
    pub fn copy_from(&mut self, other: &BitBoardLarge)
        requires
            old(self).inv(),
            other.inv(),
        ensures
            final(self).inv(),
            final(self).words() == other.words(),
            final(self).spec_lo() == other.spec_lo(),
            final(self).spec_hi() == other.spec_hi(),
    {
        let n = other.data.len();
        let mut i: usize = 0;
        if self.data.len() != n {
            self.data.resize(n, 0);
        }
        while i < n
            invariant
                n == other.words().len(),
                self.words().len() == n,
                i <= n,
                forall|k: int| 0 <= k < i ==> #[trigger] self.words()[k] == other.words()[k],
            decreases n - i,
        {
            let w = other.word(i);
            self.data.set(i, w);
            i = i + 1;
        }
        assert(self.words() =~= other.words());
        self.lo = other.lo;
        self.hi = other.hi;
    }

    /// An all-zero board of the same length.
    pub fn zero_like(&self) -> (r: BitBoardLarge)
        requires
            self.inv(),
        ensures
            r.inv(),
            r.words() == Seq::new(self.words().len(), |i: int| 0u64),
            forall|i: int| !#[trigger] r.spec_has(i),
    {
        BitBoardLarge::new(self.data.len())
    }

    /// Clears this board and gives it the length of `template`.
    pub fn ensure_capacity_and_clear(&mut self, template: &BitBoardLarge)
        requires
            template.inv(),
        ensures
            final(self).inv(),
            final(self).words() == Seq::new(template.words().len(), |i: int| 0u64),
            forall|i: int| !#[trigger] final(self).spec_has(i),
    {
        *self = BitBoardLarge::new(template.data.len());
    }

    /// Recomputes `lo`/`hi` from scratch: the lowest and highest non-zero words.
    pub fn recompute_range(&mut self)
        requires
            old(self).words().len() <= 65536,
        ensures
            final(self).inv(),
            final(self).words() == old(self).words(),
            (forall|k: int| 0 <= k < old(self).words().len() ==> #[trigger] old(self).words()[k]
                == 0) ==> final(self).spec_lo() == 1 && final(self).spec_hi() == 0,
            (exists|k: int| 0 <= k < old(self).words().len() && #[trigger] old(self).words()[k]
                != 0) ==> {
                &&& final(self).spec_lo() <= final(self).spec_hi()
                &&& final(self).words()[final(self).spec_lo()] != 0
                &&& final(self).words()[final(self).spec_hi()] != 0
            },
    {
        let len = self.data.len();
        let mut new_lo = len;
        let mut new_hi: usize = 0;
        let mut i: usize = 0;
        while i < len
            invariant
                len == self.words().len(),
                len <= 65536,
                i <= len,
                new_lo == len ==> forall|k: int| 0 <= k < i ==> #[trigger] self.words()[k] == 0,
                new_lo < len ==> new_lo <= new_hi < i && self.words()[new_lo as int] != 0
                    && self.words()[new_hi as int] != 0,
                new_lo < len ==> forall|k: int|
                    0 <= k < i && (k < new_lo || k > new_hi) ==> #[trigger] self.words()[k] == 0,
                new_lo <= len,
            decreases len - i,
        {
            let v = self.word(i);
            if v != 0 {
                if i < new_lo {
                    new_lo = i;
                }
                new_hi = i;
            }
            i = i + 1;
        }
        if new_lo > new_hi || new_lo == len {
            self.lo = 1;
            self.hi = 0;
        } else {
            self.lo = new_lo as u16;
            self.hi = new_hi as u16;
        }
    }

    /// Fused `self &= !rhs`; words past the end of `rhs` are kept.
    pub fn andnot_assign(&mut self, rhs: &BitBoardLarge)
        requires
            old(self).inv(),
        ensures
            final(self).inv(),
            final(self).words().len() == old(self).words().len(),
            forall|k: int| 0 <= k < old(self).words().len() ==> #[trigger] final(self).words()[k]
                == old(self).words()[k] & !word_or_zero(rhs.words(), k),
            forall|i: int| #[trigger] final(self).spec_has(i) == (old(self).spec_has(i)
                && !rhs.spec_has(i)),
    {
        let n = self.data.len();
        let m = rhs.data.len();
        let ghost orig = self.words();
        let mut k: usize = 0;
        while k < n
            invariant
                n == self.words().len(),
                m == rhs.words().len(),
                orig.len() == n,
                k <= n,
                self.lo == old(self).lo,
                self.hi == old(self).hi,
                forall|j: int| 0 <= j < k ==> #[trigger] self.words()[j] == orig[j]
                    & !word_or_zero(rhs.words(), j),
                forall|j: int| k <= j < n ==> #[trigger] self.words()[j] == orig[j],
            decreases n - k,
        {
            let w = self.word(k);
            if k < m {
                let x = rhs.word(k);
                self.data.set(k, w & !x);
            } else {
                assert(w & !0u64 == w) by (bit_vector);
            }
            k = k + 1;
        }
        proof {
            assert forall|j: int| 0 <= j < n && (j < self.spec_lo() || j > self.spec_hi())
                implies #[trigger] self.words()[j] == 0u64 by {
                let x = word_or_zero(rhs.words(), j);
                assert(orig[j] == 0u64);
                assert(0u64 & !x == 0u64) by (bit_vector);
            }
            lemma_words_combine(orig, rhs.words(), self.words(), 2);
        }
    }

    /// Writes `self | other` into `dest` over the union of the two tracked ranges, and gives
    /// `dest` that range; words of `dest` outside it are left as they were.
    pub fn or_into(&self, other: &BitBoardLarge, dest: &mut BitBoardLarge)
        requires
            self.inv(),
            other.inv(),
            old(dest).inv(),
            old(dest).words().len() >= self.words().len(),
            old(dest).words().len() >= other.words().len(),
        ensures
            final(dest).words().len() == old(dest).words().len(),
            (forall|k: int| 0 <= k < old(dest).words().len() ==> #[trigger] old(dest).words()[k]
                == 0) ==> {
                &&& final(dest).inv()
                &&& forall|k: int| 0 <= k < old(dest).words().len() ==> #[trigger] final(dest).words()[k] == word_or_zero(self.words(), k) | word_or_zero(other.words(), k)
                &&& forall|i: int| #[trigger] final(dest).spec_has(i) == (self.spec_has(i)
                    || other.spec_has(i))
            },
            forall|k: int|
                0 <= k < old(dest).words().len() && final(dest).spec_lo() <= k <= final(dest).spec_hi() ==> #[trigger] final(dest).words()[k] == word_or_zero(self.words(), k)
                    | word_or_zero(other.words(), k),
            forall|k: int|
                0 <= k < old(dest).words().len() && !(final(dest).spec_lo() <= k <= final(dest).spec_hi()) ==> #[trigger] final(dest).words()[k] == old(dest).words()[k],
    {
        let self_empty = self.lo > self.hi;
        let other_empty = other.lo > other.hi;
        let ghost orig = dest.words();
        if self_empty && other_empty {
            dest.lo = 1;
            dest.hi = 0;
            proof {
                if forall|k: int| 0 <= k < orig.len() ==> #[trigger] orig[k] == 0 {
                    assert forall|k: int| 0 <= k < orig.len() implies #[trigger] dest.words()[k]
                        == word_or_zero(self.words(), k) | word_or_zero(other.words(), k) by {
                        assert(0u64 | 0u64 == 0u64) by (bit_vector);
                    }
                    lemma_words_combine(self.words(), other.words(), dest.words(), 1);
                    assert forall|i: int| #[trigger] dest.spec_has(i) implies i < orig.len() * 64
                        by {}
                    lemma_words_zero(self.words());
                    lemma_words_zero(other.words());
                    lemma_words_zero(dest.words());
                }
            }
            return;
        }
        let (dlo, dhi): (usize, usize) = if self_empty {
            (other.lo as usize, other.hi as usize)
        } else if other_empty {
            (self.lo as usize, self.hi as usize)
        } else {
            (
                if self.lo < other.lo {
                    self.lo as usize
                } else {
                    other.lo as usize
                },
                if self.hi > other.hi {
                    self.hi as usize
                } else {
                    other.hi as usize
                },
            )
        };
        let alen = self.data.len();
        let blen = other.data.len();
        let n = dest.data.len();
        let mut i = dlo;
        while i <= dhi
            invariant
                alen == self.words().len(),
                blen == other.words().len(),
                n == dest.words().len(),
                n == orig.len(),
                dlo <= dhi < n,
                dhi < 65536,
                dlo <= i <= dhi + 1,
                forall|k: int| dlo <= k < i ==> #[trigger] dest.words()[k] == word_or_zero(
                    self.words(),
                    k,
                ) | word_or_zero(other.words(), k),
                forall|k: int|
                    0 <= k < n && !(dlo <= k < i) ==> #[trigger] dest.words()[k] == orig[k],
            decreases dhi + 1 - i,
        {
            let a = if i < alen {
                self.word(i)
            } else {
                0
            };
            let b = if i < blen {
                other.word(i)
            } else {
                0
            };
            dest.data.set(i, a | b);
            i = i + 1;
        }
        dest.lo = dlo as u16;
        dest.hi = dhi as u16;
        proof {
            if forall|k: int| 0 <= k < orig.len() ==> #[trigger] orig[k] == 0 {
                assert forall|k: int| 0 <= k < orig.len() implies #[trigger] dest.words()[k]
                    == word_or_zero(self.words(), k) | word_or_zero(other.words(), k) by {
                    if !(dlo <= k <= dhi) {
                        assert(word_or_zero(self.words(), k) == 0);
                        assert(word_or_zero(other.words(), k) == 0);
                        assert(0u64 | 0u64 == 0u64) by (bit_vector);
                    }
                }
                lemma_words_combine(self.words(), other.words(), dest.words(), 1);
                assert forall|i: int| #[trigger] self.spec_has(i) || other.spec_has(i) implies i
                    < dest.words().len() * 64 by {}
            }
        }
    }

    /// `self = !self` masked to the first `total_cells` cells; the range is then recomputed.
    pub fn invert_masked(&mut self, total_cells: usize)
        requires
            old(self).inv(),
        ensures
            final(self).inv(),
            final(self).words().len() == old(self).words().len(),
            forall|k: int| 0 <= k < old(self).words().len() ==> #[trigger] final(self).words()[k]
                == !old(self).words()[k] & valid_mask(total_cells as int, k),
            forall|i: int| #[trigger] final(self).spec_has(i) == (0 <= i < total_cells && i
                < old(self).words().len() * 64 && !old(self).spec_has(i)),
    {
        let n = self.data.len();
        let ghost orig = self.words();
        let mut remaining = total_cells;
        let mut k: usize = 0;
        while k < n
            invariant
                n == self.words().len(),
                n == orig.len(),
                n <= 65536,
                k <= n,
                remaining as int == if total_cells - 64 * k > 0 {
                    total_cells - 64 * k
                } else {
                    0
                },
                forall|j: int| 0 <= j < k ==> #[trigger] self.words()[j] == !orig[j] & valid_mask(
                    total_cells as int,
                    j,
                ),
                forall|j: int| k <= j < n ==> #[trigger] self.words()[j] == orig[j],
            decreases n - k,
        {
            let limit = if remaining < 64 {
                remaining
            } else {
                64
            };
            let mask: u64 = if limit == 64 {
                !0u64
            } else {
                let l = limit as u64;
                assert((1u64 << l) >= 1u64) by (bit_vector)
                    requires
                        l < 64,
                ;
                (1u64 << l) - 1
            };
            proof {
                if limit == 0 {
                    assert((1u64 << 0u64) - 1 == 0u64) by (bit_vector);
                }
                assert(mask == valid_mask(total_cells as int, k as int));
            }
            let w = self.word(k);
            self.data.set(k, !w & mask);
            remaining = if remaining >= 64 {
                remaining - 64
            } else {
                0
            };
            k = k + 1;
        }
        self.recompute_range();
        proof {
            assert forall|i: int| #[trigger] self.spec_has(i) == (0 <= i < total_cells && i < n
                * 64 && !words_has(orig, i)) by {
                if 0 <= i < n * 64 {
                    lemma_words_has_split(self.words(), i);
                    lemma_words_has_split(orig, i);
                    let kk = i / 64;
                    let j = (i % 64) as u64;
                    let w = orig[kk];
                    let limit = total_cells - 64 * kk;
                    lemma_not_bit(w, j);
                    if limit >= 64 {
                        lemma_and_bit(!w, !0u64, j);
                        assert(bit(!0u64, j)) by {
                            assert(((!0u64 >> j) & 1u64) == 1u64) by (bit_vector)
                                requires
                                    j < 64,
                            ;
                        }
                    } else if limit <= 0 {
                        lemma_and_bit(!w, 0u64, j);
                        lemma_zero_bit(j);
                    } else {
                        let l = limit as u64;
                        lemma_and_bit(!w, ((1u64 << l) - 1) as u64, j);
                        assert((((((1u64 << l) - 1) as u64) >> j) & 1u64 == 1u64) == (j < l))
                            by (bit_vector)
                            requires
                                0 < l < 64,
                                j < 64,
                        ;
                    }
                }
            }
        }
    }

    /// Fused `self = a & b`; words past either end count as zero.
    pub fn copy_and(&mut self, a: &BitBoardLarge, b: &BitBoardLarge)
        requires
            old(self).inv(),
            a.inv(),
            b.inv(),
            a.words().len() <= old(self).words().len(),
            b.words().len() <= old(self).words().len(),
        ensures
            final(self).inv(),
            final(self).words().len() == old(self).words().len(),
            forall|k: int| 0 <= k < old(self).words().len() ==> #[trigger] final(self).words()[k]
                == word_or_zero(a.words(), k) & word_or_zero(b.words(), k),
            forall|i: int| #[trigger] final(self).spec_has(i) == (a.spec_has(i) && b.spec_has(i)),
    {
        let n = self.data.len();
        let alen = a.data.len();
        let blen = b.data.len();
        let mut k: usize = 0;
        while k < n
            invariant
                n == self.words().len(),
                n <= 65536,
                alen == a.words().len(),
                blen == b.words().len(),
                k <= n,
                forall|j: int| 0 <= j < k ==> #[trigger] self.words()[j] == word_or_zero(
                    a.words(),
                    j,
                ) & word_or_zero(b.words(), j),
            decreases n - k,
        {
            let x = if k < alen {
                a.word(k)
            } else {
                0
            };
            let y = if k < blen {
                b.word(k)
            } else {
                0
            };
            self.data.set(k, x & y);
            k = k + 1;
        }
        proof {
            lemma_words_combine(a.words(), b.words(), self.words(), 0);
        }
        self.recompute_range();
    }

    /// Fused `self |= a & b`.
    pub fn or_and_assign(&mut self, a: &BitBoardLarge, b: &BitBoardLarge)
        requires
            old(self).inv(),
            a.inv(),
            b.inv(),
            a.words().len() <= old(self).words().len(),
            b.words().len() <= old(self).words().len(),
        ensures
            final(self).inv(),
            final(self).words().len() == old(self).words().len(),
            forall|k: int| 0 <= k < old(self).words().len() ==> #[trigger] final(self).words()[k]
                == old(self).words()[k] | (word_or_zero(a.words(), k) & word_or_zero(b.words(), k)),
            forall|i: int| #[trigger] final(self).spec_has(i) == (old(self).spec_has(i) || (
            a.spec_has(i) && b.spec_has(i))),
    {
        let n = self.data.len();
        let alen = a.data.len();
        let blen = b.data.len();
        let ghost orig = self.words();
        let mut k: usize = 0;
        while k < n
            invariant
                n == self.words().len(),
                n == orig.len(),
                n <= 65536,
                alen == a.words().len(),
                blen == b.words().len(),
                k <= n,
                forall|j: int| 0 <= j < k ==> #[trigger] self.words()[j] == orig[j] | (word_or_zero(
                    a.words(),
                    j,
                ) & word_or_zero(b.words(), j)),
                forall|j: int| k <= j < n ==> #[trigger] self.words()[j] == orig[j],
            decreases n - k,
        {
            let x = if k < alen {
                a.word(k)
            } else {
                0
            };
            let y = if k < blen {
                b.word(k)
            } else {
                0
            };
            let w = self.word(k);
            self.data.set(k, w | (x & y));
            k = k + 1;
        }
        self.recompute_range();
        proof {
            assert forall|i: int| #[trigger] self.spec_has(i) == (words_has(orig, i) || (a.spec_has(
                i,
            ) && b.spec_has(i))) by {
                if 0 <= i {
                    lemma_words_has_split(self.words(), i);
                    lemma_words_has_split(orig, i);
                    lemma_words_has_split(a.words(), i);
                    lemma_words_has_split(b.words(), i);
                    let kk = i / 64;
                    let j = (i % 64) as u64;
                    if kk < n {
                        let x = word_or_zero(a.words(), kk);
                        let y = word_or_zero(b.words(), kk);
                        lemma_or_bit(orig[kk], x & y, j);
                        lemma_and_bit(x, y, j);
                    }
                }
            }
        }
    }

    /// Whether the two boards share a set cell.
    pub fn intersects_any(&self, other: &BitBoardLarge) -> (r: bool)
        requires
            self.inv(),
            other.inv(),
        ensures
            r == exists|i: int| #[trigger] self.spec_has(i) && other.spec_has(i),
    {
        let n = self.data.len();
        let m = other.data.len();
        let mut k: usize = 0;
        while k < n && k < m
            invariant
                n == self.words().len(),
                m == other.words().len(),
                n <= 65536,
                k <= n,
                forall|c: int| 0 <= c < 64 * k ==> !(#[trigger] self.spec_has(c) && other.spec_has(
                    c,
                )),
            decreases n - k,
        {
            let x = self.word(k) & other.word(k);
            proof {
                lemma_zero_iff_no_bits(x);
            }
            if x != 0 {
                proof {
                    let j = choose|j: u64| j < 64 && bit(x, j);
                    let c = 64 * k + j;
                    lemma_words_has_split(self.words(), c as int);
                    lemma_words_has_split(other.words(), c as int);
                    assert(c as int / 64 == k as int);
                    lemma_and_bit(self.words()[k as int], other.words()[k as int], j);
                    assert(self.spec_has(c as int) && other.spec_has(c as int));
                }
                return true;
            }
            proof {
                assert forall|c: int| 0 <= c < 64 * (k + 1) implies !(#[trigger] self.spec_has(c)
                    && other.spec_has(c)) by {
                    if c >= 64 * k {
                        lemma_words_has_split(self.words(), c);
                        lemma_words_has_split(other.words(), c);
                        lemma_and_bit(self.words()[k as int], other.words()[k as int], (c
                            % 64) as u64);
                        assert(!bit(x, (c % 64) as u64));
                    }
                }
            }
            k = k + 1;
        }
        proof {
            assert forall|c: int| !(#[trigger] self.spec_has(c) && other.spec_has(c)) by {
                if 0 <= c && c >= 64 * k {
                    lemma_words_has_split(self.words(), c);
                    lemma_words_has_split(other.words(), c);
                }
            }
        }
        false
    }

    /// `self &= rhs`; words past the end of `rhs` become zero.
    pub fn bitand_assign(&mut self, rhs: &BitBoardLarge)
        requires
            old(self).inv(),
            rhs.inv(),
        ensures
            final(self).inv(),
            final(self).words().len() == old(self).words().len(),
            forall|k: int| 0 <= k < old(self).words().len() ==> #[trigger] final(self).words()[k]
                == old(self).words()[k] & word_or_zero(rhs.words(), k),
            forall|i: int| #[trigger] final(self).spec_has(i) == (old(self).spec_has(i)
                && rhs.spec_has(i)),
    {
        let n = self.data.len();
        let m = rhs.data.len();
        let ghost orig = self.words();
        let mut k: usize = 0;
        while k < n
            invariant
                n == self.words().len(),
                n == orig.len(),
                n <= 65536,
                m == rhs.words().len(),
                k <= n,
                forall|j: int| 0 <= j < k ==> #[trigger] self.words()[j] == orig[j] & word_or_zero(
                    rhs.words(),
                    j,
                ),
                forall|j: int| k <= j < n ==> #[trigger] self.words()[j] == orig[j],
            decreases n - k,
        {
            let w = self.word(k);
            let x = if k < m {
                rhs.word(k)
            } else {
                0
            };
            self.data.set(k, w & x);
            k = k + 1;
        }
        proof {
            lemma_words_combine(orig, rhs.words(), self.words(), 0);
        }
        self.recompute_range();
    }

    /// `self |= rhs`; a longer `rhs` extends `self` up to its highest non-zero word.
    pub fn bitor_assign(&mut self, rhs: &BitBoardLarge)
        requires
            old(self).inv(),
            rhs.inv(),
            rhs.spec_lo() <= rhs.spec_hi() && rhs.spec_hi() >= old(self).words().len() ==> rhs.spec_lo()
                < old(self).words().len(),
        ensures
            final(self).inv(),
            final(self).words().len() == if rhs.spec_lo() <= rhs.spec_hi() && rhs.spec_hi()
                >= old(self).words().len() {
                rhs.spec_hi() + 1
            } else {
                old(self).words().len() as int
            },
            forall|k: int| 0 <= k < final(self).words().len() ==> #[trigger] final(self).words()[k]
                == word_or_zero(old(self).words(), k) | word_or_zero(rhs.words(), k),
            forall|i: int| #[trigger] final(self).spec_has(i) == (old(self).spec_has(i)
                || rhs.spec_has(i)),
    {
        let n = self.data.len();
        let m = rhs.data.len();
        let ghost orig = self.words();
        let mut k: usize = 0;
        while k < n
            invariant
                n == self.words().len(),
                n == orig.len(),
                n <= 65536,
                m == rhs.words().len(),
                m <= 65536,
                k <= n,
                forall|j: int| 0 <= j < k ==> #[trigger] self.words()[j] == orig[j] | word_or_zero(
                    rhs.words(),
                    j,
                ),
                forall|j: int| k <= j < n ==> #[trigger] self.words()[j] == orig[j],
            decreases n - k,
        {
            let w = self.word(k);
            let x = if k < m {
                rhs.word(k)
            } else {
                0
            };
            self.data.set(k, w | x);
            k = k + 1;
        }
        if rhs.lo <= rhs.hi && rhs.hi as usize >= n {
            let top = rhs.hi as usize;
            let mut j = n;
            while j <= top
                invariant
                    n <= j <= top + 1,
                    top < m,
                    m == rhs.words().len(),
                    m <= 65536,
                    n == orig.len(),
                    self.words().len() == j,
                    forall|t: int| 0 <= t < j ==> #[trigger] self.words()[t] == word_or_zero(
                        orig,
                        t,
                    ) | word_or_zero(rhs.words(), t),
                decreases top + 1 - j,
            {
                let x = rhs.word(j);
                proof {
                    assert(0u64 | x == x) by (bit_vector);
                }
                self.data.push(x);
                j = j + 1;
            }
        }
        self.recompute_range();
        proof {
            lemma_words_combine(orig, rhs.words(), self.words(), 1);
            assert forall|i: int| #[trigger] self.spec_has(i) == (words_has(orig, i)
                || rhs.spec_has(i)) by {
                if rhs.spec_has(i) {
                    lemma_words_has_split(rhs.words(), i);
                    assert(rhs.words()[i / 64] != 0) by {
                        if rhs.words()[i / 64] == 0 {
                            lemma_zero_bit((i % 64) as u64);
                        }
                    }
                    assert(rhs.spec_lo() <= i / 64 <= rhs.spec_hi());
                    assert(i < self.words().len() * 64);
                }
            }
        }
    }

    /// Every cell moves up by `shift`; cells past the last word are dropped.
    pub fn shl_assign(&mut self, shift: usize)
        requires
            old(self).inv(),
        ensures
            final(self).inv(),
            final(self).words().len() == old(self).words().len(),
            forall|k: int| 0 <= k < old(self).words().len() ==> #[trigger] final(self).words()[k]
                == shl_word(old(self).words(), (shift / 64) as int, (shift % 64) as u64, k),
            forall|i: int| #[trigger] final(self).spec_has(i) == (0 <= i < old(self).words().len()
                * 64 && i >= shift && old(self).spec_has(i - shift)),
    {
        let n = self.data.len();
        let ghost orig = self.words();
        let c = shift / 64;
        let b = (shift % 64) as u64;
        let mut k = n;
        while k > 0
            invariant
                n == self.words().len(),
                n == orig.len(),
                n <= 65536,
                c == shift / 64,
                b == shift % 64,
                k <= n,
                forall|j: int| k <= j < n ==> #[trigger] self.words()[j] == shl_word(
                    orig,
                    c as int,
                    b,
                    j,
                ),
                forall|j: int| 0 <= j < k ==> #[trigger] self.words()[j] == orig[j],
            decreases k,
        {
            k = k - 1;
            let hw = if k >= c {
                self.word(k - c)
            } else {
                0
            };
            let lw = if k >= c + 1 {
                self.word(k - c - 1)
            } else {
                0
            };
            let v = if b == 0 {
                hw
            } else {
                (hw << b) | (lw >> (64 - b))
            };
            self.data.set(k, v);
        }
        proof {
            lemma_shl_words(orig, self.words(), shift as int);
        }
        self.recompute_range();
    }

    /// Every cell moves down by `shift`; cells below zero are dropped.
    pub fn shr_assign(&mut self, shift: usize)
        requires
            old(self).inv(),
        ensures
            final(self).inv(),
            final(self).words().len() == old(self).words().len(),
            forall|k: int| 0 <= k < old(self).words().len() ==> #[trigger] final(self).words()[k]
                == shr_word(old(self).words(), (shift / 64) as int, (shift % 64) as u64, k),
            forall|i: int| #[trigger] final(self).spec_has(i) == (0 <= i < old(self).words().len()
                * 64 && old(self).spec_has(i + shift)),
    {
        let n = self.data.len();
        let ghost orig = self.words();
        let c = shift / 64;
        let b = (shift % 64) as u64;
        let mut k: usize = 0;
        while k < n
            invariant
                n == self.words().len(),
                n == orig.len(),
                n <= 65536,
                c == shift / 64,
                b == shift % 64,
                k <= n,
                forall|j: int| 0 <= j < k ==> #[trigger] self.words()[j] == shr_word(
                    orig,
                    c as int,
                    b,
                    j,
                ),
                forall|j: int| k <= j < n ==> #[trigger] self.words()[j] == orig[j],
            decreases n - k,
        {
            let hw = if c < n - k {
                self.word(k + c)
            } else {
                0
            };
            let lw = if c < n - k - 1 {
                self.word(k + c + 1)
            } else {
                0
            };
            let v = if b == 0 {
                hw
            } else {
                (hw >> b) | (lw << (64 - b))
            };
            self.data.set(k, v);
            k = k + 1;
        }
        proof {
            lemma_shr_words(orig, self.words(), shift as int);
        }
        self.recompute_range();
    }

    /// Fused `self = (a & b) << shift`.
    pub fn copy_and_shl(&mut self, a: &BitBoardLarge, b: &BitBoardLarge, shift: usize)
        requires
            old(self).inv(),
            a.inv(),
            b.inv(),
            a.words().len() <= old(self).words().len(),
            b.words().len() <= old(self).words().len(),
        ensures
            final(self).inv(),
            final(self).words().len() == old(self).words().len(),
            forall|i: int| #[trigger] final(self).spec_has(i) == (0 <= i < old(self).words().len()
                * 64 && i >= shift && a.spec_has(i - shift) && b.spec_has(i - shift)),
    {
        self.copy_and(a, b);
        self.shl_assign(shift);
    }

    /// Fused `self = (a & b) >> shift`.
    pub fn copy_and_shr(&mut self, a: &BitBoardLarge, b: &BitBoardLarge, shift: usize)
        requires
            old(self).inv(),
            a.inv(),
            b.inv(),
            a.words().len() <= old(self).words().len(),
            b.words().len() <= old(self).words().len(),
        ensures
            final(self).inv(),
            final(self).words().len() == old(self).words().len(),
            forall|i: int| #[trigger] final(self).spec_has(i) == (0 <= i < old(self).words().len()
                * 64 && a.spec_has(i + shift) && b.spec_has(i + shift)),
    {
        self.copy_and(a, b);
        self.shr_assign(shift);
    }

    /// `a & b` as a new board as long as the longer operand.
    pub fn bitand(&self, rhs: &BitBoardLarge) -> (r: BitBoardLarge)
        requires
            self.inv(),
            rhs.inv(),
        ensures
            r.inv(),
            r.words().len() == if self.words().len() >= rhs.words().len() {
                self.words().len()
            } else {
                rhs.words().len()
            },
            forall|k: int| 0 <= k < r.words().len() ==> #[trigger] r.words()[k] == word_or_zero(
                self.words(),
                k,
            ) & word_or_zero(rhs.words(), k),
            forall|i: int| #[trigger] r.spec_has(i) == (self.spec_has(i) && rhs.spec_has(i)),
    {
        let n = if self.data.len() >= rhs.data.len() {
            self.data.len()
        } else {
            rhs.data.len()
        };
        let mut r = BitBoardLarge::new(n);
        r.copy_and(self, rhs);
        r
    }

    /// `a | b` as a new board as long as the longer operand.
    pub fn bitor(&self, rhs: &BitBoardLarge) -> (r: BitBoardLarge)
        requires
            self.inv(),
            rhs.inv(),
        ensures
            r.inv(),
            r.words().len() == if self.words().len() >= rhs.words().len() {
                self.words().len()
            } else {
                rhs.words().len()
            },
            forall|k: int| 0 <= k < r.words().len() ==> #[trigger] r.words()[k] == word_or_zero(
                self.words(),
                k,
            ) | word_or_zero(rhs.words(), k),
            forall|i: int| #[trigger] r.spec_has(i) == (self.spec_has(i) || rhs.spec_has(i)),
    {
        let n = if self.data.len() >= rhs.data.len() {
            self.data.len()
        } else {
            rhs.data.len()
        };
        let mut r = BitBoardLarge::new(n);
        let ghost z = r.words();
        r.or_into_zeroed(self, rhs);
        r
    }

    /// Writes `a | b` word by word into this all-zero board, then recomputes the range.
    fn or_into_zeroed(&mut self, a: &BitBoardLarge, b: &BitBoardLarge)
        requires
            old(self).inv(),
            a.inv(),
            b.inv(),
            a.words().len() <= old(self).words().len(),
            b.words().len() <= old(self).words().len(),
        ensures
            final(self).inv(),
            final(self).words().len() == old(self).words().len(),
            forall|k: int| 0 <= k < old(self).words().len() ==> #[trigger] final(self).words()[k]
                == word_or_zero(a.words(), k) | word_or_zero(b.words(), k),
            forall|i: int| #[trigger] final(self).spec_has(i) == (a.spec_has(i) || b.spec_has(i)),
    {
        let n = self.data.len();
        let alen = a.data.len();
        let blen = b.data.len();
        let mut k: usize = 0;
        while k < n
            invariant
                n == self.words().len(),
                n <= 65536,
                alen == a.words().len(),
                blen == b.words().len(),
                alen <= n,
                blen <= n,
                k <= n,
                forall|j: int| 0 <= j < k ==> #[trigger] self.words()[j] == word_or_zero(
                    a.words(),
                    j,
                ) | word_or_zero(b.words(), j),
            decreases n - k,
        {
            let x = if k < alen {
                a.word(k)
            } else {
                0
            };
            let y = if k < blen {
                b.word(k)
            } else {
                0
            };
            self.data.set(k, x | y);
            k = k + 1;
        }
        self.recompute_range();
        proof {
            lemma_words_combine(a.words(), b.words(), self.words(), 1);
            assert forall|i: int| #[trigger] a.spec_has(i) || b.spec_has(i) implies i < n * 64 by {}
        }
    }

    /// The complement of every word; the range covers all words.
    pub fn not(&self) -> (r: BitBoardLarge)
        requires
            self.inv(),
        ensures
            r.inv(),
            r.words().len() == self.words().len(),
            forall|k: int| 0 <= k < r.words().len() ==> #[trigger] r.words()[k] == !self.words()[k],
            forall|i: int| #[trigger] r.spec_has(i) == (0 <= i < self.words().len() * 64
                && !self.spec_has(i)),
            self.words().len() > 0 ==> r.spec_lo() == 0 && r.spec_hi() == self.words().len() - 1,
    {
        let n = self.data.len();
        let mut r = BitBoardLarge::new(n);
        let mut k: usize = 0;
        while k < n
            invariant
                n == self.words().len(),
                n == r.words().len(),
                n <= 65536,
                k <= n,
                forall|j: int| 0 <= j < k ==> #[trigger] r.words()[j] == !self.words()[j],
            decreases n - k,
        {
            let w = self.word(k);
            r.data.set(k, !w);
            k = k + 1;
        }
        if n > 0 {
            r.lo = 0;
            r.hi = (n - 1) as u16;
        } else {
            r.lo = 1;
            r.hi = 0;
        }
        proof {
            assert forall|i: int| #[trigger] r.spec_has(i) == (0 <= i < n * 64 && !self.spec_has(i))
                by {
                if 0 <= i < n * 64 {
                    lemma_words_has_split(r.words(), i);
                    lemma_words_has_split(self.words(), i);
                    lemma_not_bit(self.words()[i / 64], (i % 64) as u64);
                }
            }
        }
        r
    }

    /// A copy shifted up by `shift`.
    pub fn shl(&self, shift: usize) -> (r: BitBoardLarge)
        requires
            self.inv(),
        ensures
            r.inv(),
            r.words().len() == self.words().len(),
            forall|i: int| #[trigger] r.spec_has(i) == (0 <= i < self.words().len() * 64 && i
                >= shift && self.spec_has(i - shift)),
    {
        let mut r = self.duplicate();
        r.shl_assign(shift);
        r
    }

    /// A copy shifted down by `shift`.
    pub fn shr(&self, shift: usize) -> (r: BitBoardLarge)
        requires
            self.inv(),
        ensures
            r.inv(),
            r.words().len() == self.words().len(),
            forall|i: int| #[trigger] r.spec_has(i) == (0 <= i < self.words().len() * 64
                && self.spec_has(i + shift)),
    {
        let mut r = self.duplicate();
        r.shr_assign(shift);
        r
    }

    /// Word-wise equality (the tracked ranges are not compared).
    pub fn equals(&self, other: &BitBoardLarge) -> (r: bool)
        ensures
            r == (self.words() == other.words()),
    {
        let n = self.data.len();
        if n != other.data.len() {
            return false;
        }
        let mut k: usize = 0;
        while k < n
            invariant
                n == self.words().len(),
                n == other.words().len(),
                k <= n,
                forall|j: int| 0 <= j < k ==> #[trigger] self.words()[j] == other.words()[j],
            decreases n - k,
        {
            if self.word(k) != other.word(k) {
                return false;
            }
            k = k + 1;
        }
        assert(self.words() =~= other.words());
        true
    }
}

impl BoardRepresentation for BitBoardLarge {
    open spec fn wf(&self) -> bool {
        self.inv()
    }

    open spec fn cells(&self) -> nat {
        (self.words().len() * 64) as nat
    }

    open spec fn has(&self, i: int) -> bool {
        self.spec_has(i)
    }

    open spec fn supports(dim: nat, side: nat) -> bool {
        cell_count(side, dim) <= 64 * 65536
    }

    fn new_empty(dimension: usize, side: usize) -> (r: Self) {
        BitBoardLarge::new_empty(dimension, side)
    }

    fn set_bit(&mut self, index: usize) {
        BitBoardLarge::set_bit(self, index)
    }

    fn clear_bit(&mut self, index: usize) {
        BitBoardLarge::clear_bit(self, index)
    }

    fn get_bit(&self, index: usize) -> (r: bool) {
        BitBoardLarge::get_bit(self, index)
    }

    fn indices(&self) -> (r: Vec<usize>) {
        let r = self.iter_indices();
        proof {
            assert forall|j: int| 0 <= j < r.len() implies #[trigger] r[j] < self.cells() by {
                assert(self.spec_has(r[j] as int));
            }
        }
        r
    }

    fn copy_from(&mut self, other: &Self) {
        BitBoardLarge::copy_from(self, other)
    }

    fn zero_like(&self) -> (r: Self) {
        BitBoardLarge::zero_like(self)
    }

    fn ensure_capacity_and_clear(&mut self, template: &Self) {
        BitBoardLarge::ensure_capacity_and_clear(self, template)
    }
}

} // verus!
