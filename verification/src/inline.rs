//! Small inline vectors (backed by `smallvec::SmallVec`) used for board words,
//! coordinates, precomputed target lists and move lists.
use vstd::prelude::*;
use smallvec::SmallVec;
use crate::models::Move;

verus! {

// ─── Words of a bitboard ─────────────────────────────────────────────

/// The 64-bit words of a large bitboard, held inline for small boards.
#[verifier::external_body]
pub struct Words {
    inner: SmallVec<[u64; 8]>,
}

/// The words held by a `Words` value.
pub uninterp spec fn words_of(v: Words) -> Seq<u64>;

impl View for Words {
    type V = Seq<u64>;

    open spec fn view(&self) -> Seq<u64> {
        words_of(*self)
    }
}

impl Words {
    /// `SmallVec::from_elem(0, n)`: `n` zero words.
    #[verifier::external_body]
    pub(crate) fn zeroed(n: usize) -> (r: Words)
        ensures
            words_of(r) == Seq::new(n as nat, |i: int| 0u64),
    {
        Words { inner: SmallVec::from_elem(0u64, n) }
    }

    /// `SmallVec::as_slice`: the words in order.
    #[verifier::external_body]
    pub(crate) fn as_slice(&self) -> (r: &[u64])
        ensures
            r@ == words_of(*self),
    {
        self.inner.as_slice()
    }

    /// `SmallVec::len`.
    #[verifier::external_body]
    pub(crate) fn len(&self) -> (r: usize)
        ensures
            r == words_of(*self).len(),
    {
        self.inner.len()
    }

    /// `IndexMut` of `SmallVec`: overwrite one word.
    #[verifier::external_body]
    pub(crate) fn set(&mut self, i: usize, x: u64)
        requires
            i < words_of(*old(self)).len(),
        ensures
            words_of(*final(self)) == words_of(*old(self)).update(i as int, x),
    {
        self.inner[i] = x;
    }

    /// `SmallVec::push`.
    #[verifier::external_body]
    pub(crate) fn push(&mut self, x: u64)
        ensures
            words_of(*final(self)) == words_of(*old(self)).push(x),
    {
        self.inner.push(x);
    }

    /// `SmallVec::resize`: truncate, or extend with `x`.
    #[verifier::external_body]
    pub(crate) fn resize(&mut self, n: usize, x: u64)
        ensures
            words_of(*final(self)).len() == n,
            forall|i: int| 0 <= i < n ==> #[trigger] words_of(*final(self))[i] == if i < words_of(*old(self)).len() {
                words_of(*old(self))[i]
            } else {
                x
            },
    {
        self.inner.resize(n, x);
    }

    /// `SmallVec::clone`.
    #[verifier::external_body]
    pub(crate) fn duplicate(&self) -> (r: Words)
        ensures
            r@ == words_of(*self),
    {
        Words { inner: self.inner.clone() }
    }
}

// ─── Coordinate values ───────────────────────────────────────────────

/// The per-axis values of a coordinate, held inline.
#[verifier::external_body]
pub struct CoordVals {
    inner: SmallVec<[u8; 8]>,
}

/// The axis values held by a `CoordVals` value.
pub uninterp spec fn coord_vals_of(v: CoordVals) -> Seq<u8>;

impl View for CoordVals {
    type V = Seq<u8>;

    open spec fn view(&self) -> Seq<u8> {
        coord_vals_of(*self)
    }
}

impl CoordVals {
    /// `SmallVec::from_vec`.
    #[verifier::external_body]
    pub(crate) fn from_vec(v: Vec<u8>) -> (r: CoordVals)
        ensures
            coord_vals_of(r) == v@,
    {
        CoordVals { inner: SmallVec::from_vec(v) }
    }

    /// `SmallVec::from_elem`: `n` copies of `x`.
    #[verifier::external_body]
    pub(crate) fn filled(x: u8, n: usize) -> (r: CoordVals)
        ensures
            coord_vals_of(r) == Seq::new(n as nat, |i: int| x),
    {
        CoordVals { inner: SmallVec::from_elem(x, n) }
    }

    /// `SmallVec::new`.
    #[verifier::external_body]
    pub(crate) fn empty() -> (r: CoordVals)
        ensures
            coord_vals_of(r) == Seq::<u8>::empty(),
    {
        CoordVals { inner: SmallVec::new() }
    }

    /// `SmallVec::as_slice`.
    #[verifier::external_body]
    pub(crate) fn as_slice(&self) -> (r: &[u8])
        ensures
            r@ == coord_vals_of(*self),
    {
        self.inner.as_slice()
    }

    /// `SmallVec::len`.
    #[verifier::external_body]
    pub(crate) fn len(&self) -> (r: usize)
        ensures
            r == coord_vals_of(*self).len(),
    {
        self.inner.len()
    }

    /// `IndexMut` of `SmallVec`: overwrite one axis value.
    #[verifier::external_body]
    pub(crate) fn set(&mut self, i: usize, x: u8)
        requires
            i < coord_vals_of(*old(self)).len(),
        ensures
            coord_vals_of(*final(self)) == coord_vals_of(*old(self)).update(i as int, x),
    {
        self.inner[i] = x;
    }

    /// `SmallVec::push`.
    #[verifier::external_body]
    pub(crate) fn push(&mut self, x: u8)
        ensures
            coord_vals_of(*final(self)) == coord_vals_of(*old(self)).push(x),
    {
        self.inner.push(x);
    }

    /// The value on axis `i`.
    pub fn get(&self, i: usize) -> (r: u8)
        requires
            i < self@.len(),
        ensures
            r == self@[i as int],
    {
        self.as_slice()[i]
    }

    /// Number of axes.
    pub fn dim(&self) -> (r: usize)
        ensures
            r == self@.len(),
    {
        self.len()
    }

    /// `SmallVec::clone`.
    #[verifier::external_body]
    pub(crate) fn duplicate(&self) -> (r: CoordVals)
        ensures
            r@ == coord_vals_of(*self),
    {
        CoordVals { inner: self.inner.clone() }
    }
}

// ─── Precomputed target lists ────────────────────────────────────────

/// Cell indices reachable from one cell by a fixed set of offsets.
#[verifier::external_body]
pub struct Targets {
    inner: SmallVec<[usize; 16]>,
}

/// The cell indices held by a `Targets` value.
pub uninterp spec fn targets_of(v: Targets) -> Seq<usize>;

impl View for Targets {
    type V = Seq<usize>;

    open spec fn view(&self) -> Seq<usize> {
        targets_of(*self)
    }
}

impl Targets {
    /// `SmallVec::new`.
    #[verifier::external_body]
    pub(crate) fn empty() -> (r: Targets)
        ensures
            targets_of(r) == Seq::<usize>::empty(),
    {
        Targets { inner: SmallVec::new() }
    }

    /// `SmallVec::push`.
    #[verifier::external_body]
    pub(crate) fn push(&mut self, x: usize)
        ensures
            targets_of(*final(self)) == targets_of(*old(self)).push(x),
    {
        self.inner.push(x);
    }

    /// `SmallVec::as_slice`.
    #[verifier::external_body]
    pub(crate) fn as_slice(&self) -> (r: &[usize])
        ensures
            r@ == targets_of(*self),
    {
        self.inner.as_slice()
    }
}

// ─── Move lists ──────────────────────────────────────────────────────

/// A list of moves, held inline up to 64 entries.
#[verifier::external_body]
pub struct MoveList {
    inner: SmallVec<[Move; 64]>,
}

/// The moves held by a `MoveList`.
pub uninterp spec fn moves_of(v: MoveList) -> Seq<Move>;

impl View for MoveList {
    type V = Seq<Move>;

    open spec fn view(&self) -> Seq<Move> {
        moves_of(*self)
    }
}

impl MoveList {
    /// `SmallVec::new`.
    #[verifier::external_body]
    pub(crate) fn empty() -> (r: MoveList)
        ensures
            moves_of(r) == Seq::<Move>::empty(),
    {
        MoveList { inner: SmallVec::new() }
    }

    /// `SmallVec::push`.
    #[verifier::external_body]
    pub(crate) fn push_move(&mut self, mv: Move)
        ensures
            moves_of(*final(self)) == moves_of(*old(self)).push(mv),
    {
        self.inner.push(mv);
    }

    /// `SmallVec::as_slice`.
    #[verifier::external_body]
    pub(crate) fn moves(&self) -> (r: &[Move])
        ensures
            r@ == moves_of(*self),
    {
        self.inner.as_slice()
    }

    /// `SmallVec::into_vec`.
    #[verifier::external_body]
    pub(crate) fn into_moves(self) -> (r: Vec<Move>)
        ensures
            r@ == moves_of(self),
    {
        self.inner.into_vec()
    }

    /// Number of moves in the list.
    pub fn len(&self) -> (r: usize)
        ensures
            r == self@.len(),
    {
        self.moves().len()
    }

    /// Whether the list holds no move.
    pub fn is_empty(&self) -> (r: bool)
        ensures
            r == (self@.len() == 0),
    {
        self.moves().len() == 0
    }

    /// The moves of the list, in order, as a vector.
    pub fn into_vec(self) -> (r: Vec<Move>)
        ensures
            r@ == self@,
    {
        self.into_moves()
    }
}

} // verus!
