//! Mutable game-rule state that changes with each move.
use vstd::prelude::*;

verus! {

/// Hash, history of earlier hashes, en-passant target, castling rights and move clocks.
pub struct PositionState {
    pub hash: u64,
    pub history: Vec<u64>,
    /// `(target cell, cell of the pawn that can be taken)`.
    pub en_passant_target: Option<(usize, usize)>,
    /// Bit 0: white kingside, 1: white queenside, 2: black kingside, 3: black queenside.
    pub castling_rights: u8,
    pub halfmove_clock: u16,
    pub fullmove_number: u16,
    /// Phase weight of the pieces at the start of the game.
    pub start_phase: i32,
}

impl PositionState {
    /// The state before any move: zero hash, empty history, no rights.
    pub fn new() -> (r: PositionState)
        ensures
            r.hash == 0,
            r.history@ == Seq::<u64>::empty(),
            r.en_passant_target is None,
            r.castling_rights == 0,
            r.halfmove_clock == 0,
            r.fullmove_number == 0,
            r.start_phase == 0,
    {
        PositionState {
            hash: 0,
            history: Vec::new(),
            en_passant_target: None,
            castling_rights: 0,
            halfmove_clock: 0,
            fullmove_number: 0,
            start_phase: 0,
        }
    }

    /// Same as `new`.
    pub fn default() -> (r: PositionState)
        ensures
            r.hash == 0,
            r.history@ == Seq::<u64>::empty(),
            r.en_passant_target is None,
            r.castling_rights == 0,
            r.halfmove_clock == 0,
            r.fullmove_number == 0,
            r.start_phase == 0,
    {
        PositionState::new()
    }

    /// Whether the current hash occurred earlier in the history.
    pub fn is_repetition(&self) -> (r: bool)
        ensures
            r == self.history@.contains(self.hash),
    {
        let n = self.history.len();
        let mut i: usize = 0;
        while i < n
            invariant
                n == self.history.len(),
                i <= n,
                forall|j: int| 0 <= j < i ==> self.history@[j] != self.hash,
            decreases n - i,
        {
            if self.history[i] == self.hash {
                proof {
                    assert(self.history@[i as int] == self.hash);
                }
                return true;
            }
            i = i + 1;
        }
        false
    }

    /// A copy of this state.
    pub fn duplicate(&self) -> (r: PositionState)
        ensures
            r.hash == self.hash,
            r.history@ == self.history@,
            r.en_passant_target == self.en_passant_target,
            r.castling_rights == self.castling_rights,
            r.halfmove_clock == self.halfmove_clock,
            r.fullmove_number == self.fullmove_number,
            r.start_phase == self.start_phase,
    {
        PositionState {
            hash: self.hash,
            history: self.history.clone(),
            en_passant_target: self.en_passant_target,
            castling_rights: self.castling_rights,
            halfmove_clock: self.halfmove_clock,
            fullmove_number: self.fullmove_number,
            start_phase: self.start_phase,
        }
    }
}

} // verus!
