//! Core value types of the game: players, pieces, coordinates and moves.
use vstd::prelude::*;
use crate::inline::CoordVals;

verus! {

/// One of the two sides.
#[derive(Clone, Copy, Debug, PartialEq, Eq, Hash, Structural)]
pub enum Player {
    White,
    Black,
}

impl Player {
    /// The other side.
    pub open spec fn spec_opponent(self) -> Player {
        match self {
            Player::White => Player::Black,
            Player::Black => Player::White,
        }
    }

    /// The side that moves after this one.
    pub fn opponent(&self) -> (r: Player)
        ensures
            r == self.spec_opponent(),
            r != *self,
    {
        match self {
            Player::White => Player::Black,
            Player::Black => Player::White,
        }
    }
}

/// Taking the opponent twice gives back the same side.
pub proof fn lemma_opponent_involution(p: Player)
    ensures
        p.spec_opponent().spec_opponent() == p,
        p.spec_opponent() != p,
{
}

/// The kinds of pieces.
#[derive(Clone, Copy, Debug, PartialEq, Eq, Hash, Structural)]
pub enum PieceType {
    Pawn,
    Rook,
    Knight,
    Bishop,
    Queen,
    King,
}

/// A piece: its kind and its owner.
#[derive(Clone, Copy, Debug, PartialEq, Eq, Hash, Structural)]
pub struct Piece {
    pub piece_type: PieceType,
    pub owner: Player,
}

/// A square of the N-dimensional board, one value per axis.

pub struct Coordinate {
    pub values: CoordVals,
}

impl View for Coordinate {
    type V = Seq<u8>;

    open spec fn view(&self) -> Seq<u8> {
        self.values@
    }
}

impl Coordinate {
    /// A coordinate with the given per-axis values.
    pub fn new(values: Vec<u8>) -> (r: Coordinate)
        ensures
            r@ == values@,
    {
        Coordinate { values: CoordVals::from_vec(values) }
    }

    /// A coordinate holding the given inline values.
    pub fn from_vals(values: CoordVals) -> (r: Coordinate)
        ensures
            r@ == values@,
    {
        Coordinate { values }
    }

    /// Number of axes.
    pub fn dim(&self) -> (r: usize)
        ensures
            r == self@.len(),
    {
        self.values.dim()
    }

    /// A copy of this coordinate.
    pub fn duplicate(&self) -> (r: Coordinate)
        ensures
            r@ == self@,
    {
        Coordinate { values: self.values.duplicate() }
    }
}

/// A move from one square to another, with an optional promotion.

pub struct Move {
    pub from: Coordinate,
    pub to: Coordinate,
    pub promotion: Option<PieceType>,
}

impl Move {
    /// A copy of this move.
    pub fn duplicate(&self) -> (r: Move)
        ensures
            r.from@ == self.from@,
            r.to@ == self.to@,
            r.promotion == self.promotion,
    {
        Move { from: self.from.duplicate(), to: self.to.duplicate(), promotion: self.promotion }
    }
}

/// The state of a game.
#[derive(Clone, Copy, Debug, PartialEq, Eq, Structural)]
pub enum GameResult {
    Checkmate(Player),
    Stalemate,
    Draw,
    InProgress,
}

} // verus!
