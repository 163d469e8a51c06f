//! The rules' entry points: piece directions and offsets.
use vstd::prelude::*;
use crate::calculators::{
    view_dirs, rook_dirs, all_steps, is_bishop_dir, is_king_step, knight_offsets,
    pawn_capture_offsets, pow3,
};
use crate::models::Player;

verus! {

/// The rules of N-dimensional chess, as associated functions.
pub struct Rules;

impl Rules {
    /// The rook directions: `+1` then `-1` along each axis in turn.
    pub fn get_rook_directions_calc(dimension: usize) -> (r: Vec<Vec<isize>>)
        requires
            2 * dimension <= usize::MAX,
        ensures
            view_dirs(r@) == rook_dirs(dimension as nat),
    {
        crate::calculators::get_rook_directions_calc(dimension)
    }

    /// The bishop directions: the steps in {-1, 0, 1} per axis with a non-zero, even number
    /// of moving axes, in base-3 order.
    pub fn get_bishop_directions_calc(dimension: usize) -> (r: Vec<Vec<isize>>)
        requires
            pow3(dimension as nat) <= usize::MAX,
        ensures
            view_dirs(r@) == all_steps(dimension as nat).filter(|v: Seq<isize>| is_bishop_dir(v)),
    {
        crate::calculators::get_bishop_directions_calc(dimension)
    }

    /// The knight offsets: two along one axis and one along another.
    pub fn get_knight_offsets_calc(dimension: usize) -> (r: Vec<Vec<isize>>)
        ensures
            view_dirs(r@) == knight_offsets(dimension as nat, dimension as nat),
    {
        crate::calculators::get_knight_offsets_calc(dimension)
    }

    /// The king steps: every non-zero step in {-1, 0, 1} per axis, in base-3 order.
    pub fn get_king_offsets_calc(dimension: usize) -> (r: Vec<Vec<isize>>)
        requires
            pow3(dimension as nat) <= usize::MAX,
        ensures
            view_dirs(r@) == all_steps(dimension as nat).filter(|v: Seq<isize>| is_king_step(v)),
    {
        crate::calculators::get_king_offsets_calc(dimension)
    }

    /// The offsets from a target to the squares from which `attacker`'s pawns capture it.
    pub fn get_pawn_capture_offsets_calc(dimension: usize, attacker: Player) -> (r: Vec<Vec<isize>>)
        requires
            2 * dimension <= usize::MAX,
        ensures
            view_dirs(r@) == pawn_capture_offsets(dimension as nat, attacker),
    {
        crate::calculators::get_pawn_capture_offsets_calc(dimension, attacker)
    }

    /// The rook directions (same as `get_rook_directions_calc`).
    pub fn get_rook_directions(dimension: usize) -> (r: Vec<Vec<isize>>)
        requires
            2 * dimension <= usize::MAX,
        ensures
            view_dirs(r@) == rook_dirs(dimension as nat),
    {
        crate::calculators::get_rook_directions_calc(dimension)
    }

    /// The bishop directions (same as `get_bishop_directions_calc`).
    pub fn get_bishop_directions(dimension: usize) -> (r: Vec<Vec<isize>>)
        requires
            pow3(dimension as nat) <= usize::MAX,
        ensures
            view_dirs(r@) == all_steps(dimension as nat).filter(|v: Seq<isize>| is_bishop_dir(v)),
    {
        crate::calculators::get_bishop_directions_calc(dimension)
    }

    /// The knight offsets (same as `get_knight_offsets_calc`).
    pub fn get_knight_offsets(dimension: usize) -> (r: Vec<Vec<isize>>)
        ensures
            view_dirs(r@) == knight_offsets(dimension as nat, dimension as nat),
    {
        crate::calculators::get_knight_offsets_calc(dimension)
    }

    /// The king steps (same as `get_king_offsets_calc`).
    pub fn get_king_offsets(dimension: usize) -> (r: Vec<Vec<isize>>)
        requires
            pow3(dimension as nat) <= usize::MAX,
        ensures
            view_dirs(r@) == all_steps(dimension as nat).filter(|v: Seq<isize>| is_king_step(v)),
    {
        crate::calculators::get_king_offsets_calc(dimension)
    }

    /// The pawn capture offsets seen from the target (same as
    /// `get_pawn_capture_offsets_calc`).
    pub fn get_pawn_capture_offsets_for_target(dimension: usize, attacker: Player) -> (r: Vec<
        Vec<isize>,
    >)
        requires
            2 * dimension <= usize::MAX,
        ensures
            view_dirs(r@) == pawn_capture_offsets(dimension as nat, attacker),
    {
        crate::calculators::get_pawn_capture_offsets_calc(dimension, attacker)
    }
}

} // verus!
