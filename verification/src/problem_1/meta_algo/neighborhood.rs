//! Neighbourhood operators that look for the best move: exchanges, moves of
//! one job and reversals take the cheapest improving move there is, block
//! moves the first.

use crate::problem_1::algo::moves::{improve, shake_with, Kind};
pub use crate::problem_1::algo::neighborhood::Neighborhood;
use crate::problem_1::algo::schedule::Schedule;
use vstd::prelude::*;

verus! {

/// Exchanges of two jobs; the best one is taken.
pub struct Swap;

impl Neighborhood for Swap {
    open spec fn kind(&self) -> Kind {
        Kind::Swap
    }

    open spec fn first_only(&self) -> bool {
        false
    }

    fn find_best_move(&self, schedule: &mut Schedule) -> (improved: bool) {
        improve(schedule, Kind::Swap, false)
    }

    fn shake(&self, schedule: &mut Schedule, k: usize) {
        shake_with(schedule, Kind::Swap, k)
    }
}

/// Moves of one job to another position; the best one is taken.
pub struct Relocate;

impl Neighborhood for Relocate {
    open spec fn kind(&self) -> Kind {
        Kind::Relocate
    }

    open spec fn first_only(&self) -> bool {
        false
    }

    fn find_best_move(&self, schedule: &mut Schedule) -> (improved: bool) {
        improve(schedule, Kind::Relocate, false)
    }

    fn shake(&self, schedule: &mut Schedule, k: usize) {
        shake_with(schedule, Kind::Relocate, k)
    }
}

/// Reversals of a stretch of the order; the best one is taken.
pub struct TwoOpt;

impl Neighborhood for TwoOpt {
    open spec fn kind(&self) -> Kind {
        Kind::TwoOpt
    }

    open spec fn first_only(&self) -> bool {
        false
    }

    fn find_best_move(&self, schedule: &mut Schedule) -> (improved: bool) {
        improve(schedule, Kind::TwoOpt, false)
    }

    fn shake(&self, schedule: &mut Schedule, k: usize) {
        shake_with(schedule, Kind::TwoOpt, k)
    }
}

/// Moves of a block of two or three jobs; the first improving one is taken.
pub struct BlockMove;

impl Neighborhood for BlockMove {
    open spec fn kind(&self) -> Kind {
        Kind::BlockMove
    }

    open spec fn first_only(&self) -> bool {
        true
    }

    fn find_best_move(&self, schedule: &mut Schedule) -> (improved: bool) {
        improve(schedule, Kind::BlockMove, true)
    }

    fn shake(&self, schedule: &mut Schedule, k: usize) {
        shake_with(schedule, Kind::BlockMove, k)
    }
}

} // verus!
