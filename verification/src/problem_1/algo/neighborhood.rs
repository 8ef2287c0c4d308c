//! Neighbourhood operators that take the first improving move they find.

use crate::problem_1::algo::moves::{
    improve, move_made, shake_with, shaken, shaken_by, Kind,
};
use crate::problem_1::algo::schedule::Schedule;
use vstd::prelude::*;

verus! {

/// A neighbourhood of an order: a set of moves that can be searched for an
/// improvement and drawn from at random.
pub trait Neighborhood {
    /// The moves of the neighbourhood.
    spec fn kind(&self) -> Kind;

    /// Whether the search stops at the first improving move.
    spec fn first_only(&self) -> bool;

    /// Carries out the improving move that a search of the neighbourhood
    /// reports. Returns true if one was found and carried out.
    fn find_best_move(&self, schedule: &mut Schedule) -> (improved: bool)
        requires
            old(schedule).consistent(),
        ensures
            move_made(*old(schedule), self.kind(), self.first_only(), *final(schedule), improved),
    ;

    /// Carries out `k` random moves of the neighbourhood; score and caches
    /// are left stale.
    fn shake(&self, schedule: &mut Schedule, k: usize)
        requires
            old(schedule).wf(),
        ensures
            shaken(*old(schedule), *final(schedule)),
            shaken_by(old(schedule).task_ids@, final(schedule).task_ids@, self.kind(), k as nat),
    ;
}

/// A neighbourhood chosen at run time.
#[derive(Debug, Clone, Copy, PartialEq, Eq, Structural)]
pub struct Operator {
    pub kind: Kind,
    pub first_only: bool,
}

impl Neighborhood for Operator {
    open spec fn kind(&self) -> Kind {
        self.kind
    }

    open spec fn first_only(&self) -> bool {
        self.first_only
    }

    fn find_best_move(&self, schedule: &mut Schedule) -> (improved: bool) {
        improve(schedule, self.kind, self.first_only)
    }

    fn shake(&self, schedule: &mut Schedule, k: usize) {
        shake_with(schedule, self.kind, k)
    }
}

/// Exchanges of two jobs; the first improving one is taken.
pub struct Swap;

impl Neighborhood for Swap {
    open spec fn kind(&self) -> Kind {
        Kind::Swap
    }

    open spec fn first_only(&self) -> bool {
        true
    }

    fn find_best_move(&self, schedule: &mut Schedule) -> (improved: bool) {
        improve(schedule, Kind::Swap, true)
    }

    fn shake(&self, schedule: &mut Schedule, k: usize) {
        shake_with(schedule, Kind::Swap, k)
    }
}

/// Moves of one job to another position; the first improving one is taken.
pub struct Relocate;

impl Neighborhood for Relocate {
    open spec fn kind(&self) -> Kind {
        Kind::Relocate
    }

    open spec fn first_only(&self) -> bool {
        true
    }

    fn find_best_move(&self, schedule: &mut Schedule) -> (improved: bool) {
        improve(schedule, Kind::Relocate, true)
    }

    fn shake(&self, schedule: &mut Schedule, k: usize) {
        shake_with(schedule, Kind::Relocate, k)
    }
}

} // verus!
