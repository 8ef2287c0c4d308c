//! Construction heuristics, lower bounds and the exact search.

pub mod admissible;
pub mod bnb;
pub mod bounds;
pub mod heuristics;
pub mod metrics;
pub mod moves;
pub mod neighborhood;
pub mod schedule;
pub mod sorting;
pub mod vns;
