//! Single-machine scheduling with ready times and sequence-dependent setups,
//! minimising the sum of completion times.
//!
//! The crate holds the cost model, construction heuristics, lower bounds, an
//! exact branch-and-bound search and a variable-neighbourhood refiner. Every
//! function carries a contract that Verus proves.

pub mod file_handler;
pub mod problem_1;
