//! The refiner: a randomised greedy start, improved by variable
//! neighbourhood search.

use crate::problem_1::algo::schedule::Schedule;
use crate::problem_1::algo::vns::VnsSolver;
use crate::problem_1::grasp::{built_by, generate_initial_input, picks_allowed};
use crate::problem_1::models::{total_cost, Instance, Solution};
use std::time::{Duration, Instant};
use vstd::prelude::*;

pub mod neighborhood;

verus! {

/// Builds an order for `instance` by randomised greedy insertion and
/// refines it with all four neighbourhoods until `time_limit` has passed
/// since `run_time`. The solution names every job once, has its true cost
/// as score and costs no more than the order built at the start.
pub fn refine(instance: &Instance, run_time: Instant, time_limit: Duration) -> (solution: Solution)
    requires
        instance.wf(),
    ensures
        solution.solves(instance.tasks@),
        solution.duration == 0,
        exists|picks: Seq<int>|
            picks.len() == instance.tasks@.len() && #[trigger] picks_allowed(
                instance.tasks@,
                picks,
                instance.tasks@.len(),
            ) && solution.score <= total_cost(
                instance.tasks@,
                built_by(instance.tasks@, picks, instance.tasks@.len()).0,
            ),
{
    let initial: Schedule = generate_initial_input(&instance.tasks);
    let solver: VnsSolver = VnsSolver::new(&instance.tasks, time_limit);
    solver.solve(initial.task_ids, run_time)
}

} // verus!
