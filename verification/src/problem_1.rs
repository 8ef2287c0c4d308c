//! The single-machine problem: jobs with ready times and setups that depend on
//! the predecessor.

use crate::problem_1::algo::bnb::solve;
use crate::problem_1::algo::bounds::{pick_strategy, setups_are_light};
use crate::problem_1::algo::heuristics::{
    find_initial_solution, follows_rule, insertion_order, NoJobs,
};
use crate::problem_1::algo::metrics::metrics_of;
use crate::problem_1::clock::{now, seconds};
use crate::problem_1::generate::{generate_instance, generated};
use crate::problem_1::models::{
    makespan, total_cost, GlobalBest, Instance, Solution, Task, MAX_JOBS,
};
use crate::problem_1::verify::verify_order;
use vstd::prelude::*;

pub mod algo;
pub mod clock;
pub mod codec;
pub mod generate;
pub mod grasp;
pub mod meta_algo;
pub mod models;
pub mod rng;
pub mod round_trip;
pub mod text;
pub mod verify;

verus! {

/// `order` is a first solution of `tasks`: the order that best insertion
/// builds where setups are light, an order that the priority rule builds
/// from answers of `pick` where they weigh heavily.
pub open spec fn is_first_solution<F: Fn(&Vec<(u32, u32)>) -> usize>(
    pick: F,
    tasks: Seq<Task>,
    order: Seq<usize>,
) -> bool {
    if setups_are_light(metrics_of(tasks)) {
        order == insertion_order(tasks)
    } else {
        exists|answers: Seq<usize>| #[trigger] follows_rule(pick, tasks, answers, order)
    }
}

/// The exact solver: measures the instance, builds a first solution and
/// improves on it by branch and bound for a tenth of a second per job.
pub struct Problem1Solver;

impl Problem1Solver {
    /// Solves `problem`. The solution returned names every job once and has
    /// its true cost as score; it costs no more than the first solution, and
    /// its duration is the makespan of the first solution. An instance
    /// without jobs has none. `pick` is asked by the priority rule, which
    /// builds the first solution where setups weigh heavily, to choose among
    /// the jobs that are ready.
    pub fn solve<F: Fn(&Vec<(u32, u32)>) -> usize>(&self, problem: &mut Instance, pick: F) -> (r:
        Result<Solution, NoJobs>)
        requires
            old(problem).wf(),
            forall|candidates: &Vec<(u32, u32)>| pick.requires((candidates,)),
        ensures
            final(problem).tasks == old(problem).tasks,
            final(problem).n == old(problem).n,
            final(problem).metrics == metrics_of(old(problem).tasks@),
            r is Ok <==> old(problem).n > 0,
            r matches Ok(solution) ==> solution.solves(old(problem).tasks@),
            r matches Ok(solution) ==> exists|first: Seq<usize>| #[trigger]
                is_first_solution(pick, old(problem).tasks@, first) && solution.score
                    <= total_cost(old(problem).tasks@, first) && solution.duration == makespan(
                    old(problem).tasks@,
                    first,
                ),
    {
        let mut solution: Solution = Solution::new(Vec::with_capacity(problem.n));
        let time_limit = seconds((problem.n / 10) as u64);
        problem.analyze();
        let start_time = now();
        let strategy = pick_strategy(&problem.metrics);
        match find_initial_solution(problem, &mut solution, &strategy, pick) {
            Ok(()) => {},
            Err(e) => {
                return Err(e);
            },
        }
        let ghost first = solution.tasks@;
        let mut global_best: GlobalBest = GlobalBest::new(solution);
        let _exhausted: bool = solve(problem, strategy, &mut global_best, start_time, time_limit);
        proof {
            assert(is_first_solution(pick, old(problem).tasks@, first));
        }
        Ok(global_best.into_inner())
    }
}

/// The check of a solution against its instance.
pub struct Problem1Verifier;

impl Problem1Verifier {
    /// Whether `solution` names every job of `problem` once and has the
    /// cost of its order as score.
    pub fn verify(&self, problem: &Instance, solution: &Solution) -> (valid: bool)
        requires
            problem.wf(),
        ensures
            valid == solution.solves(problem.tasks@),
    {
        verify_order(problem, solution.score, &solution.tasks).is_ok()
    }
}

/// The source of random instances.
pub struct Problem1Generator;

impl Problem1Generator {
    /// A random instance of `size` jobs.
    pub fn generate(&self, size: usize) -> (instance: Instance)
        requires
            size <= MAX_JOBS,
        ensures
            instance.n == size,
            instance.wf(),
            generated(instance.tasks@),
            size > 0 ==> instance.valid(),
    {
        generate_instance(size)
    }
}

} // verus!
