//! Lower bounds on what a partial sequence will cost once completed.

use crate::problem_1::algo::bnb::Node;
use crate::problem_1::algo::sorting::{lemma_stable_sort, sort_by_key, stable_sort};
use crate::problem_1::models::{
    complete_at, lemma_cost_bounds, lemma_estimates_fit, lemma_within_limits, setup, table_wf,
    Instance, InstanceMetrics, Task, COST_LIMIT, MAX_JOBS, STEP, TIME_LIMIT,
};
use vstd::prelude::*;

verus! {

/// How the cost of the jobs still to place is estimated from below.
#[derive(Debug, Clone, Copy, PartialEq, Eq, Structural)]
pub enum BoundingStrategy {
    /// Ignore setups: shortest job first, honouring ready times.
    ATCS,
    /// Charge every job its cheapest possible setup.
    INSERT,
    /// The larger of the two.
    HYBRID,
}

/// The setup-severity ratio, average setup over average processing time, is
/// below one half. With `n` jobs the averages are `total_setup / (n (n - 1))`
/// and `total_processing / n`.
pub open spec fn setups_are_light(metrics: InstanceMetrics) -> bool {
    2 * metrics.total_setup < (metrics.n - 1) * metrics.total_processing
}

/// The setup-blind bound where setups are light, the setup-aware one
/// otherwise.
pub fn pick_strategy(metrics: &InstanceMetrics) -> (strategy: BoundingStrategy)
    ensures
        strategy == if setups_are_light(*metrics) {
            BoundingStrategy::ATCS
        } else {
            BoundingStrategy::INSERT
        },
{
    if metrics.n == 0 {
        assert((metrics.n - 1) * metrics.total_processing <= 0) by (nonlinear_arith)
            requires
                metrics.n == 0,
                metrics.total_processing >= 0,
        ;
        return BoundingStrategy::INSERT;
    }
    assert(0 <= (metrics.n - 1) * metrics.total_processing <= 0xFFFF_FFFF_FFFF_FFFF
        * 0xFFFF_FFFF_FFFF_FFFF) by (nonlinear_arith)
        requires
            0 <= metrics.n - 1 <= 0xFFFF_FFFF_FFFF_FFFF,
            0 <= metrics.total_processing <= 0xFFFF_FFFF_FFFF_FFFF,
    ;
    let lhs: u128 = 2 * (metrics.total_setup as u128);
    let rhs: u128 = ((metrics.n - 1) as u128) * (metrics.total_processing as u128);
    if lhs < rhs {
        BoundingStrategy::ATCS
    } else {
        BoundingStrategy::INSERT
    }
}

/// The jobs of `rest`, each keyed by its processing time.
pub open spec fn by_processing(tasks: Seq<Task>, rest: Seq<usize>) -> Seq<(u64, usize)> {
    Seq::new(rest.len(), |i: int| (tasks[rest[i] as int].processing_time as u64, rest[i]))
}

/// Clock after the first `len` of `jobs` ran in turn from `now`, each waiting
/// for its ready time but for no setup.
pub open spec fn release_finish(
    tasks: Seq<Task>,
    jobs: Seq<(u64, usize)>,
    now: int,
    len: nat,
) -> int
    decreases len,
{
    if len == 0 {
        now
    } else {
        complete_at(
            tasks,
            release_finish(tasks, jobs, now, (len - 1) as nat),
            jobs[len - 1].1 as int,
        )
    }
}

/// Sum of the completion times of that run.
pub open spec fn release_cost(tasks: Seq<Task>, jobs: Seq<(u64, usize)>, now: int, len: nat) -> int
    decreases len,
{
    if len == 0 {
        0
    } else {
        release_cost(tasks, jobs, now, (len - 1) as nat) + release_finish(tasks, jobs, now, len)
    }
}

/// The setup-blind estimate: run the remaining jobs shortest first.
pub open spec fn srpt_bound(tasks: Seq<Task>, rest: Seq<usize>, now: int) -> int {
    let jobs = stable_sort(by_processing(tasks, rest));
    release_cost(tasks, jobs, now, jobs.len())
}

/// The smaller of `start` and the setups into `job` from the first `len` jobs
/// of `rest` other than `job` itself.
pub open spec fn least_setup(
    tasks: Seq<Task>,
    rest: Seq<usize>,
    job: int,
    start: int,
    len: nat,
) -> int
    decreases len,
{
    if len == 0 {
        start
    } else {
        let least = least_setup(tasks, rest, job, start, (len - 1) as nat);
        let from = rest[len - 1] as int;
        if from != job && setup(tasks, from, job) < least {
            setup(tasks, from, job)
        } else {
            least
        }
    }
}

/// Cheapest setup with which `job` can start: from the last placed job or
/// from another remaining one; zero when there is neither.
pub open spec fn min_setup_into(
    tasks: Seq<Task>,
    last: Option<usize>,
    rest: Seq<usize>,
    job: int,
) -> int {
    let start = match last {
        Some(l) => setup(tasks, l as int, job),
        None => u64::MAX as int,
    };
    let least = least_setup(tasks, rest, job, start, rest.len());
    if least == u64::MAX {
        0
    } else {
        least
    }
}

/// The jobs of `rest`, each keyed by its processing time plus its cheapest
/// setup.
pub open spec fn by_relaxed_cost(
    tasks: Seq<Task>,
    last: Option<usize>,
    rest: Seq<usize>,
) -> Seq<(u64, usize)> {
    Seq::new(
        rest.len(),
        |i: int|
            (
                (tasks[rest[i] as int].processing_time + min_setup_into(
                    tasks,
                    last,
                    rest,
                    rest[i] as int,
                )) as u64,
                rest[i],
            ),
    )
}

/// Sum of the first `len` keys.
pub open spec fn key_sum(jobs: Seq<(u64, usize)>, len: nat) -> int
    decreases len,
{
    if len == 0 {
        0
    } else {
        key_sum(jobs, (len - 1) as nat) + jobs[len - 1].0
    }
}

/// Sum of the first `len` partial sums of the keys: what the jobs would cost
/// if each took its key and they ran back to back from time zero.
pub open spec fn staircase(jobs: Seq<(u64, usize)>, len: nat) -> int
    decreases len,
{
    if len == 0 {
        0
    } else {
        staircase(jobs, (len - 1) as nat) + key_sum(jobs, len)
    }
}

/// Earliest ready time among the first `len` jobs of `rest`; `u64::MAX` for
/// none.
pub open spec fn min_ready(tasks: Seq<Task>, rest: Seq<usize>, len: nat) -> int
    decreases len,
{
    if len == 0 {
        u64::MAX as int
    } else {
        let least = min_ready(tasks, rest, (len - 1) as nat);
        let ready = tasks[rest[len - 1] as int].ready_time as int;
        if ready < least {
            ready
        } else {
            least
        }
    }
}

/// The setup-aware estimate: relaxed costs in ascending order, run back to
/// back, all shifted by the earliest moment at which any job can start.
pub open spec fn assignment_bound(
    tasks: Seq<Task>,
    last: Option<usize>,
    rest: Seq<usize>,
    now: int,
) -> int {
    if rest.len() == 0 {
        0
    } else {
        let jobs = stable_sort(by_relaxed_cost(tasks, last, rest));
        let ready = min_ready(tasks, rest, rest.len());
        let earliest = if now >= ready {
            now
        } else {
            ready
        };
        staircase(jobs, jobs.len()) + rest.len() * earliest
    }
}

/// The estimate that `strategy` gives for the jobs still to place.
pub open spec fn remaining_bound(
    tasks: Seq<Task>,
    strategy: BoundingStrategy,
    last: Option<usize>,
    rest: Seq<usize>,
    now: int,
) -> int {
    match strategy {
        BoundingStrategy::ATCS => srpt_bound(tasks, rest, now),
        BoundingStrategy::INSERT => assignment_bound(tasks, last, rest, now),
        BoundingStrategy::HYBRID => {
            let a = assignment_bound(tasks, last, rest, now);
            let b = srpt_bound(tasks, rest, now);
            if a >= b {
                a
            } else {
                b
            }
        },
    }
}

/// The bound of a node: what it has cost so far plus the estimate for the
/// rest.
pub open spec fn lower_bound(tasks: Seq<Task>, node: Node, strategy: BoundingStrategy) -> int {
    node.current_cost + remaining_bound(
        tasks,
        strategy,
        node.last_job_idx,
        node.remaining_jobs@,
        node.current_time as int,
    )
}

/// Every item of a sorted sequence is an item of the unsorted one.
pub proof fn lemma_sorted_item(s: Seq<(u64, usize)>, i: int)
    requires
        0 <= i < s.len(),
    ensures
        stable_sort(s).len() == s.len(),
        s.contains(stable_sort(s)[i]),
{
    broadcast use vstd::seq_lib::group_to_multiset_ensures;

    lemma_stable_sort(s);
    let sorted = stable_sort(s);
    assert(sorted.to_multiset().count(sorted[i]) > 0);
}

/// The run that ignores setups stays within the limits of the cost model.
proof fn lemma_release_bounds(tasks: Seq<Task>, jobs: Seq<(u64, usize)>, now: int, len: nat)
    requires
        0 <= now,
        len <= jobs.len(),
        forall|i: int| 0 <= i < jobs.len() ==> (#[trigger] jobs[i]).1 < tasks.len(),
    ensures
        now <= release_finish(tasks, jobs, now, len) <= now + len * STEP,
        0 <= release_cost(tasks, jobs, now, len) <= len * (now + len * STEP),
    decreases len,
{
    if len > 0 {
        let prev = (len - 1) as nat;
        lemma_release_bounds(tasks, jobs, now, prev);
        assert(jobs[len - 1].1 < tasks.len());
        assert(prev * STEP + STEP == len * STEP) by (nonlinear_arith)
            requires
                prev + 1 == len,
        ;
        assert(prev * (now + prev * STEP) + (now + len * STEP) <= len * (now + len * STEP))
            by (nonlinear_arith)
            requires
                prev + 1 == len,
                0 <= now,
        ;
    }
}

/// Keys below `STEP` keep the staircase within the limits of the cost model.
proof fn lemma_staircase_bounds(jobs: Seq<(u64, usize)>, len: nat)
    requires
        len <= jobs.len(),
        forall|i: int| 0 <= i < jobs.len() ==> (#[trigger] jobs[i]).0 <= STEP,
    ensures
        0 <= key_sum(jobs, len) <= len * STEP,
        0 <= staircase(jobs, len) <= len * len * STEP,
    decreases len,
{
    if len > 0 {
        let prev = (len - 1) as nat;
        lemma_staircase_bounds(jobs, prev);
        assert(jobs[len - 1].0 <= STEP);
        assert(prev * STEP + STEP == len * STEP) by (nonlinear_arith)
            requires
                prev + 1 == len,
        ;
        assert(prev * prev * STEP + len * STEP <= len * len * STEP) by (nonlinear_arith)
            requires
                prev + 1 == len,
        ;
    }
}

/// The least setup is `start` or a genuine setup, and never above `start`.
pub proof fn lemma_least_setup(tasks: Seq<Task>, rest: Seq<usize>, job: int, start: int, len: nat)
    requires
        table_wf(tasks),
        0 <= job < tasks.len(),
        len <= rest.len(),
        forall|i: int| 0 <= i < rest.len() ==> (#[trigger] rest[i]) < tasks.len(),
    ensures
        least_setup(tasks, rest, job, start, len) <= start,
        least_setup(tasks, rest, job, start, len) == start || 0 <= least_setup(
            tasks,
            rest,
            job,
            start,
            len,
        ) <= u32::MAX,
    decreases len,
{
    if len > 0 {
        lemma_least_setup(tasks, rest, job, start, (len - 1) as nat);
        let from = rest[len - 1];
        assert(from < tasks.len());
        assert(tasks[from as int].switch_time@.len() == tasks.len());
    }
}

/// The setup-blind estimate for the jobs that `node` has still to place.
pub fn lb_srpt_relaxation(node: &Node, instance: &Instance) -> (lb: u64)
    requires
        instance.wf(),
        node.wf(instance.tasks@),
    ensures
        lb == srpt_bound(instance.tasks@, node.remaining_jobs@, node.current_time as int),
        node.current_cost + lb <= u64::MAX,
{
    let tasks = &instance.tasks;
    let rest = &node.remaining_jobs;
    let m: usize = rest.len();
    let ghost keyed_all = by_processing(tasks@, rest@);
    let mut keyed: Vec<(u64, usize)> = Vec::new();
    let mut i: usize = 0;
    while i < m
        invariant
            i <= m,
            m == rest@.len(),
            rest@ == node.remaining_jobs@,
            node.wf(tasks@),
            keyed_all == by_processing(tasks@, rest@),
            keyed@ == keyed_all.take(i as int),
        decreases m - i,
    {
        let job: usize = rest[i];
        assert(rest@[i as int] < tasks@.len());
        keyed.push((tasks[job].processing_time as u64, job));
        proof {
            assert(keyed@ =~= keyed_all.take(i + 1));
        }
        i = i + 1;
    }
    proof {
        assert(keyed@ =~= keyed_all);
    }
    sort_by_key(&mut keyed);
    let ghost placed = node.partial_sequence@;
    proof {
        lemma_stable_sort(keyed_all);
        assert forall|k: int| 0 <= k < keyed@.len() implies (#[trigger] keyed@[k]).1
            < tasks@.len() by {
            lemma_sorted_item(keyed_all, k);
            let a = choose|a: int| 0 <= a < keyed_all.len() && keyed_all[a] == keyed@[k];
            assert(rest@[a] < tasks@.len());
        }
        lemma_cost_bounds(tasks@, placed, placed.len());
        lemma_within_limits(placed.len());
        lemma_within_limits(tasks@.len());
        lemma_estimates_fit(
            placed.len(),
            m as nat,
            node.current_time as int,
            node.current_cost as int,
        );
    }
    let mut current_time: u64 = node.current_time;
    let mut remaining_cost_lb: u64 = 0;
    let mut k: usize = 0;
    while k < m
        invariant
            k <= m,
            m == keyed@.len(),
            m + placed.len() == tasks@.len(),
            tasks@.len() <= MAX_JOBS,
            node.current_time <= placed.len() * STEP,
            forall|a: int| 0 <= a < keyed@.len() ==> (#[trigger] keyed@[a]).1 < tasks@.len(),
            current_time == release_finish(tasks@, keyed@, node.current_time as int, k as nat),
            remaining_cost_lb == release_cost(tasks@, keyed@, node.current_time as int, k as nat),
        decreases m - k,
    {
        proof {
            lemma_release_bounds(tasks@, keyed@, node.current_time as int, k as nat);
            lemma_release_bounds(tasks@, keyed@, node.current_time as int, (k + 1) as nat);
            lemma_srpt_fits(placed.len(), k as nat, node.current_time as int);
            lemma_srpt_fits(placed.len(), (k + 1) as nat, node.current_time as int);
        }
        let job: usize = keyed[k].1;
        let ready: u64 = tasks[job].ready_time as u64;
        let start_time: u64 = if ready >= current_time {
            ready
        } else {
            current_time
        };
        let completion_time: u64 = start_time + tasks[job].processing_time as u64;
        remaining_cost_lb = remaining_cost_lb + completion_time;
        current_time = completion_time;
        k = k + 1;
    }
    proof {
        lemma_release_bounds(tasks@, keyed@, node.current_time as int, m as nat);
        lemma_srpt_fits(placed.len(), m as nat, node.current_time as int);
    }
    remaining_cost_lb
}

/// With `placed + len` jobs in all, a run of `len` jobs from `now` stays
/// within the limits of the cost model.
proof fn lemma_srpt_fits(placed: nat, len: nat, now: int)
    requires
        placed + len <= MAX_JOBS,
        0 <= now <= placed * STEP,
    ensures
        now + len * STEP <= TIME_LIMIT,
        len * (now + len * STEP) <= COST_LIMIT,
{
    lemma_estimates_fit(placed, len, now, 0);
}

/// Among at least one job the earliest ready time is a ready time.
proof fn lemma_min_ready(tasks: Seq<Task>, rest: Seq<usize>, len: nat)
    requires
        0 < len <= rest.len(),
    ensures
        0 <= min_ready(tasks, rest, len) <= u32::MAX,
    decreases len,
{
    if len > 1 {
        lemma_min_ready(tasks, rest, (len - 1) as nat);
    } else {
        assert(min_ready(tasks, rest, 0) == u64::MAX);
    }
}

/// The setup-aware estimate for the jobs that `node` has still to place.
pub fn lb_assignment_problem(node: &Node, instance: &Instance) -> (lb: u64)
    requires
        instance.wf(),
        node.wf(instance.tasks@),
    ensures
        lb == assignment_bound(
            instance.tasks@,
            node.last_job_idx,
            node.remaining_jobs@,
            node.current_time as int,
        ),
        node.current_cost + lb <= u64::MAX,
{
    let tasks = &instance.tasks;
    let rest = &node.remaining_jobs;
    let last = node.last_job_idx;
    let m: usize = rest.len();
    if m == 0 {
        return 0;
    }
    let ghost placed = node.partial_sequence@;
    let ghost keyed_all = by_relaxed_cost(tasks@, last, rest@);
    proof {
        if placed.len() > 0 {
            assert(placed[placed.len() - 1] < tasks@.len());
        }
    }
    let mut keyed: Vec<(u64, usize)> = Vec::new();
    let mut min_r: u64 = u64::MAX;
    let mut a: usize = 0;
    while a < m
        invariant
            a <= m,
            m == rest@.len(),
            rest@ == node.remaining_jobs@,
            tasks@ == instance.tasks@,
            instance.wf(),
            node.wf(tasks@),
            last == node.last_job_idx,
            last matches Some(l) ==> l < tasks@.len(),
            keyed_all == by_relaxed_cost(tasks@, last, rest@),
            keyed@ == keyed_all.take(a as int),
            min_r == min_ready(tasks@, rest@, a as nat),
        decreases m - a,
    {
        let job: usize = rest[a];
        assert(rest@[a as int] < tasks@.len());
        let ready: u64 = tasks[job].ready_time as u64;
        if ready < min_r {
            min_r = ready;
        }
        let mut min_s: u64 = u64::MAX;
        if let Some(l) = last {
            assert(tasks@[l as int].switch_time@.len() == tasks@.len());
            min_s = tasks[l].switch_time[job] as u64;
        }
        let ghost start = min_s as int;
        let mut b: usize = 0;
        while b < m
            invariant
                b <= m,
                m == rest@.len(),
                rest@ == node.remaining_jobs@,
                node.wf(tasks@),
                table_wf(tasks@),
                job < tasks@.len(),
                min_s == least_setup(tasks@, rest@, job as int, start, b as nat),
            decreases m - b,
        {
            let from: usize = rest[b];
            assert(rest@[b as int] < tasks@.len());
            if from != job {
                assert(tasks@[from as int].switch_time@.len() == tasks@.len());
                let s: u64 = tasks[from].switch_time[job] as u64;
                if s < min_s {
                    min_s = s;
                }
            }
            b = b + 1;
        }
        proof {
            lemma_least_setup(tasks@, rest@, job as int, start, m as nat);
        }
        if min_s == u64::MAX {
            min_s = 0;
        }
        keyed.push((tasks[job].processing_time as u64 + min_s, job));
        proof {
            assert(keyed@ =~= keyed_all.take(a + 1));
        }
        a = a + 1;
    }
    proof {
        assert(keyed@ =~= keyed_all);
        assert forall|i: int| 0 <= i < keyed_all.len() implies (#[trigger] keyed_all[i]).0
            <= STEP by {
            let job = rest@[i];
            assert(job < tasks@.len());
            let start = match last {
                Some(l) => setup(tasks@, l as int, job as int),
                None => u64::MAX as int,
            };
            if let Some(l) = last {
                assert(tasks@[l as int].switch_time@.len() == tasks@.len());
            }
            lemma_least_setup(tasks@, rest@, job as int, start, m as nat);
        }
    }
    sort_by_key(&mut keyed);
    proof {
        lemma_stable_sort(keyed_all);
        assert forall|k: int| 0 <= k < keyed@.len() implies (#[trigger] keyed@[k]).0 <= STEP by {
            lemma_sorted_item(keyed_all, k);
            let i = choose|i: int| 0 <= i < keyed_all.len() && keyed_all[i] == keyed@[k];
            assert(keyed_all[i].0 <= STEP);
        }
        lemma_within_limits(m as nat);
    }
    let mut remaining_cost_lb: u64 = 0;
    let mut cumulative_cost: u64 = 0;
    let mut k: usize = 0;
    while k < m
        invariant
            k <= m,
            m == keyed@.len(),
            m <= MAX_JOBS,
            m * STEP <= TIME_LIMIT,
            m * m * STEP <= COST_LIMIT,
            forall|i: int| 0 <= i < keyed@.len() ==> (#[trigger] keyed@[i]).0 <= STEP,
            cumulative_cost == key_sum(keyed@, k as nat),
            remaining_cost_lb == staircase(keyed@, k as nat),
        decreases m - k,
    {
        proof {
            lemma_staircase_bounds(keyed@, (k + 1) as nat);
            lemma_staircase_bounds(keyed@, m as nat);
            lemma_staircase_grows(keyed@, (k + 1) as nat, m as nat);
        }
        cumulative_cost = cumulative_cost + keyed[k].0;
        remaining_cost_lb = remaining_cost_lb + cumulative_cost;
        k = k + 1;
    }
    proof {
        lemma_staircase_bounds(keyed@, m as nat);
        lemma_min_ready(tasks@, rest@, m as nat);
        lemma_cost_bounds(tasks@, placed, placed.len());
        lemma_within_limits(placed.len());
        lemma_estimates_fit(
            placed.len(),
            m as nat,
            node.current_time as int,
            node.current_cost as int,
        );
    }
    let earliest_start: u64 = if node.current_time >= min_r {
        node.current_time
    } else {
        min_r
    };
    assert(0 <= m * earliest_start <= m * (node.current_time + 0x1_0000_0000))
        by (nonlinear_arith)
        requires
            0 <= earliest_start <= node.current_time + 0x1_0000_0000,
            m >= 0,
    ;
    remaining_cost_lb + (m as u64) * earliest_start
}

/// Partial sums and staircases grow with the number of keys taken.
proof fn lemma_staircase_grows(jobs: Seq<(u64, usize)>, len: nat, upto: nat)
    requires
        len <= upto <= jobs.len(),
    ensures
        key_sum(jobs, len) <= key_sum(jobs, upto),
        staircase(jobs, len) <= staircase(jobs, upto),
        0 <= key_sum(jobs, len),
    decreases upto,
{
    if len < upto {
        lemma_staircase_grows(jobs, len, (upto - 1) as nat);
    } else {
        lemma_key_sum_nonneg(jobs, len);
    }
    lemma_key_sum_nonneg(jobs, upto);
}

/// A sum of keys is not negative.
pub proof fn lemma_key_sum_nonneg(jobs: Seq<(u64, usize)>, len: nat)
    requires
        len <= jobs.len(),
    ensures
        0 <= key_sum(jobs, len),
    decreases len,
{
    if len > 0 {
        lemma_key_sum_nonneg(jobs, (len - 1) as nat);
    }
}

/// The lower bound of `node` under `strategy`: the cost already paid plus
/// the estimate for the jobs still to place.
pub fn calculate_lb(node: &Node, instance: &Instance, strategy: &BoundingStrategy) -> (lb: u64)
    requires
        instance.wf(),
        node.wf(instance.tasks@),
    ensures
        lb == lower_bound(instance.tasks@, *node, *strategy),
        lb >= node.current_cost,
{
    proof {
        lemma_cost_bounds(
            instance.tasks@,
            node.partial_sequence@,
            node.partial_sequence@.len(),
        );
        lemma_within_limits(node.partial_sequence@.len());
    }
    let base_cost: u64 = node.current_cost;
    let remaining_lb: u64 = match strategy {
        BoundingStrategy::ATCS => lb_srpt_relaxation(node, instance),
        BoundingStrategy::INSERT => lb_assignment_problem(node, instance),
        BoundingStrategy::HYBRID => {
            let a: u64 = lb_assignment_problem(node, instance);
            let b: u64 = lb_srpt_relaxation(node, instance);
            if a >= b {
                a
            } else {
                b
            }
        },
    };
    base_cost + remaining_lb
}

} // verus!
