//! Random instances.

use crate::problem_1::models::{Instance, InstanceMetrics, Task, MAX_JOBS};
use crate::problem_1::rng::random_below;
use vstd::prelude::*;

verus! {

/// Lowest processing time that is drawn.
pub const MIN_P: u32 = 1;

/// Processing times are drawn below this.
pub const MAX_P: u32 = 35;

/// Lowest setup between different jobs that is drawn.
pub const MIN_S: u32 = 1;

/// Setups are drawn below this.
pub const MAX_S: u32 = 20;

/// No job is ready later than the total processing time divided by this.
pub const SPREAD: u32 = 2;

/// The number that lies `offset` above `low`, for an offset that keeps it
/// below `high`.
fn shifted(low: u32, high: u32, offset: usize) -> (value: u32)
    requires
        low < high,
        offset < high - low,
    ensures
        value == low + offset,
{
    low + offset as u32
}

/// A number drawn from `low` up to, but not including, `high`: `low`
/// shifted by an offset drawn below `high - low`.
fn random_between(low: u32, high: u32) -> (drawn: u32)
    requires
        low < high,
    ensures
        low <= drawn < high,
{
    let offset: usize = random_below((high - low) as usize);
    shifted(low, high, offset)
}

/// Sum of the first `count` of `values`.
pub open spec fn sum_of(values: Seq<u32>, count: nat) -> int
    decreases count,
{
    if count == 0 {
        0
    } else {
        sum_of(values, (count - 1) as nat) + values[count - 1]
    }
}

/// The earliest ready time that a job with processing time `p` can get when
/// no job is ready after `bound`: the shorter the job, the later.
pub open spec fn earliest_ready(p: int, bound: int) -> int {
    (MAX_P - p) * bound / (MAX_P as int)
}

/// `ready` is a ready time that a job with processing time `p` can get when
/// no job is ready after `bound`: one from the earliest for the job up to,
/// but not including, the bound; or the bound itself where the earliest
/// reaches it.
pub open spec fn ready_allowed(p: int, bound: int, ready: int) -> bool {
    if earliest_ready(p, bound) >= bound {
        ready == bound
    } else {
        earliest_ready(p, bound) <= ready < bound
    }
}

/// `tasks` is a table that `generate_instance` can return: ids are
/// positions, processing times and setups lie in their ranges, no job needs
/// a setup to follow itself, and every ready time is one that
/// `ready_allowed` admits for the job.
pub open spec fn generated(tasks: Seq<Task>) -> bool {
    let bound = sum_of(Seq::new(tasks.len(), |i: int| tasks[i].processing_time), tasks.len())
        / (SPREAD as int);
    forall|i: int|
        0 <= i < tasks.len() ==> {
            &&& (#[trigger] tasks[i]).id == i
            &&& MIN_P <= tasks[i].processing_time < MAX_P
            &&& ready_allowed(
                tasks[i].processing_time as int,
                bound,
                tasks[i].ready_time as int,
            )
            &&& tasks[i].switch_time@.len() == tasks.len()
            &&& forall|j: int|
                0 <= j < tasks.len() ==> (if i == j {
                    tasks[i].switch_time@[j] == 0
                } else {
                    MIN_S <= #[trigger] tasks[i].switch_time@[j] < MAX_S
                })
        }
}

/// A sum of processing times below `MAX_P` stays small.
proof fn lemma_sum_fits(values: Seq<u32>, count: nat)
    requires
        count <= values.len(),
        forall|i: int| 0 <= i < values.len() ==> (#[trigger] values[i]) < MAX_P,
    ensures
        0 <= sum_of(values, count) <= count * 34,
    decreases count,
{
    if count > 0 {
        lemma_sum_fits(values, (count - 1) as nat);
    }
}

/// A random instance of `n` jobs. Short jobs tend to be ready late.
pub fn generate_instance(n: usize) -> (instance: Instance)
    requires
        n <= MAX_JOBS,
    ensures
        instance.n == n,
        instance.wf(),
        generated(instance.tasks@),
        n > 0 ==> instance.valid(),
{
    let mut processing_times: Vec<u32> = Vec::new();
    let mut total_processing_time: u32 = 0;
    let mut i: usize = 0;
    while i < n
        invariant
            i <= n <= MAX_JOBS,
            processing_times@.len() == i,
            forall|k: int| 0 <= k < i ==> MIN_P <= (#[trigger] processing_times@[k]) < MAX_P,
            total_processing_time == sum_of(processing_times@, i as nat),
        decreases n - i,
    {
        let ghost before = processing_times@;
        let p: u32 = random_between(MIN_P, MAX_P);
        processing_times.push(p);
        proof {
            lemma_sum_fits(before, i as nat);
            lemma_sum_same(before, processing_times@, i as nat);
        }
        total_processing_time = total_processing_time + p;
        i = i + 1;
    }
    let ready_time_upper_bound: u32 = total_processing_time / SPREAD;
    proof {
        lemma_sum_fits(processing_times@, n as nat);
    }
    let mut tasks: Vec<Task> = Vec::new();
    let mut i: usize = 0;
    while i < n
        invariant
            i <= n <= MAX_JOBS,
            processing_times@.len() == n,
            forall|k: int| 0 <= k < n ==> MIN_P <= (#[trigger] processing_times@[k]) < MAX_P,
            ready_time_upper_bound == sum_of(processing_times@, n as nat) / (SPREAD as int),
            ready_time_upper_bound <= MAX_JOBS * 17,
            tasks@.len() == i,
            forall|k: int|
                0 <= k < i ==> {
                    &&& (#[trigger] tasks@[k]).id == k
                    &&& tasks@[k].processing_time == processing_times@[k]
                    &&& tasks@[k].ready_time <= ready_time_upper_bound
                    &&& ready_allowed(
                        tasks@[k].processing_time as int,
                        ready_time_upper_bound as int,
                        tasks@[k].ready_time as int,
                    )
                    &&& tasks@[k].switch_time@.len() == n
                    &&& forall|j: int|
                        0 <= j < n ==> (if k == j {
                            tasks@[k].switch_time@[j] == 0
                        } else {
                            MIN_S <= #[trigger] tasks@[k].switch_time@[j] < MAX_S
                        })
                },
        decreases n - i,
    {
        let mut setup_times: Vec<u32> = Vec::new();
        let mut j: usize = 0;
        while j < n
            invariant
                j <= n,
                setup_times@.len() == j,
                forall|c: int|
                    0 <= c < j ==> (if i == c {
                        setup_times@[c] == 0
                    } else {
                        MIN_S <= #[trigger] setup_times@[c] < MAX_S
                    }),
            decreases n - j,
        {
            if i != j {
                setup_times.push(random_between(MIN_S, MAX_S));
            } else {
                setup_times.push(0);
            }
            j = j + 1;
        }
        let p_j: u32 = processing_times[i];
        assert((MAX_P - p_j) * ready_time_upper_bound <= 34 * (46340 * 17)) by (nonlinear_arith)
            requires
                1 <= p_j < 35,
                ready_time_upper_bound <= 46340 * 17,
                MAX_P == 35,
        ;
        let min_ready_time: u32 = (MAX_P - p_j) * ready_time_upper_bound / MAX_P;
        let ready_time: u32 = if min_ready_time >= ready_time_upper_bound {
            ready_time_upper_bound
        } else {
            random_between(min_ready_time, ready_time_upper_bound)
        };
        assert(min_ready_time <= ready_time_upper_bound) by (nonlinear_arith)
            requires
                min_ready_time == (MAX_P - p_j) * ready_time_upper_bound / (MAX_P as int),
                1 <= p_j < 35,
                MAX_P == 35,
                ready_time_upper_bound >= 0,
        ;
        let ghost before = tasks@;
        let ghost row = setup_times@;
        tasks.push(
            Task { id: i as u32, ready_time, processing_time: p_j, switch_time: setup_times },
        );
        proof {
            assert forall|k: int| 0 <= k < i + 1 implies {
                &&& (#[trigger] tasks@[k]).id == k
                &&& tasks@[k].processing_time == processing_times@[k]
                &&& tasks@[k].ready_time <= ready_time_upper_bound
                &&& ready_allowed(
                    tasks@[k].processing_time as int,
                    ready_time_upper_bound as int,
                    tasks@[k].ready_time as int,
                )
                &&& tasks@[k].switch_time@.len() == n
                &&& forall|j: int|
                    0 <= j < n ==> (if k == j {
                        tasks@[k].switch_time@[j] == 0
                    } else {
                        MIN_S <= #[trigger] tasks@[k].switch_time@[j] < MAX_S
                    })
            } by {
                if k < i {
                    assert(tasks@[k] == before[k]);
                } else {
                    assert(tasks@[k].switch_time@ == row);
                }
            }
        }
        i = i + 1;
    }
    proof {
        let listed = Seq::new(tasks@.len(), |k: int| tasks@[k].processing_time);
        assert(listed =~= processing_times@);
    }
    Instance { n, tasks, metrics: InstanceMetrics { n: 0, total_processing: 0, total_setup: 0 } }
}

/// A sum over a prefix depends on that prefix alone.
proof fn lemma_sum_same(a: Seq<u32>, b: Seq<u32>, count: nat)
    requires
        count <= a.len(),
        count <= b.len(),
        forall|i: int| 0 <= i < count ==> a[i] == b[i],
    ensures
        sum_of(a, count) == sum_of(b, count),
    decreases count,
{
    if count > 0 {
        lemma_sum_same(a, b, (count - 1) as nat);
    }
}

} // verus!
