//! Problem data and the cost model that every algorithm is stated over.

use vstd::prelude::*;

verus! {

/// The largest number of jobs for which every time, cost and bound is known
/// to fit in 64 bits: the largest `n` with `n * n * STEP` below `2^64`.
pub const MAX_JOBS: usize = 46340;

/// Upper bound on what one job can add to the clock: a setup (or a wait for a
/// ready time) and a processing time, each below `2^32`.
pub const STEP: u64 = 0x2_0000_0000;

/// One job. `switch_time[j]` is the setup paid when job `j` runs right after
/// this one.
#[derive(Debug, Clone)]
pub struct Task {
    pub id: u32,
    pub ready_time: u32,
    pub processing_time: u32,
    pub switch_time: Vec<u32>,
}

/// The job table has a full setup row for every job.
pub open spec fn table_wf(tasks: Seq<Task>) -> bool {
    forall|i: int| 0 <= i < tasks.len() ==> (#[trigger] tasks[i]).switch_time@.len() == tasks.len()
}

/// The table obeys the data model: there is a job, their number fits the 32
/// bits of an id, ids are positions, processing times are positive and no
/// job needs a setup to follow itself.
pub open spec fn table_valid(tasks: Seq<Task>) -> bool {
    &&& table_wf(tasks)
    &&& 0 < tasks.len() <= u32::MAX
    &&& forall|i: int|
        0 <= i < tasks.len() ==> {
            &&& (#[trigger] tasks[i]).id == i
            &&& tasks[i].processing_time > 0
            &&& tasks[i].switch_time@[i] == 0
        }
}

/// Every entry of `order` names a job of the table.
pub open spec fn order_valid(tasks: Seq<Task>, order: Seq<usize>) -> bool {
    forall|i: int| 0 <= i < order.len() ==> (#[trigger] order[i]) < tasks.len()
}

/// `order` names every job of an `n`-job table exactly once.
pub open spec fn is_permutation(order: Seq<usize>, n: nat) -> bool {
    &&& order.len() == n
    &&& forall|i: int| 0 <= i < order.len() ==> (#[trigger] order[i]) < n
    &&& forall|i: int, j: int| 0 <= i < j < order.len() ==> order[i] != order[j]
}

/// The jobs of an `n`-job table by ascending id.
pub open spec fn all_jobs(n: nat) -> Seq<usize> {
    Seq::new(n, |i: int| i as usize)
}

/// A rearrangement of all the jobs names every job exactly once.
pub proof fn lemma_rearranged_is_permutation(order: Seq<usize>, n: nat)
    requires
        n <= usize::MAX,
        order.to_multiset() == all_jobs(n).to_multiset(),
    ensures
        is_permutation(order, n),
{
    broadcast use vstd::seq_lib::group_to_multiset_ensures;

    let all = all_jobs(n);
    assert(order.len() == order.to_multiset().len());
    assert(all.len() == all.to_multiset().len());
    assert forall|i: int| 0 <= i < order.len() implies (#[trigger] order[i]) < n by {
        assert(order.to_multiset().count(order[i]) > 0);
        assert(all.contains(order[i]));
    }
    assert(all.no_duplicates());
    all.lemma_multiset_has_no_duplicates();
    order.lemma_multiset_has_no_duplicates_conv();
}

/// Setup paid when job `to` runs right after job `from`.
pub open spec fn setup(tasks: Seq<Task>, from: int, to: int) -> int {
    tasks[from].switch_time@[to] as int
}

/// Completion time of a job that becomes possible at `arrive`.
pub open spec fn complete_at(tasks: Seq<Task>, arrive: int, job: int) -> int {
    let ready = tasks[job].ready_time as int;
    (if arrive >= ready {
        arrive
    } else {
        ready
    }) + tasks[job].processing_time
}

/// The job placed just before position `len`, if there is one.
pub open spec fn last_of(order: Seq<usize>, len: nat) -> Option<usize> {
    if len == 0 {
        None
    } else {
        Some(order[len - 1])
    }
}

/// Completion time of `job` when it follows `last` on a machine that is free
/// at `now`. The first job of a sequence pays no setup.
pub open spec fn step(tasks: Seq<Task>, last: Option<usize>, now: int, job: int) -> int {
    match last {
        Some(l) => complete_at(tasks, now + setup(tasks, l as int, job), job),
        None => complete_at(tasks, now, job),
    }
}

/// Completion time of the job at position `len - 1` when the first `len` jobs
/// of `order` run back to back from time zero; zero for the empty prefix.
pub open spec fn finish_time(tasks: Seq<Task>, order: Seq<usize>, len: nat) -> int
    decreases len,
{
    if len == 0 {
        0
    } else {
        step(
            tasks,
            last_of(order, (len - 1) as nat),
            finish_time(tasks, order, (len - 1) as nat),
            order[len - 1] as int,
        )
    }
}

/// Sum of the completion times of the first `len` jobs of `order`.
pub open spec fn prefix_cost(tasks: Seq<Task>, order: Seq<usize>, len: nat) -> int
    decreases len,
{
    if len == 0 {
        0
    } else {
        prefix_cost(tasks, order, (len - 1) as nat) + finish_time(tasks, order, len)
    }
}

/// The objective: sum of completion times of the whole of `order`.
pub open spec fn total_cost(tasks: Seq<Task>, order: Seq<usize>) -> int {
    prefix_cost(tasks, order, order.len())
}

/// Completion time of the last job of `order`; zero when it is empty.
pub open spec fn makespan(tasks: Seq<Task>, order: Seq<usize>) -> int {
    finish_time(tasks, order, order.len())
}

/// Times and costs of a valid prefix are non-negative and grow by at most
/// `STEP` per job.
pub proof fn lemma_cost_bounds(tasks: Seq<Task>, order: Seq<usize>, len: nat)
    requires
        table_wf(tasks),
        order_valid(tasks, order),
        len <= order.len(),
    ensures
        0 <= finish_time(tasks, order, len) <= len * STEP,
        0 <= prefix_cost(tasks, order, len) <= len * len * STEP,
        len > 0 ==> finish_time(tasks, order, len) >= finish_time(tasks, order, (len - 1) as nat),
    decreases len,
{
    if len > 0 {
        let prev = (len - 1) as nat;
        lemma_cost_bounds(tasks, order, prev);
        assert(order[len - 1] < tasks.len());
        if len > 1 {
            assert(order[len - 2] < tasks.len());
            assert(tasks[order[len - 2] as int].switch_time@.len() == tasks.len());
        }
        assert(prev * STEP + STEP == len * STEP) by (nonlinear_arith)
            requires
                prev + 1 == len,
        ;
        assert(prev * prev * STEP + len * STEP <= len * len * STEP) by (nonlinear_arith)
            requires
                prev + 1 == len,
        ;
    }
}

/// Appending a job of a valid table raises the cost, and the job completes
/// no earlier than its ready time, or the completion of the job before it
/// plus the setup between them, allows.
pub proof fn lemma_cost_grows(tasks: Seq<Task>, order: Seq<usize>, len: nat)
    requires
        table_valid(tasks),
        order_valid(tasks, order),
        0 < len <= order.len(),
    ensures
        prefix_cost(tasks, order, len) > prefix_cost(tasks, order, (len - 1) as nat),
        finish_time(tasks, order, len) >= tasks[order[len - 1] as int].ready_time
            + tasks[order[len - 1] as int].processing_time,
        len > 1 ==> finish_time(tasks, order, len) >= finish_time(tasks, order, (len - 1) as nat)
            + setup(tasks, order[len - 2] as int, order[len - 1] as int)
            + tasks[order[len - 1] as int].processing_time,
{
    lemma_cost_bounds(tasks, order, (len - 1) as nat);
    assert(order[len - 1] < tasks.len());
    if len > 1 {
        assert(order[len - 2] < tasks.len());
    }
    lemma_step_bounds(
        tasks,
        last_of(order, (len - 1) as nat),
        finish_time(tasks, order, (len - 1) as nat),
        order[len - 1] as int,
    );
}

/// The latest time that `MAX_JOBS` jobs can take: `MAX_JOBS * STEP`.
pub const TIME_LIMIT: u64 = 0x1_6A08_0000_0000;

/// The highest cost that `MAX_JOBS` jobs can come to:
/// `MAX_JOBS * MAX_JOBS * STEP`.
pub const COST_LIMIT: u64 = 0xFFFD_5020_0000_0000;

/// With at most `MAX_JOBS` jobs a time stays within `TIME_LIMIT` and a cost
/// within `COST_LIMIT`.
pub proof fn lemma_within_limits(len: nat)
    requires
        len <= MAX_JOBS,
    ensures
        len * STEP <= TIME_LIMIT,
        len * len * STEP <= COST_LIMIT,
{
    assert(len * STEP <= 0x1_6A08_0000_0000) by (nonlinear_arith)
        requires
            len <= 46340,
            STEP == 0x2_0000_0000,
    ;
    assert(len * len <= 46340 * 46340) by (nonlinear_arith)
        requires
            len <= 46340,
    ;
    assert(len * len * STEP <= 0xFFFD_5020_0000_0000) by (nonlinear_arith)
        requires
            0 <= len * len <= 2147395600,
            STEP == 0x2_0000_0000,
    ;
}

/// A node with `placed` jobs placed and `left` jobs left, whose clock shows
/// `now` and which has cost `paid`, can add to what it paid an estimate of
/// up to `left * (now + left * STEP)`, and one of up to
/// `left * left * STEP + left * (now + 2^32)`, without leaving 64 bits.
pub proof fn lemma_estimates_fit(placed: nat, left: nat, now: int, paid: int)
    requires
        placed + left <= MAX_JOBS,
        0 <= now <= placed * STEP,
        0 <= paid <= placed * placed * STEP,
    ensures
        now + left * STEP <= TIME_LIMIT,
        paid + left * (now + left * STEP) <= COST_LIMIT,
        paid + left * left * STEP + left * (now + 0x1_0000_0000) <= u64::MAX,
{
    let n = placed + left;
    lemma_within_limits(n);
    assert(now + left * STEP <= n * STEP) by (nonlinear_arith)
        requires
            now <= placed * STEP,
            n == placed + left,
            STEP == 0x2_0000_0000,
    ;
    assert(left * (now + left * STEP) <= left * (n * STEP)) by (nonlinear_arith)
        requires
            0 <= now + left * STEP <= n * STEP,
            left >= 0,
    ;
    assert(placed * placed * STEP + left * (n * STEP) <= n * n * STEP) by (nonlinear_arith)
        requires
            n == placed + left,
            placed >= 0,
            left >= 0,
            STEP == 0x2_0000_0000,
    ;
    assert(left * left * STEP + left * now <= left * (n * STEP)) by (nonlinear_arith)
        requires
            0 <= now <= placed * STEP,
            n == placed + left,
            left >= 0,
            STEP == 0x2_0000_0000,
    ;
    assert(left * 0x1_0000_0000 <= 46340 * 0x1_0000_0000) by (nonlinear_arith)
        requires
            0 <= left <= 46340,
    ;
    assert(left * (now + 0x1_0000_0000) == left * now + left * 0x1_0000_0000)
        by (nonlinear_arith);
}

/// Two orders that agree on their first `len` entries have the same times and
/// costs over that prefix.
pub proof fn lemma_cost_prefix(tasks: Seq<Task>, a: Seq<usize>, b: Seq<usize>, len: nat)
    requires
        len <= a.len(),
        len <= b.len(),
        forall|i: int| 0 <= i < len ==> a[i] == b[i],
    ensures
        finish_time(tasks, a, len) == finish_time(tasks, b, len),
        prefix_cost(tasks, a, len) == prefix_cost(tasks, b, len),
    decreases len,
{
    if len > 0 {
        lemma_cost_prefix(tasks, a, b, (len - 1) as nat);
    }
}

/// A job that runs alone completes, and costs, its ready time plus its
/// processing time.
pub proof fn lemma_single_job(tasks: Seq<Task>, job: usize)
    ensures
        total_cost(tasks, seq![job]) == tasks[job as int].ready_time
            + tasks[job as int].processing_time,
        makespan(tasks, seq![job]) == total_cost(tasks, seq![job]),
{
    let order = seq![job];
    assert(finish_time(tasks, order, 0) == 0);
    assert(prefix_cost(tasks, order, 0) == 0);
    assert(finish_time(tasks, order, 1) == step(tasks, None, 0, job as int));
    assert(prefix_cost(tasks, order, 1) == finish_time(tasks, order, 1));
}

/// One job moves the clock forward by at most `STEP`, and never backward.
pub proof fn lemma_step_bounds(tasks: Seq<Task>, last: Option<usize>, now: int, job: int)
    requires
        table_wf(tasks),
        0 <= job < tasks.len(),
        last matches Some(l) ==> l < tasks.len(),
        0 <= now,
    ensures
        now <= step(tasks, last, now, job) <= now + STEP,
        step(tasks, last, now, job) >= tasks[job].ready_time + tasks[job].processing_time,
        step(tasks, last, now, job) >= now + tasks[job].processing_time,
{
    if let Some(l) = last {
        assert(tasks[l as int].switch_time@.len() == tasks.len());
    }
}

/// Completion time of `job` after `last` on a machine free at `now`.
pub fn step_from(tasks: &Vec<Task>, last: Option<usize>, now: u64, job: usize) -> (done: u64)
    requires
        table_wf(tasks@),
        job < tasks.len(),
        last matches Some(l) ==> l < tasks.len(),
        now + STEP <= u64::MAX,
    ensures
        done == step(tasks@, last, now as int, job as int),
{
    proof {
        lemma_step_bounds(tasks@, last, now as int, job as int);
    }
    let arrive: u64 = match last {
        Some(l) => {
            assert(tasks@[l as int].switch_time@.len() == tasks.len());
            now + tasks[l].switch_time[job] as u64
        },
        None => now,
    };
    let ready: u64 = tasks[job].ready_time as u64;
    let start: u64 = if arrive >= ready {
        arrive
    } else {
        ready
    };
    start + tasks[job].processing_time as u64
}

/// What is known of an instance as a whole: exact sums, from which the
/// averages and their ratio follow.
#[derive(Debug, Clone, Copy, PartialEq, Eq, Structural)]
pub struct InstanceMetrics {
    pub n: usize,
    /// Sum of all processing times.
    pub total_processing: u64,
    /// Sum of all setups between distinct jobs.
    pub total_setup: u64,
}

impl Default for InstanceMetrics {
    /// The metrics of nothing: no jobs, both sums zero.
    fn default() -> (metrics: Self)
        ensures
            metrics == (InstanceMetrics { n: 0, total_processing: 0, total_setup: 0 }),
    {
        InstanceMetrics { n: 0, total_processing: 0, total_setup: 0 }
    }
}

/// An instance: the job table, its size and the metrics last computed for it.
#[derive(Debug)]
pub struct Instance {
    pub n: usize,
    pub tasks: Vec<Task>,
    pub metrics: InstanceMetrics,
}

impl Instance {
    /// The size matches the table, the table is complete and small enough
    /// for 64-bit costs.
    pub open spec fn wf(&self) -> bool {
        &&& self.n == self.tasks@.len()
        &&& self.n <= MAX_JOBS
        &&& table_wf(self.tasks@)
    }

    /// The instance obeys the data model.
    pub open spec fn valid(&self) -> bool {
        &&& self.wf()
        &&& table_valid(self.tasks@)
    }
}

/// A job order with its cost and the time it took to find.
#[derive(Debug)]
pub struct Solution {
    pub duration: u128,
    pub score: u64,
    pub tasks: Vec<usize>,
}

impl Solution {
    /// The order names every job of `tasks` once and the score is its cost.
    pub open spec fn solves(&self, tasks: Seq<Task>) -> bool {
        &&& is_permutation(self.tasks@, tasks.len())
        &&& self.score == total_cost(tasks, self.tasks@)
    }

    /// A solution over `tasks` with score and duration zero.
    pub fn new(tasks: Vec<usize>) -> (s: Self)
        ensures
            s.tasks == tasks,
            s.score == 0,
            s.duration == 0,
    {
        Self { duration: 0, score: 0, tasks }
    }

    /// Sets the score.
    pub fn set_score(&mut self, score: u64)
        ensures
            final(self).score == score,
            final(self).duration == old(self).duration,
            final(self).tasks == old(self).tasks,
    {
        self.score = score;
    }

    /// The score.
    pub fn get_score(&self) -> (score: u64)
        ensures
            score == self.score,
    {
        self.score
    }

    /// Sets the duration.
    pub fn set_duration(&mut self, duration: u128)
        ensures
            final(self).duration == duration,
            final(self).score == old(self).score,
            final(self).tasks == old(self).tasks,
    {
        self.duration = duration;
    }

    /// The duration.
    pub fn get_duration(&self) -> (duration: u128)
        ensures
            duration == self.duration,
    {
        self.duration
    }
}

/// The best solution found so far, with a copy of its score that can be read
/// without touching the solution.
#[derive(Debug)]
pub struct GlobalBest {
    pub solution: Solution,
    pub score: u64,
}

impl GlobalBest {
    /// The copy of the score is the score of the solution held.
    pub open spec fn wf(&self) -> bool {
        self.score == self.solution.score
    }

    /// A cell that holds `initial_solution`.
    pub fn new(initial_solution: Solution) -> (cell: Self)
        ensures
            cell.wf(),
            cell.solution == initial_solution,
    {
        let initial_score: u64 = initial_solution.score;
        Self { score: initial_score, solution: initial_solution }
    }

    /// The score of the best solution so far.
    pub fn get_best_score(&self) -> (score: u64)
        ensures
            score == self.score,
    {
        self.score
    }

    /// Installs `new_solution` if and only if it is strictly better than the
    /// one held; solution and score change together or not at all.
    pub fn try_update_solution(&mut self, new_solution: Solution)
        requires
            old(self).wf(),
        ensures
            final(self).wf(),
            new_solution.score < old(self).score ==> final(self).solution == new_solution,
            new_solution.score >= old(self).score ==> *final(self) == *old(self),
            final(self).score == best_of(old(self).score, new_solution.score),
    {
        let new_score: u64 = new_solution.score;
        if new_score < self.get_best_score() {
            if new_score < self.solution.score {
                self.solution = new_solution;
                self.score = new_score;
            }
        }
    }

    /// The solution held, once nobody else reports into the cell.
    pub fn into_inner(self) -> (solution: Solution)
        ensures
            solution == self.solution,
    {
        self.solution
    }
}

/// The smaller of two scores; the one held wins a tie.
pub open spec fn best_of(held: u64, proposed: u64) -> u64 {
    if proposed < held {
        proposed
    } else {
        held
    }
}

/// The score held after the first `len` of `proposals` were reported, in
/// order, into a cell that held `start`.
pub open spec fn best_after(start: u64, proposals: Seq<u64>, len: nat) -> u64
    decreases len,
{
    if len == 0 {
        start
    } else {
        best_of(best_after(start, proposals, (len - 1) as nat), proposals[len - 1])
    }
}

/// After any number of reports the cell holds the least score ever seen: it
/// is not above the start or any proposal, and it is one of them.
pub proof fn lemma_best_after_is_minimum(start: u64, proposals: Seq<u64>, len: nat)
    requires
        len <= proposals.len(),
    ensures
        best_after(start, proposals, len) <= start,
        forall|i: int| 0 <= i < len ==> best_after(start, proposals, len) <= proposals[i],
        best_after(start, proposals, len) == start || exists|i: int|
            0 <= i < len && best_after(start, proposals, len) == proposals[i],
    decreases len,
{
    if len > 0 {
        lemma_best_after_is_minimum(start, proposals, (len - 1) as nat);
        let before = best_after(start, proposals, (len - 1) as nat);
        if before != start && proposals[len - 1] >= before {
            let i = choose|i: int| 0 <= i < len - 1 && before == proposals[i];
            assert(best_after(start, proposals, len) == proposals[i]);
        }
    }
}

/// No update is lost to the order of arrival: the same proposals, reported
/// in any two orders, leave the same score in the cell.
pub proof fn lemma_best_after_any_order(start: u64, a: Seq<u64>, b: Seq<u64>)
    requires
        a.to_multiset() == b.to_multiset(),
    ensures
        best_after(start, a, a.len()) == best_after(start, b, b.len()),
{
    broadcast use vstd::seq_lib::group_to_multiset_ensures;

    lemma_best_after_is_minimum(start, a, a.len());
    lemma_best_after_is_minimum(start, b, b.len());
    let x = best_after(start, a, a.len());
    let y = best_after(start, b, b.len());
    if x != start {
        let i = choose|i: int| 0 <= i < a.len() && x == a[i];
        assert(a.to_multiset().count(a[i]) > 0);
        assert(b.contains(a[i]));
    }
    if y != start {
        let j = choose|j: int| 0 <= j < b.len() && y == b[j];
        assert(b.to_multiset().count(b[j]) > 0);
        assert(a.contains(b[j]));
    }
}

/// The score held after the first `len` of `proposals` when each proposer
/// first looks at a copy of the score, `seen`, and reports only what is
/// below that copy.
pub open spec fn best_after_looks(start: u64, proposals: Seq<u64>, seen: Seq<u64>, len: nat) -> u64
    decreases len,
{
    if len == 0 {
        start
    } else {
        let held = best_after_looks(start, proposals, seen, (len - 1) as nat);
        if proposals[len - 1] < seen[len - 1] {
            best_of(held, proposals[len - 1])
        } else {
            held
        }
    }
}

/// No update is lost to a copy of the score that is out of date: where every
/// copy looked at shows a score that the cell held then or before, and so
/// one not below what it holds, the cell ends with the same score as if
/// every proposal had been reported.
pub proof fn lemma_stale_looks_lose_nothing(
    start: u64,
    proposals: Seq<u64>,
    seen: Seq<u64>,
    len: nat,
)
    requires
        len <= proposals.len(),
        proposals.len() == seen.len(),
        forall|i: int|
            0 <= i < len ==> (#[trigger] seen[i]) >= best_after_looks(
                start,
                proposals,
                seen,
                i as nat,
            ),
    ensures
        best_after_looks(start, proposals, seen, len) == best_after(start, proposals, len),
    decreases len,
{
    if len > 0 {
        lemma_stale_looks_lose_nothing(start, proposals, seen, (len - 1) as nat);
        assert(seen[len - 1] >= best_after_looks(start, proposals, seen, (len - 1) as nat));
    }
}

} // verus!
