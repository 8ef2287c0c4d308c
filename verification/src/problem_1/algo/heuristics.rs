//! Scoring of a job order and the two constructions of a first solution.

use crate::problem_1::algo::sorting::{lemma_sort_payloads, payloads, sort_by_key, stable_sort};
use crate::problem_1::algo::bounds::BoundingStrategy;
use crate::problem_1::models::{
    all_jobs, finish_time, is_permutation, last_of, lemma_cost_bounds,
    lemma_rearranged_is_permutation, lemma_within_limits, makespan, order_valid, prefix_cost,
    setup, step_from, table_wf, total_cost, Instance, Solution, Task, MAX_JOBS, STEP,
};
use vstd::prelude::*;

verus! {

/// Cost and makespan of `sequence`, which may be partial and may repeat jobs.
pub fn calculate_score(tasks: &Vec<Task>, sequence: &Vec<usize>) -> (r: (u64, u128))
    requires
        table_wf(tasks@),
        order_valid(tasks@, sequence@),
        sequence.len() <= MAX_JOBS,
    ensures
        r.0 == total_cost(tasks@, sequence@),
        r.1 == makespan(tasks@, sequence@),
{
    let mut total_cost: u64 = 0;
    let mut last_completion_time: u64 = 0;
    let mut last_task: Option<usize> = None;
    let mut i: usize = 0;
    while i < sequence.len()
        invariant
            table_wf(tasks@),
            order_valid(tasks@, sequence@),
            sequence.len() <= MAX_JOBS,
            i <= sequence.len(),
            total_cost == prefix_cost(tasks@, sequence@, i as nat),
            last_completion_time == finish_time(tasks@, sequence@, i as nat),
            last_task == last_of(sequence@, i as nat),
        decreases sequence.len() - i,
    {
        let job: usize = sequence[i];
        proof {
            lemma_cost_bounds(tasks@, sequence@, i as nat);
            lemma_cost_bounds(tasks@, sequence@, (i + 1) as nat);
            lemma_within_limits((i + 1) as nat);
            lemma_within_limits(i as nat);
        }
        let completion_time: u64 = step_from(tasks, last_task, last_completion_time, job);
        total_cost = total_cost + completion_time;
        last_completion_time = completion_time;
        last_task = Some(job);
        i = i + 1;
    }
    (total_cost, last_completion_time as u128)
}

/// Where a job could go and what the order would then cost.
#[derive(Debug, Clone, Copy, PartialEq, Eq, Structural)]
pub struct Insertion {
    pub cost: u64,
    /// Index of the job among the unscheduled ones.
    pub task_index: usize,
    /// Position in the order at which it would be inserted.
    pub position: usize,
}

/// Cost of `seq` with the unscheduled job at `task_index` inserted at
/// `position`.
pub open spec fn insertion_cost(
    tasks: Seq<Task>,
    seq: Seq<usize>,
    unscheduled: Seq<usize>,
    task_index: int,
    position: int,
) -> int {
    total_cost(tasks, seq.insert(position, unscheduled[task_index]))
}

/// The cheaper of `start` and the insertions of one job at the first `count`
/// positions; an earlier candidate wins a tie.
pub open spec fn scan_positions(
    tasks: Seq<Task>,
    seq: Seq<usize>,
    unscheduled: Seq<usize>,
    task_index: int,
    start: Insertion,
    count: nat,
) -> Insertion
    decreases count,
{
    if count == 0 {
        start
    } else {
        let best = scan_positions(tasks, seq, unscheduled, task_index, start, (count - 1) as nat);
        let cost = insertion_cost(tasks, seq, unscheduled, task_index, count - 1);
        if 0 <= cost < best.cost {
            Insertion {
                cost: cost as u64,
                task_index: task_index as usize,
                position: (count - 1) as usize,
            }
        } else {
            best
        }
    }
}

/// The cheapest insertion of any of the first `count` unscheduled jobs at any
/// position of `seq`; the first one found wins a tie.
pub open spec fn scan_jobs(
    tasks: Seq<Task>,
    seq: Seq<usize>,
    unscheduled: Seq<usize>,
    count: nat,
) -> Insertion
    decreases count,
{
    if count == 0 {
        Insertion { cost: u64::MAX, task_index: 0, position: 0 }
    } else {
        scan_positions(
            tasks,
            seq,
            unscheduled,
            count - 1,
            scan_jobs(tasks, seq, unscheduled, (count - 1) as nat),
            seq.len() + 1,
        )
    }
}

/// The order that best insertion builds from `seq` by placing the jobs of
/// `unscheduled` one at a time, each time the cheapest insertion there is.
pub open spec fn insertion_result(
    tasks: Seq<Task>,
    seq: Seq<usize>,
    unscheduled: Seq<usize>,
) -> Seq<usize>
    decreases unscheduled.len(),
{
    if unscheduled.len() == 0 {
        seq
    } else {
        let best = scan_jobs(tasks, seq, unscheduled, unscheduled.len());
        if best.task_index < unscheduled.len() {
            insertion_result(
                tasks,
                seq.insert(best.position as int, unscheduled[best.task_index as int]),
                unscheduled.remove(best.task_index as int),
            )
        } else {
            seq
        }
    }
}

/// All jobs, each keyed by its ready time.
pub open spec fn by_ready(tasks: Seq<Task>) -> Seq<(u64, usize)> {
    Seq::new(tasks.len(), |i: int| (tasks[i].ready_time as u64, i as usize))
}

/// The order that best insertion builds for `tasks`: it starts from the job
/// that is ready first and takes the others in order of ready time.
pub open spec fn insertion_order(tasks: Seq<Task>) -> Seq<usize> {
    if tasks.len() == 0 {
        Seq::empty()
    } else {
        let sorted = payloads(stable_sort(by_ready(tasks)));
        insertion_result(tasks, seq![sorted[0]], sorted.remove(0))
    }
}

/// The insertion of job `ti` at position `pos` is tried before that of job
/// `a` at position `b`.
pub open spec fn tried_before(ti: int, pos: int, a: int, b: int) -> bool {
    ti < a || (ti == a && pos < b)
}

/// Every insertion of an unscheduled job into `seq` leads to a cost that
/// fits.
pub open spec fn costs_fit(tasks: Seq<Task>, seq: Seq<usize>, unscheduled: Seq<usize>) -> bool {
    forall|ti: int, pos: int|
        0 <= ti < unscheduled.len() && 0 <= pos <= seq.len() ==> 0 <= #[trigger] insertion_cost(
            tasks,
            seq,
            unscheduled,
            ti,
            pos,
        ) < u64::MAX
}

/// `best` is the cheapest of the insertions tried before that of job `a` at
/// position `b`, and of equally cheap ones the first tried; with none tried
/// it is the start of the scan.
pub open spec fn least_of_tried(
    tasks: Seq<Task>,
    seq: Seq<usize>,
    unscheduled: Seq<usize>,
    best: Insertion,
    a: int,
    b: int,
) -> bool {
    if a <= 0 && b <= 0 {
        best == (Insertion { cost: u64::MAX, task_index: 0, position: 0 })
    } else {
        &&& tried_before(best.task_index as int, best.position as int, a, b)
        &&& best.position <= seq.len()
        &&& best.cost == insertion_cost(
            tasks,
            seq,
            unscheduled,
            best.task_index as int,
            best.position as int,
        )
        &&& forall|ti: int, pos: int|
            0 <= ti && 0 <= pos <= seq.len() && tried_before(ti, pos, a, b) ==> best.cost
                <= #[trigger] insertion_cost(tasks, seq, unscheduled, ti, pos)
        &&& forall|ti: int, pos: int|
            0 <= ti && 0 <= pos <= seq.len() && tried_before(
                ti,
                pos,
                best.task_index as int,
                best.position as int,
            ) ==> best.cost < #[trigger] insertion_cost(tasks, seq, unscheduled, ti, pos)
    }
}

/// A scan over the positions of one job keeps the cheapest insertion tried,
/// the first of equally cheap ones.
proof fn lemma_scan_positions_least(
    tasks: Seq<Task>,
    seq: Seq<usize>,
    unscheduled: Seq<usize>,
    task_index: int,
    start: Insertion,
    count: nat,
)
    requires
        costs_fit(tasks, seq, unscheduled),
        0 <= task_index < unscheduled.len() <= usize::MAX,
        seq.len() < usize::MAX,
        count <= seq.len() + 1,
        least_of_tried(tasks, seq, unscheduled, start, task_index, 0),
    ensures
        least_of_tried(
            tasks,
            seq,
            unscheduled,
            scan_positions(tasks, seq, unscheduled, task_index, start, count),
            task_index,
            count as int,
        ),
    decreases count,
{
    if count > 0 {
        lemma_scan_positions_least(
            tasks,
            seq,
            unscheduled,
            task_index,
            start,
            (count - 1) as nat,
        );
        let held = scan_positions(tasks, seq, unscheduled, task_index, start, (count - 1) as nat);
        let cost = insertion_cost(tasks, seq, unscheduled, task_index, count - 1);
        assert(0 <= cost < u64::MAX);
    }
}

/// A scan over jobs and positions ends with the cheapest insertion there
/// is, the first of equally cheap ones.
proof fn lemma_scan_jobs_least(
    tasks: Seq<Task>,
    seq: Seq<usize>,
    unscheduled: Seq<usize>,
    count: nat,
)
    requires
        costs_fit(tasks, seq, unscheduled),
        count <= unscheduled.len() <= usize::MAX,
        seq.len() < usize::MAX,
    ensures
        least_of_tried(
            tasks,
            seq,
            unscheduled,
            scan_jobs(tasks, seq, unscheduled, count),
            count as int,
            0,
        ),
    decreases count,
{
    if count > 0 {
        lemma_scan_jobs_least(tasks, seq, unscheduled, (count - 1) as nat);
        let start = scan_jobs(tasks, seq, unscheduled, (count - 1) as nat);
        assert(least_of_tried(tasks, seq, unscheduled, start, count - 1, 0));
        lemma_scan_positions_least(tasks, seq, unscheduled, count - 1, start, seq.len() + 1);
        let best = scan_positions(tasks, seq, unscheduled, count - 1, start, seq.len() + 1);
        assert(least_of_tried(tasks, seq, unscheduled, best, count - 1, (seq.len() + 1) as int));
        assert forall|ti: int, pos: int|
            0 <= ti && 0 <= pos <= seq.len() implies tried_before(ti, pos, count as int, 0)
            == tried_before(ti, pos, count - 1, (seq.len() + 1) as int) by {}
    }
}

/// `best` is the cheapest way to insert one of `unscheduled` into `seq`: it
/// is one of the insertions, none costs less, and every insertion tried
/// before it, going through the jobs and for each the positions, costs
/// more.
pub open spec fn is_best_insertion(
    tasks: Seq<Task>,
    seq: Seq<usize>,
    unscheduled: Seq<usize>,
    best: Insertion,
) -> bool {
    &&& best.task_index < unscheduled.len()
    &&& best.position <= seq.len()
    &&& best.cost == insertion_cost(
        tasks,
        seq,
        unscheduled,
        best.task_index as int,
        best.position as int,
    )
    &&& forall|ti: int, pos: int|
        0 <= ti < unscheduled.len() && 0 <= pos <= seq.len() ==> best.cost
            <= #[trigger] insertion_cost(tasks, seq, unscheduled, ti, pos)
    &&& forall|ti: int, pos: int|
        0 <= ti && 0 <= pos <= seq.len() && tried_before(
            ti,
            pos,
            best.task_index as int,
            best.position as int,
        ) ==> best.cost < #[trigger] insertion_cost(tasks, seq, unscheduled, ti, pos)
}

/// What the scan over jobs and positions computes is the cheapest insertion
/// there is, and of equally cheap ones the first.
pub proof fn lemma_scan_is_best_insertion(
    tasks: Seq<Task>,
    seq: Seq<usize>,
    unscheduled: Seq<usize>,
)
    requires
        costs_fit(tasks, seq, unscheduled),
        0 < unscheduled.len() <= usize::MAX,
        seq.len() < usize::MAX,
    ensures
        is_best_insertion(
            tasks,
            seq,
            unscheduled,
            scan_jobs(tasks, seq, unscheduled, unscheduled.len()),
        ),
{
    lemma_scan_jobs_least(tasks, seq, unscheduled, unscheduled.len());
    let best = scan_jobs(tasks, seq, unscheduled, unscheduled.len());
    assert forall|ti: int, pos: int|
        0 <= ti < unscheduled.len() && 0 <= pos <= seq.len() implies best.cost
        <= #[trigger] insertion_cost(tasks, seq, unscheduled, ti, pos) by {
        assert(tried_before(ti, pos, unscheduled.len() as int, 0));
    }
}

/// A scan returns its start or a candidate it has seen.
proof fn lemma_scan_in_range(
    tasks: Seq<Task>,
    seq: Seq<usize>,
    unscheduled: Seq<usize>,
    count: nat,
)
    requires
        0 < unscheduled.len() <= usize::MAX,
        seq.len() < usize::MAX,
        count <= unscheduled.len(),
    ensures
        scan_jobs(tasks, seq, unscheduled, count).task_index < unscheduled.len(),
        scan_jobs(tasks, seq, unscheduled, count).position <= seq.len(),
    decreases count,
{
    if count > 0 {
        lemma_scan_in_range(tasks, seq, unscheduled, (count - 1) as nat);
        lemma_scan_positions_in_range(
            tasks,
            seq,
            unscheduled,
            count - 1,
            scan_jobs(tasks, seq, unscheduled, (count - 1) as nat),
            seq.len() + 1,
        );
    }
}

/// A scan over positions returns its start or a candidate it has seen.
proof fn lemma_scan_positions_in_range(
    tasks: Seq<Task>,
    seq: Seq<usize>,
    unscheduled: Seq<usize>,
    task_index: int,
    start: Insertion,
    count: nat,
)
    requires
        0 <= task_index < unscheduled.len() <= usize::MAX,
        seq.len() < usize::MAX,
        count <= seq.len() + 1,
        start.task_index < unscheduled.len(),
        start.position <= seq.len(),
    ensures
        scan_positions(tasks, seq, unscheduled, task_index, start, count).task_index
            < unscheduled.len(),
        scan_positions(tasks, seq, unscheduled, task_index, start, count).position <= seq.len(),
    decreases count,
{
    if count > 0 {
        lemma_scan_positions_in_range(
            tasks,
            seq,
            unscheduled,
            task_index,
            start,
            (count - 1) as nat,
        );
    }
}

/// Best insertion: start from the job that is ready first, then again and
/// again insert the job, at the position, that leaves the cheapest order.
pub fn heuristic_insertion(instance: &Instance, solution: &mut Solution)
    requires
        instance.wf(),
    ensures
        final(solution).tasks@ == insertion_order(instance.tasks@),
        is_permutation(final(solution).tasks@, instance.tasks@.len()),
        final(solution).score == old(solution).score,
        final(solution).duration == old(solution).duration,
{
    let tasks = &instance.tasks;
    let n: usize = tasks.len();
    let mut seq: Vec<usize> = Vec::new();
    if n == 0 {
        solution.tasks = seq;
        return ;
    }
    let ghost keyed_all = by_ready(tasks@);
    let mut keyed: Vec<(u64, usize)> = Vec::new();
    let mut i: usize = 0;
    while i < n
        invariant
            i <= n,
            n == tasks@.len(),
            keyed_all == by_ready(tasks@),
            keyed@ == keyed_all.take(i as int),
        decreases n - i,
    {
        keyed.push((tasks[i].ready_time as u64, i));
        proof {
            assert(keyed@ =~= keyed_all.take(i + 1));
        }
        i = i + 1;
    }
    proof {
        assert(keyed@ =~= keyed_all);
    }
    sort_by_key(&mut keyed);
    let ghost sorted = payloads(keyed@);
    let mut unscheduled: Vec<usize> = Vec::new();
    let mut i: usize = 0;
    while i < keyed.len()
        invariant
            i <= keyed@.len(),
            sorted == payloads(keyed@),
            unscheduled@ == sorted.take(i as int),
        decreases keyed@.len() - i,
    {
        unscheduled.push(keyed[i].1);
        proof {
            assert(unscheduled@ =~= sorted.take(i + 1));
        }
        i = i + 1;
    }
    proof {
        broadcast use vstd::seq_lib::group_to_multiset_ensures;

        assert(unscheduled@ =~= sorted);
        lemma_sort_payloads(keyed_all);
        crate::problem_1::algo::sorting::lemma_stable_sort(keyed_all);
        assert(payloads(keyed_all) =~= all_jobs(n as nat));
        assert(seq@.push(sorted[0]) =~= seq![sorted[0]]);
        assert(seq![sorted[0]].to_multiset().add(sorted.remove(0).to_multiset()) =~= sorted.to_multiset());
    }
    let first_task: usize = unscheduled.remove(0);
    seq.push(first_task);
    while unscheduled.len() > 0
        invariant
            instance.wf(),
            tasks@ == instance.tasks@,
            n == tasks@.len(),
            seq@.to_multiset().add(unscheduled@.to_multiset()) == all_jobs(n as nat).to_multiset(),
            insertion_result(tasks@, seq@, unscheduled@) == insertion_order(tasks@),
        decreases unscheduled@.len(),
    {
        proof {
            lemma_split_in_range(seq@, unscheduled@, n as nat);
        }
        let best: Insertion = best_insertion(tasks, &seq, &unscheduled);
        let ghost seq_before = seq@;
        let ghost unscheduled_before = unscheduled@;
        let chosen_task: usize = unscheduled.remove(best.task_index);
        seq.insert(best.position, chosen_task);
        proof {
            vstd::seq_lib::to_multiset_insert(seq_before, best.position as int, chosen_task);
            vstd::seq_lib::to_multiset_remove(unscheduled_before, best.task_index as int);
            assert(unscheduled_before.to_multiset().count(chosen_task) > 0) by {
                broadcast use vstd::seq_lib::group_to_multiset_ensures;

                assert(unscheduled_before.contains(chosen_task));
            }
            assert(seq@.to_multiset().add(unscheduled@.to_multiset())
                =~= seq_before.to_multiset().add(unscheduled_before.to_multiset()));
        }
    }
    proof {
        assert(unscheduled@.to_multiset() =~= vstd::multiset::Multiset::empty()) by {
            broadcast use vstd::seq_lib::group_to_multiset_ensures;

            assert(unscheduled@ =~= Seq::empty());
        }
        assert(seq@.to_multiset().add(vstd::multiset::Multiset::empty()) =~= seq@.to_multiset());
        lemma_rearranged_is_permutation(seq@, n as nat);
    }
    solution.tasks = seq;
}

/// When `seq` and `unscheduled` together hold all the jobs, each is made of
/// valid ids and they are `n` in all.
pub proof fn lemma_split_in_range(seq: Seq<usize>, unscheduled: Seq<usize>, n: nat)
    requires
        seq.to_multiset().add(unscheduled.to_multiset()) == all_jobs(n).to_multiset(),
    ensures
        seq.len() + unscheduled.len() == n,
        forall|i: int| 0 <= i < seq.len() ==> (#[trigger] seq[i]) < n,
        forall|i: int| 0 <= i < unscheduled.len() ==> (#[trigger] unscheduled[i]) < n,
{
    broadcast use vstd::seq_lib::group_to_multiset_ensures;

    let all = all_jobs(n);
    let both = seq.to_multiset().add(unscheduled.to_multiset());
    assert(seq.len() == seq.to_multiset().len());
    assert(unscheduled.len() == unscheduled.to_multiset().len());
    assert(all.len() == all.to_multiset().len());
    assert forall|i: int| 0 <= i < seq.len() implies (#[trigger] seq[i]) < n by {
        assert(seq.to_multiset().count(seq[i]) > 0);
        assert(both.count(seq[i]) > 0);
        assert(all.contains(seq[i]));
    }
    assert forall|i: int| 0 <= i < unscheduled.len() implies (#[trigger] unscheduled[i]) < n by {
        assert(unscheduled.to_multiset().count(unscheduled[i]) > 0);
        assert(both.count(unscheduled[i]) > 0);
        assert(all.contains(unscheduled[i]));
    }
}

/// The cheapest way to insert one of `unscheduled` into `seq`; among equally
/// cheap ways the first, going through the jobs and, for each, the positions.
pub fn best_insertion(tasks: &Vec<Task>, seq: &Vec<usize>, unscheduled: &Vec<usize>) -> (best:
    Insertion)
    requires
        table_wf(tasks@),
        order_valid(tasks@, seq@),
        order_valid(tasks@, unscheduled@),
        seq@.len() < MAX_JOBS,
        unscheduled@.len() > 0,
    ensures
        best == scan_jobs(tasks@, seq@, unscheduled@, unscheduled@.len()),
        best.task_index < unscheduled@.len(),
        best.position <= seq@.len(),
        is_best_insertion(tasks@, seq@, unscheduled@, best),
{
    let mut best = Insertion { cost: u64::MAX, task_index: 0, position: 0 };
    let mut task_idx: usize = 0;
    while task_idx < unscheduled.len()
        invariant
            task_idx <= unscheduled@.len(),
            table_wf(tasks@),
            order_valid(tasks@, seq@),
            order_valid(tasks@, unscheduled@),
            seq@.len() < MAX_JOBS,
            best == scan_jobs(tasks@, seq@, unscheduled@, task_idx as nat),
        decreases unscheduled@.len() - task_idx,
    {
        let task_to_insert: usize = unscheduled[task_idx];
        let ghost start = best;
        let mut pos: usize = 0;
        while pos <= seq.len()
            invariant
                pos <= seq@.len() + 1,
                task_idx < unscheduled@.len(),
                task_to_insert == unscheduled@[task_idx as int],
                table_wf(tasks@),
                order_valid(tasks@, seq@),
                order_valid(tasks@, unscheduled@),
                seq@.len() < MAX_JOBS,
                best == scan_positions(
                    tasks@,
                    seq@,
                    unscheduled@,
                    task_idx as int,
                    start,
                    pos as nat,
                ),
            decreases seq@.len() + 1 - pos,
        {
            let mut temp_sequence: Vec<usize> = seq.clone();
            temp_sequence.insert(pos, task_to_insert);
            assert(temp_sequence@ == seq@.insert(pos as int, task_to_insert));
            assert(unscheduled@[task_idx as int] < tasks@.len());
            let (cost, _duration) = calculate_score(tasks, &temp_sequence);
            if cost < best.cost {
                best = Insertion { cost, task_index: task_idx, position: pos };
            }
            pos = pos + 1;
        }
        task_idx = task_idx + 1;
    }
    proof {
        lemma_scan_in_range(tasks@, seq@, unscheduled@, unscheduled@.len());
        assert forall|ti: int, pos: int|
            0 <= ti < unscheduled@.len() && 0 <= pos <= seq@.len() implies 0
            <= #[trigger] insertion_cost(tasks@, seq@, unscheduled@, ti, pos) < u64::MAX by {
            let tried = seq@.insert(pos, unscheduled@[ti]);
            assert(unscheduled@[ti] < tasks@.len());
            assert(order_valid(tasks@, tried));
            lemma_cost_bounds(tasks@, tried, tried.len());
            lemma_within_limits(tried.len());
        }
        lemma_scan_is_best_insertion(tasks@, seq@, unscheduled@);
    }
    best
}

/// Job `job` is not among the first `len` of `order`.
pub open spec fn unplaced(order: Seq<usize>, len: int, job: usize) -> bool {
    forall|i: int| 0 <= i < len ==> order[i] != job
}

/// The clock of the priority rule after the first `len` jobs of `order`: a
/// job starts its setup when the machine is free and the job is ready.
pub open spec fn acts_clock(tasks: Seq<Task>, order: Seq<usize>, len: nat) -> int
    decreases len,
{
    if len == 0 {
        0
    } else {
        let job = order[len - 1] as int;
        let before = acts_clock(tasks, order, (len - 1) as nat);
        let ready = tasks[job].ready_time as int;
        let wake = if before >= ready {
            before
        } else {
            ready
        };
        let change = match last_of(order, (len - 1) as nat) {
            Some(l) => setup(tasks, l as int, job),
            None => 0,
        };
        wake + change + tasks[job].processing_time
    }
}

/// `a` comes before `b` when no job is ready: it is ready earlier, or as
/// early and shorter, or as early and as short with the lower id.
pub open spec fn wakes_before(tasks: Seq<Task>, a: int, b: int) -> bool {
    let (ra, rb) = (tasks[a].ready_time, tasks[b].ready_time);
    let (pa, pb) = (tasks[a].processing_time, tasks[b].processing_time);
    ra < rb || (ra == rb && (pa < pb || (pa == pb && a <= b)))
}

/// The job at position `k` of `order` was a legitimate choice of the
/// priority rule: a job that was ready on the rule's clock, or, when none
/// was, the one that comes first among those left.
pub open spec fn acts_choice(tasks: Seq<Task>, order: Seq<usize>, k: int) -> bool {
    let now = acts_clock(tasks, order, k as nat);
    let job = order[k];
    if exists|j: usize|
        j < tasks.len() && unplaced(order, k, j) && (#[trigger] tasks[j as int]).ready_time
            <= now {
        tasks[job as int].ready_time <= now
    } else {
        forall|j: usize|
            j < tasks.len() && #[trigger] unplaced(order, k, j) ==> wakes_before(
                tasks,
                job as int,
                j as int,
            )
    }
}

/// Whether a job is among the first `len` of an order depends on those alone.
pub proof fn lemma_unplaced_prefix(a: Seq<usize>, b: Seq<usize>, len: int, job: usize)
    requires
        len <= a.len(),
        len <= b.len(),
        forall|i: int| 0 <= i < len ==> a[i] == b[i],
    ensures
        unplaced(a, len, job) == unplaced(b, len, job),
{
    if unplaced(a, len, job) {
        assert forall|i: int| 0 <= i < len implies b[i] != job by {
            assert(a[i] != job);
        }
    }
    if unplaced(b, len, job) {
        assert forall|i: int| 0 <= i < len implies a[i] != job by {
            assert(b[i] != job);
        }
    }
}

/// The rule's clock and choices over a prefix depend on that prefix alone.
pub proof fn lemma_acts_prefix(tasks: Seq<Task>, a: Seq<usize>, b: Seq<usize>, len: nat)
    requires
        len <= a.len(),
        len <= b.len(),
        forall|i: int| 0 <= i < len ==> a[i] == b[i],
    ensures
        acts_clock(tasks, a, len) == acts_clock(tasks, b, len),
        forall|k: int| 0 <= k < len ==> acts_choice(tasks, a, k) == acts_choice(tasks, b, k),
    decreases len,
{
    if len > 0 {
        lemma_acts_prefix(tasks, a, b, (len - 1) as nat);
        let k = len - 1;
        assert forall|j: usize| unplaced(a, k, j) == unplaced(b, k, j) by {
            lemma_unplaced_prefix(a, b, k, j);
        }
        assert(acts_choice(tasks, a, k) == acts_choice(tasks, b, k));
    }
}

/// The rule's clock stays within twice the limit of the cost model.
pub proof fn lemma_acts_clock_bounds(tasks: Seq<Task>, order: Seq<usize>, len: nat)
    requires
        table_wf(tasks),
        order_valid(tasks, order),
        len <= order.len(),
    ensures
        0 <= acts_clock(tasks, order, len) <= 2 * len * STEP,
    decreases len,
{
    if len > 0 {
        lemma_acts_clock_bounds(tasks, order, (len - 1) as nat);
        assert(order[len - 1] < tasks.len());
        if len > 1 {
            assert(order[len - 2] < tasks.len());
            assert(tasks[order[len - 2] as int].switch_time@.len() == tasks.len());
        }
        assert(2 * (len - 1) * STEP + 2 * STEP == 2 * len * STEP) by (nonlinear_arith);
    }
}

/// Positions among the first `len` jobs of `left`, ascending, of the jobs
/// that are ready at `now`.
pub open spec fn ready_list(tasks: Seq<Task>, left: Seq<usize>, now: int, len: nat) -> Seq<usize>
    decreases len,
{
    if len == 0 {
        Seq::empty()
    } else {
        let before = ready_list(tasks, left, now, (len - 1) as nat);
        if tasks[left[len - 1] as int].ready_time <= now {
            before.push((len - 1) as usize)
        } else {
            before
        }
    }
}

/// Position among the first `len` jobs of `left` of the one that is ready
/// first, the shortest of several, the first listed of equally short ones.
pub open spec fn first_to_wake(tasks: Seq<Task>, left: Seq<usize>, len: nat) -> usize
    decreases len,
{
    if len <= 1 {
        0
    } else {
        let at = first_to_wake(tasks, left, (len - 1) as nat);
        let job = tasks[left[len - 1] as int];
        let held = tasks[left[at as int] as int];
        if job.ready_time < held.ready_time || (job.ready_time == held.ready_time
            && job.processing_time < held.processing_time) {
            (len - 1) as usize
        } else {
            at
        }
    }
}

/// Positions in `unscheduled`, ascending, of exactly the jobs that are ready
/// at `now`.
pub fn ready_positions(tasks: &Vec<Task>, unscheduled: &Vec<usize>, now: u64) -> (ready: Vec<
    usize,
>)
    requires
        order_valid(tasks@, unscheduled@),
    ensures
        forall|i: int|
            0 <= i < ready@.len() ==> (#[trigger] ready@[i]) < unscheduled@.len()
                && tasks@[unscheduled@[ready@[i] as int] as int].ready_time <= now,
        forall|i: int, j: int| 0 <= i < j < ready@.len() ==> ready@[i] < ready@[j],
        forall|k: int|
            0 <= k < unscheduled@.len() && tasks@[(#[trigger] unscheduled@[k]) as int].ready_time
                <= now ==> ready@.contains(k as usize),
        ready@ == ready_list(tasks@, unscheduled@, now as int, unscheduled@.len()),
{
    let mut ready: Vec<usize> = Vec::new();
    let mut k: usize = 0;
    while k < unscheduled.len()
        invariant
            k <= unscheduled@.len(),
            order_valid(tasks@, unscheduled@),
            ready@ == ready_list(tasks@, unscheduled@, now as int, k as nat),
            forall|i: int|
                0 <= i < ready@.len() ==> (#[trigger] ready@[i]) < k
                    && tasks@[unscheduled@[ready@[i] as int] as int].ready_time <= now,
            forall|i: int, j: int| 0 <= i < j < ready@.len() ==> ready@[i] < ready@[j],
            forall|p: int|
                0 <= p < k && tasks@[(#[trigger] unscheduled@[p]) as int].ready_time <= now
                    ==> ready@.contains(p as usize),
        decreases unscheduled@.len() - k,
    {
        let job: usize = unscheduled[k];
        assert(unscheduled@[k as int] < tasks@.len());
        if tasks[job].ready_time as u64 <= now {
            let ghost before = ready@;
            ready.push(k);
            proof {
                assert forall|p: int|
                    0 <= p < k + 1 && tasks@[(#[trigger] unscheduled@[p]) as int].ready_time
                        <= now implies ready@.contains(p as usize) by {
                    if p < k {
                        let i = choose|i: int| 0 <= i < before.len() && before[i] == p as usize;
                        assert(ready@[i] == p as usize);
                    } else {
                        assert(ready@[ready@.len() - 1] == k);
                    }
                }
            }
        }
        k = k + 1;
    }
    ready
}

/// Position in `unscheduled`, a list of ascending ids, of the job that comes
/// first when none is ready.
pub fn earliest_shortest(tasks: &Vec<Task>, unscheduled: &Vec<usize>) -> (at: usize)
    requires
        order_valid(tasks@, unscheduled@),
        unscheduled@.len() > 0,
        forall|i: int, j: int| 0 <= i < j < unscheduled@.len() ==> unscheduled@[i] < unscheduled@[j],
    ensures
        at < unscheduled@.len(),
        forall|k: int|
            0 <= k < unscheduled@.len() ==> wakes_before(
                tasks@,
                unscheduled@[at as int] as int,
                (#[trigger] unscheduled@[k]) as int,
            ),
        at == first_to_wake(tasks@, unscheduled@, unscheduled@.len()),
{
    let mut at: usize = 0;
    let mut k: usize = 1;
    assert(unscheduled@[0] < tasks@.len());
    while k < unscheduled.len()
        invariant
            1 <= k <= unscheduled@.len(),
            at < k,
            at == first_to_wake(tasks@, unscheduled@, k as nat),
            order_valid(tasks@, unscheduled@),
            forall|i: int, j: int|
                0 <= i < j < unscheduled@.len() ==> unscheduled@[i] < unscheduled@[j],
            forall|i: int|
                0 <= i < k ==> wakes_before(
                    tasks@,
                    unscheduled@[at as int] as int,
                    (#[trigger] unscheduled@[i]) as int,
                ),
        decreases unscheduled@.len() - k,
    {
        let job: usize = unscheduled[k];
        let held: usize = unscheduled[at];
        assert(unscheduled@[k as int] < tasks@.len());
        assert(unscheduled@[at as int] < tasks@.len());
        let (r, p) = (tasks[job].ready_time, tasks[job].processing_time);
        let (hr, hp) = (tasks[held].ready_time, tasks[held].processing_time);
        if r < hr || (r == hr && p < hp) {
            at = k;
        }
        k = k + 1;
    }
    at
}

/// What the priority rule faces at one step.
#[derive(Debug)]
pub enum Offer {
    /// Nothing to choose: the unscheduled job at this position is placed.
    Forced { at: usize },
    /// Several jobs are ready: their positions among the unscheduled ones
    /// and, for each, its processing time and the setup it would pay now.
    Choice { ready: Vec<usize>, candidates: Vec<(u32, u32)> },
}

/// Setup that `job` pays when it follows `last`; none when it comes first.
pub open spec fn setup_after(tasks: Seq<Task>, last: Option<usize>, job: int) -> int {
    match last {
        Some(l) => setup(tasks, l as int, job),
        None => 0,
    }
}

/// `offer` is what the rule faces when the jobs of `unscheduled` are left,
/// `last` was placed last and the clock shows `now`. Where no job is ready,
/// the one that comes first is forced; where one is, it is forced; where
/// several are, they are offered in the order in which they are listed.
pub open spec fn is_offer(
    tasks: Seq<Task>,
    unscheduled: Seq<usize>,
    last: Option<usize>,
    now: int,
    offer: Offer,
) -> bool {
    match offer {
        Offer::Forced { at } => {
            &&& at < unscheduled.len()
            &&& forall|k: int|
                0 <= k < unscheduled.len() && k != at ==> tasks[(
                #[trigger] unscheduled[k]) as int].ready_time > now
            &&& tasks[unscheduled[at as int] as int].ready_time > now ==> forall|k: int|
                0 <= k < unscheduled.len() ==> wakes_before(
                    tasks,
                    unscheduled[at as int] as int,
                    (#[trigger] unscheduled[k]) as int,
                )
        },
        Offer::Choice { ready, candidates } => {
            &&& ready@.len() >= 2
            &&& candidates@.len() == ready@.len()
            &&& forall|i: int|
                0 <= i < ready@.len() ==> (#[trigger] ready@[i]) < unscheduled.len()
                    && tasks[unscheduled[ready@[i] as int] as int].ready_time <= now
            &&& forall|i: int, j: int| 0 <= i < j < ready@.len() ==> ready@[i] < ready@[j]
            &&& forall|k: int|
                0 <= k < unscheduled.len() && tasks[(#[trigger] unscheduled[k]) as int].ready_time
                    <= now ==> ready@.contains(k as usize)
            &&& forall|i: int|
                0 <= i < ready@.len() ==> (#[trigger] candidates@[i]) == (
                    tasks[unscheduled[ready@[i] as int] as int].processing_time,
                    setup_after(tasks, last, unscheduled[ready@[i] as int] as int) as u32,
                )
        },
    }
}

/// What is offered for a choice: for each ready job, in the order in which
/// the jobs are listed, its processing time and the setup it would pay now.
pub open spec fn offered(
    tasks: Seq<Task>,
    left: Seq<usize>,
    last: Option<usize>,
    now: int,
) -> Seq<(u32, u32)> {
    let ready = ready_list(tasks, left, now, left.len());
    Seq::new(
        ready.len(),
        |i: int|
            (
                tasks[left[ready[i] as int] as int].processing_time,
                setup_after(tasks, last, left[ready[i] as int] as int) as u32,
            ),
    )
}

/// Position among the jobs left of the one that is placed when the answer
/// to the offer is `answer`: with no job ready the first to wake, with one
/// that one, with several the ready job at index `answer`, or the first
/// ready one where the index is out of range.
pub open spec fn position_taken(tasks: Seq<Task>, left: Seq<usize>, now: int, answer: usize) -> usize {
    let ready = ready_list(tasks, left, now, left.len());
    if ready.len() == 0 {
        first_to_wake(tasks, left, left.len())
    } else if ready.len() == 1 {
        ready[0]
    } else if answer < ready.len() {
        ready[answer as int]
    } else {
        ready[0]
    }
}

/// `offer` is exactly what the lists above say.
pub open spec fn exact_offer(
    tasks: Seq<Task>,
    left: Seq<usize>,
    last: Option<usize>,
    now: int,
    offer: Offer,
) -> bool {
    match offer {
        Offer::Forced { at } => ready_list(tasks, left, now, left.len()).len() <= 1 && at
            == position_taken(tasks, left, now, 0),
        Offer::Choice { ready, candidates } => ready@ == ready_list(tasks, left, now, left.len())
            && ready@.len() >= 2 && candidates@ == offered(tasks, left, last, now),
    }
}

/// Where the priority rule stands: the order built, the jobs left by
/// ascending id, its clock and the job placed last.
pub struct RuleState {
    pub seq: Seq<usize>,
    pub left: Seq<usize>,
    pub clock: int,
    pub last: Option<usize>,
}

/// The state after one step from `state` when the answer to the offer is
/// `answer`: the job at the position taken is placed, and it starts its
/// setup when the machine is free and the job is ready.
pub open spec fn rule_after(tasks: Seq<Task>, state: RuleState, answer: usize) -> RuleState {
    let at = position_taken(tasks, state.left, state.clock, answer) as int;
    let job = state.left[at];
    let ready = tasks[job as int].ready_time as int;
    let wake = if state.clock >= ready {
        state.clock
    } else {
        ready
    };
    RuleState {
        seq: state.seq.push(job),
        left: state.left.remove(at),
        clock: wake + setup_after(tasks, state.last, job as int)
            + tasks[job as int].processing_time,
        last: Some(job),
    }
}

/// The state after the first `len` steps from the empty order when the
/// answers to the offers are `answers`, one for each step.
pub open spec fn rule_run(tasks: Seq<Task>, answers: Seq<usize>, len: nat) -> RuleState
    decreases len,
{
    if len == 0 {
        RuleState { seq: Seq::empty(), left: all_jobs(tasks.len()), clock: 0, last: None }
    } else {
        rule_after(tasks, rule_run(tasks, answers, (len - 1) as nat), answers[len - 1])
    }
}

/// Where several jobs are ready in `state`, `answer` is what `pick` gave
/// when it was offered them.
pub open spec fn answered<F: Fn(&Vec<(u32, u32)>) -> usize>(
    pick: F,
    tasks: Seq<Task>,
    state: RuleState,
    answer: usize,
) -> bool {
    ready_list(tasks, state.left, state.clock, state.left.len()).len() >= 2 ==> exists|
        candidates: Vec<(u32, u32)>,
    | #[trigger]
        call_ensures(pick, (&candidates,), answer) && candidates@ == offered(
            tasks,
            state.left,
            state.last,
            state.clock,
        )
}

/// `order` is what the priority rule builds with the answers `answers`, and
/// every answer that mattered is one that `pick` gave to what it was
/// offered.
pub open spec fn follows_rule<F: Fn(&Vec<(u32, u32)>) -> usize>(
    pick: F,
    tasks: Seq<Task>,
    answers: Seq<usize>,
    order: Seq<usize>,
) -> bool {
    &&& answers.len() == tasks.len()
    &&& order == rule_run(tasks, answers, tasks.len()).seq
    &&& forall|k: int|
        0 <= k < tasks.len() ==> answered(
            pick,
            tasks,
            rule_run(tasks, answers, k as nat),
            #[trigger] answers[k],
        )
}

/// The state reached does not depend on later answers.
pub proof fn lemma_rule_run_prefix(tasks: Seq<Task>, a: Seq<usize>, b: Seq<usize>, len: nat)
    requires
        len <= a.len(),
        len <= b.len(),
        forall|i: int| 0 <= i < len ==> a[i] == b[i],
    ensures
        rule_run(tasks, a, len) == rule_run(tasks, b, len),
    decreases len,
{
    if len > 0 {
        lemma_rule_run_prefix(tasks, a, b, (len - 1) as nat);
    }
}

/// What the priority rule faces at one step.
pub fn acts_offer(tasks: &Vec<Task>, unscheduled: &Vec<usize>, last: Option<usize>, now: u64) -> (offer:
    Offer)
    requires
        table_wf(tasks@),
        order_valid(tasks@, unscheduled@),
        unscheduled@.len() > 0,
        forall|i: int, j: int| 0 <= i < j < unscheduled@.len() ==> unscheduled@[i] < unscheduled@[j],
        last matches Some(l) ==> l < tasks@.len(),
    ensures
        is_offer(tasks@, unscheduled@, last, now as int, offer),
        exact_offer(tasks@, unscheduled@, last, now as int, offer),
{
    let ready: Vec<usize> = ready_positions(tasks, unscheduled, now);
    let count: usize = unscheduled.len();
    if ready.len() == 0 {
        let at: usize = earliest_shortest(tasks, unscheduled);
        proof {
            assert forall|k: int| 0 <= k < unscheduled@.len() implies tasks@[(
            #[trigger] unscheduled@[k]) as int].ready_time > now by {
                if tasks@[unscheduled@[k] as int].ready_time <= now {
                    assert(ready@.contains(k as usize));
                }
            }
        }
        return Offer::Forced { at };
    }
    if ready.len() == 1 {
        let at: usize = ready[0];
        proof {
            assert forall|k: int| 0 <= k < unscheduled@.len() && k != at implies tasks@[(
            #[trigger] unscheduled@[k]) as int].ready_time > now by {
                if tasks@[unscheduled@[k] as int].ready_time <= now {
                    assert(ready@.contains(k as usize));
                    let i = choose|i: int| 0 <= i < ready@.len() && ready@[i] == k as usize;
                    assert(i == 0);
                    assert(ready@[0] == at);
                    assert(k < count);
                    assert(k == at);
                }
            }
        }
        return Offer::Forced { at };
    }
    let mut candidates: Vec<(u32, u32)> = Vec::new();
    let mut c: usize = 0;
    while c < ready.len()
        invariant
            c <= ready@.len(),
            table_wf(tasks@),
            order_valid(tasks@, unscheduled@),
            last matches Some(l) ==> l < tasks@.len(),
            forall|i: int| 0 <= i < ready@.len() ==> (#[trigger] ready@[i]) < unscheduled@.len(),
            candidates@.len() == c,
            forall|i: int|
                0 <= i < c ==> (#[trigger] candidates@[i]) == (
                    tasks@[unscheduled@[ready@[i] as int] as int].processing_time,
                    setup_after(tasks@, last, unscheduled@[ready@[i] as int] as int) as u32,
                ),
        decreases ready@.len() - c,
    {
        let job: usize = unscheduled[ready[c]];
        assert(unscheduled@[ready@[c as int] as int] < tasks@.len());
        let change: u32 = match last {
            Some(l) => {
                assert(tasks@[l as int].switch_time@.len() == tasks@.len());
                tasks[l].switch_time[job]
            },
            None => 0,
        };
        candidates.push((tasks[job].processing_time, change));
        c = c + 1;
    }
    proof {
        assert(candidates@ =~= offered(tasks@, unscheduled@, last, now as int));
    }
    Offer::Choice { ready, candidates }
}

/// One step of the priority rule, given the offer of the step and the
/// answer `picked` to it: places the job at the position that the answer
/// selects and moves the clock on.
pub fn acts_step(
    tasks: &Vec<Task>,
    seq: &mut Vec<usize>,
    unscheduled: &mut Vec<usize>,
    clock: &mut u64,
    last: &mut Option<usize>,
    offer: &Offer,
    picked: usize,
)
    requires
        table_wf(tasks@),
        order_valid(tasks@, old(unscheduled)@),
        *old(last) matches Some(l) ==> l < tasks@.len(),
        *old(clock) <= u64::MAX - 0x3_0000_0000,
        is_offer(tasks@, old(unscheduled)@, *old(last), *old(clock) as int, *offer),
        exact_offer(tasks@, old(unscheduled)@, *old(last), *old(clock) as int, *offer),
    ensures
        (RuleState {
            seq: final(seq)@,
            left: final(unscheduled)@,
            clock: *final(clock) as int,
            last: *final(last),
        }) == rule_after(
            tasks@,
            (RuleState {
                seq: old(seq)@,
                left: old(unscheduled)@,
                clock: *old(clock) as int,
                last: *old(last),
            }),
            picked,
        ),
        position_taken(tasks@, old(unscheduled)@, *old(clock) as int, picked) < old(
            unscheduled,
        )@.len(),
{
    let at: usize = match offer {
        Offer::Forced { at } => *at,
        Offer::Choice { ready, candidates: _ } => settle(ready, picked),
    };
    assert(at == position_taken(tasks@, unscheduled@, *clock as int, picked));
    let job: usize = unscheduled[at];
    assert(unscheduled@[at as int] < tasks@.len());
    let ready_time: u64 = tasks[job].ready_time as u64;
    let wake: u64 = if *clock >= ready_time {
        *clock
    } else {
        ready_time
    };
    let change: u64 = match *last {
        Some(l) => {
            assert(tasks@[l as int].switch_time@.len() == tasks@.len());
            tasks[l].switch_time[job] as u64
        },
        None => 0,
    };
    *clock = wake + change + tasks[job].processing_time as u64;
    *last = Some(job);
    unscheduled.remove(at);
    seq.push(job);
}

/// The position that an answer of `picked` selects from `ready`: the one at
/// that index, or the first where the index is out of range.
pub fn settle(ready: &Vec<usize>, picked: usize) -> (at: usize)
    requires
        ready@.len() > 0,
    ensures
        at == if picked < ready@.len() {
            ready@[picked as int]
        } else {
            ready@[0]
        },
{
    if picked < ready.len() {
        ready[picked]
    } else {
        ready[0]
    }
}

/// What holds of every state of the priority rule: the order built and the
/// jobs left hold every job once, the jobs left stand by ascending id, the
/// clock and the last job are those of the order built, and every job of
/// the order was a legitimate choice.
pub open spec fn rule_inv(tasks: Seq<Task>, state: RuleState) -> bool {
    &&& state.seq.to_multiset().add(state.left.to_multiset()) == all_jobs(
        tasks.len(),
    ).to_multiset()
    &&& forall|a: int, b: int| 0 <= a < b < state.left.len() ==> state.left[a] < state.left[b]
    &&& forall|j: usize|
        j < tasks.len() ==> (state.left.contains(j) <==> #[trigger] unplaced(
            state.seq,
            state.seq.len() as int,
            j,
        ))
    &&& state.clock == acts_clock(tasks, state.seq, state.seq.len())
    &&& state.last == last_of(state.seq, state.seq.len())
    &&& forall|k: int| 0 <= k < state.seq.len() ==> acts_choice(tasks, state.seq, k)
}

/// Whatever the answer, the position taken is one of the jobs left, and
/// where the job there is not ready, no job is, and it is the first to
/// wake.
proof fn lemma_position_taken(
    tasks: Seq<Task>,
    left: Seq<usize>,
    last: Option<usize>,
    now: int,
    offer: Offer,
    picked: usize,
)
    requires
        is_offer(tasks, left, last, now, offer),
        exact_offer(tasks, left, last, now, offer),
    ensures
        position_taken(tasks, left, now, picked) < left.len(),
        tasks[left[position_taken(tasks, left, now, picked) as int] as int].ready_time > now
            ==> forall|p: int|
            0 <= p < left.len() ==> tasks[(#[trigger] left[p]) as int].ready_time > now
                && wakes_before(
                tasks,
                left[position_taken(tasks, left, now, picked) as int] as int,
                left[p] as int,
            ),
{
    let at = position_taken(tasks, left, now, picked);
    match offer {
        Offer::Forced { at: forced } => {
            assert(at == forced);
        },
        Offer::Choice { ready, candidates } => {
            if picked < ready@.len() {
                assert(ready@[picked as int] < left.len());
            } else {
                assert(ready@[0] < left.len());
            }
        },
    }
}

/// Placing the job at a position that the rule may take keeps what holds of
/// every state.
proof fn lemma_rule_step(tasks: Seq<Task>, state: RuleState, at: usize, next: RuleState)
    requires
        table_wf(tasks),
        tasks.len() <= usize::MAX,
        rule_inv(tasks, state),
        at < state.left.len(),
        tasks[state.left[at as int] as int].ready_time > state.clock ==> forall|p: int|
            0 <= p < state.left.len() ==> tasks[(#[trigger] state.left[p]) as int].ready_time
                > state.clock && wakes_before(
                tasks,
                state.left[at as int] as int,
                state.left[p] as int,
            ),
        next.seq == state.seq.push(state.left[at as int]),
        next.left == state.left.remove(at as int),
        next.last == Some(state.left[at as int]),
        next.clock == (if state.clock >= tasks[state.left[at as int] as int].ready_time {
            state.clock
        } else {
            tasks[state.left[at as int] as int].ready_time as int
        }) + setup_after(tasks, state.last, state.left[at as int] as int)
            + tasks[state.left[at as int] as int].processing_time,
    ensures
        rule_inv(tasks, next),
{
    let n = tasks.len();
    let placed = state.seq;
    let left = state.left;
    let k = placed.len() as int;
    let job = left[at as int];
    let now = state.clock;
    let grown = next.seq;
    let shrunk = next.left;
    let idle = tasks[job as int].ready_time > now;
    lemma_split_in_range(placed, left, n);
    lemma_acts_prefix(tasks, placed, grown, placed.len());
    assert(left.contains(job));
    assert(unplaced(placed, k, job));
    assert forall|j: usize| unplaced(grown, k, j) == unplaced(placed, k, j) by {
        lemma_unplaced_prefix(placed, grown, k, j);
    }
    assert(acts_choice(tasks, grown, k)) by {
        assert(now == acts_clock(tasks, grown, k as nat));
        if idle {
            assert forall|j: usize| j < n && unplaced(grown, k, j) implies !((
            #[trigger] tasks[j as int]).ready_time <= now) && wakes_before(
                tasks,
                job as int,
                j as int,
            ) by {
                assert(unplaced(placed, k, j));
                assert(left.contains(j));
                let p = choose|p: int| 0 <= p < left.len() && left[p] == j;
                assert(left[p] == j);
            }
        } else {
            assert(tasks[job as int].ready_time <= now);
            assert(unplaced(grown, k, job));
        }
    }
    assert forall|j: usize| j < n implies (shrunk.contains(j) <==> #[trigger] unplaced(
        grown,
        k + 1,
        j,
    )) by {
        if shrunk.contains(j) {
            let p = choose|p: int| 0 <= p < shrunk.len() && shrunk[p] == j;
            if p < at {
                assert(left[p] == j);
            } else {
                assert(left[p + 1] == j);
            }
            assert(left.contains(j));
            assert(unplaced(placed, k, j));
            assert(j != job);
            assert(unplaced(grown, k + 1, j));
        }
        if unplaced(grown, k + 1, j) {
            assert(grown[k] != j);
            assert(unplaced(placed, k, j)) by {
                assert forall|i: int| 0 <= i < k implies placed[i] != j by {
                    assert(grown[i] != j);
                }
            }
            assert(left.contains(j));
            let p = choose|p: int| 0 <= p < left.len() && left[p] == j;
            if p < at {
                assert(shrunk[p] == j);
            } else {
                assert(shrunk[p - 1] == j);
            }
        }
    }
    vstd::seq_lib::to_multiset_remove(left, at as int);
    assert(left.to_multiset().count(job) > 0) by {
        broadcast use vstd::seq_lib::group_to_multiset_ensures;

    }
    assert(grown.to_multiset() =~= placed.to_multiset().insert(job)) by {
        broadcast use vstd::seq_lib::group_to_multiset_ensures;

    }
    assert(grown.to_multiset().add(shrunk.to_multiset()) =~= placed.to_multiset().add(
        left.to_multiset(),
    ));
    assert(next.clock == acts_clock(tasks, grown, grown.len()));
    assert forall|i: int| 0 <= i < grown.len() implies acts_choice(tasks, grown, i) by {}
}

/// Priority-index construction. At every step `acts_offer` says what there
/// is to decide. Where several jobs are ready they are offered to `pick`,
/// each as its processing time and the setup it would pay now, and
/// `acts_step` places the job that the answer selects. The order built is
/// what `rule_run` gives for the answers of `pick`.
pub fn heuristic_acts<F: Fn(&Vec<(u32, u32)>) -> usize>(
    instance: &Instance,
    solution: &mut Solution,
    pick: F,
)
    requires
        instance.wf(),
        forall|candidates: &Vec<(u32, u32)>| pick.requires((candidates,)),
    ensures
        is_permutation(final(solution).tasks@, instance.tasks@.len()),
        exists|answers: Seq<usize>| #[trigger]
            follows_rule(pick, instance.tasks@, answers, final(solution).tasks@),
        forall|k: int|
            0 <= k < instance.tasks@.len() ==> acts_choice(
                instance.tasks@,
                final(solution).tasks@,
                k,
            ),
        final(solution).score == old(solution).score,
        final(solution).duration == old(solution).duration,
{
    let tasks = &instance.tasks;
    let n: usize = tasks.len();
    let mut seq: Vec<usize> = Vec::new();
    let mut unscheduled: Vec<usize> = Vec::new();
    let mut i: usize = 0;
    while i < n
        invariant
            i <= n,
            unscheduled@ == all_jobs(i as nat),
        decreases n - i,
    {
        unscheduled.push(i);
        proof {
            assert(unscheduled@ =~= all_jobs((i + 1) as nat));
        }
        i = i + 1;
    }
    let mut current_time: u64 = 0;
    let mut last_task: Option<usize> = None;
    let ghost mut answers: Seq<usize> = Seq::empty();
    proof {
        assert(seq@ =~= Seq::empty());
        assert(seq@.to_multiset().add(unscheduled@.to_multiset()) =~= unscheduled@.to_multiset())
            by {
            broadcast use vstd::seq_lib::group_to_multiset_ensures;

        }
        assert forall|j: usize| j < n implies (unscheduled@.contains(j) <==> #[trigger] unplaced(
            seq@,
            0,
            j,
        )) by {
            assert(unscheduled@[j as int] == j);
        }
    }
    while seq.len() < n
        invariant
            instance.wf(),
            tasks@ == instance.tasks@,
            n == tasks@.len(),
            forall|candidates: &Vec<(u32, u32)>| pick.requires((candidates,)),
            rule_inv(
                tasks@,
                (RuleState {
                    seq: seq@,
                    left: unscheduled@,
                    clock: current_time as int,
                    last: last_task,
                }),
            ),
            answers.len() == seq@.len(),
            rule_run(tasks@, answers, answers.len()) == (RuleState {
                seq: seq@,
                left: unscheduled@,
                clock: current_time as int,
                last: last_task,
            }),
            forall|k: int|
                0 <= k < answers.len() ==> answered(
                    pick,
                    tasks@,
                    rule_run(tasks@, answers, k as nat),
                    #[trigger] answers[k],
                ),
        decreases n - seq@.len(),
    {
        let ghost state = RuleState {
            seq: seq@,
            left: unscheduled@,
            clock: current_time as int,
            last: last_task,
        };
        proof {
            lemma_split_in_range(state.seq, state.left, n as nat);
            lemma_acts_clock_bounds(tasks@, state.seq, state.seq.len());
            lemma_within_limits(state.seq.len());
            if state.seq.len() > 0 {
                assert(state.seq[state.seq.len() - 1] < n);
            }
        }
        let offer: Offer = acts_offer(tasks, &unscheduled, last_task, current_time);
        let picked: usize = match &offer {
            Offer::Forced { at: _ } => 0,
            Offer::Choice { ready: _, candidates } => pick(candidates),
        };
        proof {
            assert(answered(pick, tasks@, state, picked)) by {
                if let Offer::Choice { ready, candidates } = offer {
                    assert(call_ensures(pick, (&candidates,), picked));
                }
            }
            lemma_position_taken(tasks@, state.left, state.last, state.clock, offer, picked);
        }
        acts_step(
            tasks,
            &mut seq,
            &mut unscheduled,
            &mut current_time,
            &mut last_task,
            &offer,
            picked,
        );
        proof {
            let next = RuleState {
                seq: seq@,
                left: unscheduled@,
                clock: current_time as int,
                last: last_task,
            };
            lemma_rule_step(
                tasks@,
                state,
                position_taken(tasks@, state.left, state.clock, picked),
                next,
            );
            let earlier = answers;
            answers = answers.push(picked);
            lemma_rule_run_prefix(tasks@, earlier, answers, earlier.len());
            assert forall|i: int| 0 <= i < answers.len() implies answered(
                pick,
                tasks@,
                rule_run(tasks@, answers, i as nat),
                #[trigger] answers[i],
            ) by {
                lemma_rule_run_prefix(tasks@, earlier, answers, i as nat);
                if i < earlier.len() {
                    assert(answers[i] == earlier[i]);
                }
            }
        }
    }
    proof {
        lemma_split_in_range(seq@, unscheduled@, n as nat);
        assert(unscheduled@ =~= Seq::empty());
        assert(unscheduled@.to_multiset() =~= vstd::multiset::Multiset::empty()) by {
            broadcast use vstd::seq_lib::group_to_multiset_ensures;

        }
        assert(seq@.to_multiset().add(vstd::multiset::Multiset::empty()) =~= seq@.to_multiset());
        lemma_rearranged_is_permutation(seq@, n as nat);
        assert(follows_rule(pick, tasks@, answers, seq@));
    }
    solution.tasks = seq;
}

/// No first solution can be built: the instance has no jobs.
#[derive(Debug, Clone, Copy, PartialEq, Eq, Structural)]
pub struct NoJobs;

/// Builds a first solution and scores it: by best insertion where the
/// strategy is the setup-blind or the hybrid one, by the priority rule with
/// `pick` where it is the setup-aware one. The score is the cost of the
/// order and the duration its makespan. An instance without jobs has no
/// solution; `solution` is then left with an empty order.
pub fn find_initial_solution<F: Fn(&Vec<(u32, u32)>) -> usize>(
    instance: &Instance,
    solution: &mut Solution,
    strategy: &BoundingStrategy,
    pick: F,
) -> (built: Result<(), NoJobs>)
    requires
        instance.wf(),
        forall|candidates: &Vec<(u32, u32)>| pick.requires((candidates,)),
    ensures
        built is Ok <==> instance.n > 0,
        is_permutation(final(solution).tasks@, instance.tasks@.len()),
        built is Ok ==> final(solution).solves(instance.tasks@) && final(solution).duration
            == makespan(instance.tasks@, final(solution).tasks@),
        built is Err ==> final(solution).score == old(solution).score && final(solution).duration
            == old(solution).duration,
        *strategy != BoundingStrategy::INSERT ==> final(solution).tasks@ == insertion_order(
            instance.tasks@,
        ),
        *strategy == BoundingStrategy::INSERT ==> forall|k: int|
            0 <= k < instance.tasks@.len() ==> acts_choice(
                instance.tasks@,
                final(solution).tasks@,
                k,
            ),
        *strategy == BoundingStrategy::INSERT ==> exists|answers: Seq<usize>| #[trigger]
            follows_rule(pick, instance.tasks@, answers, final(solution).tasks@),
{
    match strategy {
        BoundingStrategy::ATCS => heuristic_insertion(instance, solution),
        BoundingStrategy::INSERT => heuristic_acts(instance, solution, pick),
        BoundingStrategy::HYBRID => heuristic_insertion(instance, solution),
    }
    if instance.n == 0 {
        return Err(NoJobs);
    }
    let (initial_score, initial_duration) = calculate_score(&instance.tasks, &solution.tasks);
    solution.set_score(initial_score);
    solution.set_duration(initial_duration);
    Ok(())
}

} // verus!
