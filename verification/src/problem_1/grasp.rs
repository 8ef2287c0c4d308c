//! Randomised greedy construction of a first order.

use crate::problem_1::algo::heuristics::{
    calculate_score, insertion_cost, lemma_split_in_range,
};
use crate::problem_1::algo::schedule::Schedule;
use crate::problem_1::algo::sorting::{lemma_stable_sort, sort_by_key, stable_sort};
use crate::problem_1::models::{
    all_jobs, is_permutation, lemma_rearranged_is_permutation, order_valid, table_wf, Task,
    MAX_JOBS,
};
use crate::problem_1::rng::random_below;
use vstd::prelude::*;

verus! {

/// The share of the candidates that makes up the restricted list is
/// `ALPHA_NUM / ALPHA_DEN`: one tenth.
pub const ALPHA_NUM: u32 = 1;

/// See `ALPHA_NUM`.
pub const ALPHA_DEN: u32 = 10;

/// The insertions of the unscheduled job at `task_index` at every position
/// of `seq`, each keyed by the cost it leads to; `first` is the number of
/// candidates listed before them.
pub open spec fn row_of(
    tasks: Seq<Task>,
    seq: Seq<usize>,
    unscheduled: Seq<usize>,
    task_index: int,
    first: int,
) -> Seq<(u64, usize)> {
    Seq::new(
        seq.len() + 1,
        |pos: int|
            (
                insertion_cost(tasks, seq, unscheduled, task_index, pos) as u64,
                (first + pos) as usize,
            ),
    )
}

/// The insertions of the first `count` unscheduled jobs, job by job and
/// position by position, each keyed by its cost and numbered in that order.
pub open spec fn all_insertions(
    tasks: Seq<Task>,
    seq: Seq<usize>,
    unscheduled: Seq<usize>,
    count: nat,
) -> Seq<(u64, usize)>
    decreases count,
{
    if count == 0 {
        Seq::empty()
    } else {
        let before = all_insertions(tasks, seq, unscheduled, (count - 1) as nat);
        before + row_of(tasks, seq, unscheduled, count - 1, before.len() as int)
    }
}

/// For each candidate, by its number, the unscheduled job and the position
/// it stands for.
pub open spec fn places(positions: nat, count: nat) -> Seq<(usize, usize)>
    decreases count,
{
    if count == 0 {
        Seq::empty()
    } else {
        places(positions, (count - 1) as nat) + Seq::new(
            positions,
            |pos: int| ((count - 1) as usize, pos as usize),
        )
    }
}

/// How many of `count` candidates make up the restricted list for the share
/// `num / den`: that share rounded down, but at least one.
pub open spec fn restricted(count: int, num: int, den: int) -> int {
    if count * num / den >= 1 {
        count * num / den
    } else {
        1
    }
}

/// Size of the restricted candidate list.
pub fn rcl_size(count: usize, num: u32, den: u32) -> (size: usize)
    requires
        0 < count <= MAX_JOBS * (MAX_JOBS + 1),
        0 < num <= den,
    ensures
        size == restricted(count as int, num as int, den as int),
        1 <= size <= count,
{
    assert(0 <= count * num <= 0x8000_0000_0000_0000) by (nonlinear_arith)
        requires
            0 <= count <= 46340 * 46341,
            0 <= num <= 0xFFFF_FFFF,
    ;
    let share: u64 = (count as u64) * (num as u64) / (den as u64);
    assert(count * num / (den as int) <= count) by (nonlinear_arith)
        requires
            0 < num <= den,
            0 < count,
    ;
    if share >= 1 {
        share as usize
    } else {
        1
    }
}

/// The candidate list has one entry per job and position, and every entry
/// carries its own index.
proof fn lemma_all_insertions(
    tasks: Seq<Task>,
    seq: Seq<usize>,
    unscheduled: Seq<usize>,
    count: nat,
)
    requires
        count * (seq.len() + 1) <= usize::MAX,
    ensures
        all_insertions(tasks, seq, unscheduled, count).len() == count * (seq.len() + 1),
        places(seq.len() + 1, count).len() == count * (seq.len() + 1),
        forall|c: int|
            0 <= c < count * (seq.len() + 1) ==> {
                let at = #[trigger] places(seq.len() + 1, count)[c];
                &&& at.0 < count
                &&& at.1 <= seq.len()
                &&& all_insertions(tasks, seq, unscheduled, count)[c] == (
                    insertion_cost(tasks, seq, unscheduled, at.0 as int, at.1 as int) as u64,
                    c as usize,
                )
            },
    decreases count,
{
    let width = seq.len() + 1;
    if count > 0 {
        let prev = (count - 1) as nat;
        assert(prev * width + width == count * width) by (nonlinear_arith)
            requires
                prev + 1 == count,
        ;
        assert(prev * width <= count * width && count <= count * width && width <= count * width)
            by (nonlinear_arith)
            requires
                prev + 1 == count,
                width >= 1,
        ;
        lemma_all_insertions(tasks, seq, unscheduled, prev);
        let before = all_insertions(tasks, seq, unscheduled, prev);
        let row = row_of(tasks, seq, unscheduled, prev as int, before.len() as int);
        let marked = places(width as nat, prev);
        let cells = Seq::new(width as nat, |pos: int| (prev as usize, pos as usize));
        assert(places(width as nat, count) == marked + cells);
        assert forall|c: int| 0 <= c < count * width implies {
            let at = #[trigger] places(width as nat, count)[c];
            &&& at.0 < count
            &&& at.1 <= seq.len()
            &&& all_insertions(tasks, seq, unscheduled, count)[c] == (
                insertion_cost(tasks, seq, unscheduled, at.0 as int, at.1 as int) as u64,
                c as usize,
            )
        } by {
            if c < prev * width {
                assert((marked + cells)[c] == marked[c]);
                assert((before + row)[c] == before[c]);
            } else {
                let pos = c - prev * width;
                assert((marked + cells)[c] == cells[pos]);
                assert((before + row)[c] == row[pos]);
            }
        }
    } else {
        assert(count * width == 0) by (nonlinear_arith)
            requires
                count == 0,
        ;
    }
}

/// What one step of the construction makes of `seq` and `unscheduled` when
/// the candidate at rank `pick` is taken: the job and the position of the
/// `pick`-th cheapest insertion.
pub open spec fn step_taken(
    tasks: Seq<Task>,
    seq: Seq<usize>,
    unscheduled: Seq<usize>,
    pick: int,
) -> (Seq<usize>, Seq<usize>) {
    let ranked = stable_sort(all_insertions(tasks, seq, unscheduled, unscheduled.len()));
    let at = places(seq.len() + 1, unscheduled.len())[ranked[pick].1 as int];
    (seq.insert(at.1 as int, unscheduled[at.0 as int]), unscheduled.remove(at.0 as int))
}

/// One step of the construction: ranks every insertion of an unscheduled job
/// by the cost it leads to, equally cheap ones in the order of jobs and
/// positions, and carries out the one at rank `pick`.
pub fn grasp_insert(
    tasks: &Vec<Task>,
    seq: &mut Vec<usize>,
    unscheduled: &mut Vec<usize>,
    pick: usize,
)
    requires
        table_wf(tasks@),
        order_valid(tasks@, old(seq)@),
        order_valid(tasks@, old(unscheduled)@),
        old(unscheduled)@.len() > 0,
        old(seq)@.len() + old(unscheduled)@.len() <= MAX_JOBS,
        pick < old(unscheduled)@.len() * (old(seq)@.len() + 1),
    ensures
        (final(seq)@, final(unscheduled)@) == step_taken(
            tasks@,
            old(seq)@,
            old(unscheduled)@,
            pick as int,
        ),
        exists|job: int, pos: int|
            0 <= job < old(unscheduled)@.len() && 0 <= pos <= old(seq)@.len() && final(seq)@ == old(
                seq,
            )@.insert(pos, old(unscheduled)@[job]) && final(unscheduled)@ == old(
                unscheduled,
            )@.remove(job),
{
    let ghost seq0 = seq@;
    let ghost left0 = unscheduled@;
    let width: usize = seq.len() + 1;
    let mut candidates: Vec<(u64, usize)> = Vec::new();
    let mut spots: Vec<(usize, usize)> = Vec::new();
    let mut task_idx: usize = 0;
    proof {
        assert(left0.len() * (seq0.len() + 1) <= 46340 * 46341) by (nonlinear_arith)
            requires
                left0.len() + seq0.len() <= 46340,
        ;
        lemma_all_insertions(tasks@, seq0, left0, left0.len());
    }
    while task_idx < unscheduled.len()
        invariant
            task_idx <= left0.len(),
            seq@ == seq0,
            unscheduled@ == left0,
            width == seq0.len() + 1,
            table_wf(tasks@),
            order_valid(tasks@, seq0),
            order_valid(tasks@, left0),
            seq0.len() + left0.len() <= MAX_JOBS,
            candidates@ == all_insertions(tasks@, seq0, left0, task_idx as nat),
            spots@ == places(width as nat, task_idx as nat),
        decreases left0.len() - task_idx,
    {
        let ghost first = candidates@.len() as int;
        let ghost row = row_of(tasks@, seq0, left0, task_idx as int, first);
        let ghost cells = Seq::new(width as nat, |pos: int| (task_idx, pos as usize));
        let ghost listed = candidates@;
        let ghost marked = spots@;
        proof {
            assert(task_idx * width + width <= 46340 * 46341 && task_idx * width >= 0)
                by (nonlinear_arith)
                requires
                    0 <= task_idx < left0.len(),
                    left0.len() + seq0.len() <= 46340,
                    width == seq0.len() + 1,
            ;
            lemma_all_insertions(tasks@, seq0, left0, task_idx as nat);
        }
        let job: usize = unscheduled[task_idx];
        let mut pos: usize = 0;
        while pos < width
            invariant
                pos <= width,
                task_idx < left0.len(),
                job == left0[task_idx as int],
                seq@ == seq0,
                width == seq0.len() + 1,
                table_wf(tasks@),
                order_valid(tasks@, seq0),
                order_valid(tasks@, left0),
                seq0.len() + left0.len() <= MAX_JOBS,
                first + width <= usize::MAX,
                row == row_of(tasks@, seq0, left0, task_idx as int, first),
                cells == Seq::new(width as nat, |pos: int| (task_idx, pos as usize)),
                candidates@ == listed + row.take(pos as int),
                spots@ == marked + cells.take(pos as int),
                listed.len() == first,
            decreases width - pos,
        {
            let mut temp_sequence: Vec<usize> = seq.clone();
            temp_sequence.insert(pos, job);
            assert(left0[task_idx as int] < tasks@.len());
            let (cost, _duration) = calculate_score(tasks, &temp_sequence);
            let number: usize = candidates.len();
            candidates.push((cost, number));
            spots.push((task_idx, pos));
            proof {
                assert(row.take(pos + 1) =~= row.take(pos as int).push(row[pos as int]));
                assert(cells.take(pos + 1) =~= cells.take(pos as int).push(cells[pos as int]));
                assert(candidates@ =~= listed + row.take(pos + 1));
                assert(spots@ =~= marked + cells.take(pos + 1));
            }
            pos = pos + 1;
        }
        proof {
            assert(row.take(width as int) =~= row);
            assert(cells.take(width as int) =~= cells);
        }
        task_idx = task_idx + 1;
    }
    let ghost unsorted = candidates@;
    sort_by_key(&mut candidates);
    proof {
        broadcast use vstd::seq_lib::group_to_multiset_ensures;

        lemma_stable_sort(unsorted);
        assert(candidates@.to_multiset().count(candidates@[pick as int]) > 0);
        assert(unsorted.contains(candidates@[pick as int]));
        let c = choose|c: int| 0 <= c < unsorted.len() && unsorted[c] == candidates@[pick as int];
        assert(places(width as nat, left0.len())[c].0 < left0.len());
        assert(unsorted[c].1 == c);
    }
    let at: (usize, usize) = spots[candidates[pick].1];
    let chosen: usize = unscheduled.remove(at.0);
    seq.insert(at.1, chosen);
}

/// The order built and the jobs left after the first `len` steps of a
/// construction that takes the candidate at rank `picks[k]` at step `k`.
pub open spec fn built_by(tasks: Seq<Task>, picks: Seq<int>, len: nat) -> (Seq<usize>, Seq<usize>)
    decreases len,
{
    if len == 0 {
        (Seq::empty(), all_jobs(tasks.len()))
    } else {
        let (seq, left) = built_by(tasks, picks, (len - 1) as nat);
        step_taken(tasks, seq, left, picks[len - 1])
    }
}

/// Every one of the first `len` picks lies in the restricted list of its
/// step.
pub open spec fn picks_allowed(tasks: Seq<Task>, picks: Seq<int>, len: nat) -> bool {
    forall|k: int|
        0 <= k < len ==> {
            let (seq, left) = built_by(tasks, picks, k as nat);
            0 <= #[trigger] picks[k] < restricted(
                (left.len() * (seq.len() + 1)) as int,
                ALPHA_NUM as int,
                ALPHA_DEN as int,
            )
        }
}

/// What has been built does not depend on later picks.
proof fn lemma_built_by_prefix(tasks: Seq<Task>, a: Seq<int>, b: Seq<int>, len: nat)
    requires
        len <= a.len(),
        len <= b.len(),
        forall|i: int| 0 <= i < len ==> a[i] == b[i],
    ensures
        built_by(tasks, a, len) == built_by(tasks, b, len),
    decreases len,
{
    if len > 0 {
        lemma_built_by_prefix(tasks, a, b, (len - 1) as nat);
    }
}

/// Builds an order by randomised greedy insertion and scores it. At every
/// step all insertions of an unscheduled job are ranked by the cost they
/// lead to, and one of the best tenth of them, at least one, is drawn with
/// equal chances and carried out.
pub fn generate_initial_input<'a>(tasks: &'a Vec<Task>) -> (schedule: Schedule<'a>)
    requires
        table_wf(tasks@),
        tasks@.len() <= MAX_JOBS,
    ensures
        schedule.consistent(),
        schedule.tasks_ref == tasks,
        is_permutation(schedule.task_ids@, tasks@.len()),
        exists|picks: Seq<int>|
            picks.len() == tasks@.len() && #[trigger] picks_allowed(tasks@, picks, tasks@.len())
                && schedule.task_ids@ == built_by(tasks@, picks, tasks@.len()).0,
{
    let n: usize = tasks.len();
    let mut initial_schedule: Vec<usize> = Vec::new();
    let mut unscheduled_tasks: Vec<usize> = Vec::new();
    let mut i: usize = 0;
    while i < n
        invariant
            i <= n,
            unscheduled_tasks@ == all_jobs(i as nat),
        decreases n - i,
    {
        unscheduled_tasks.push(i);
        proof {
            assert(unscheduled_tasks@ =~= all_jobs((i + 1) as nat));
        }
        i = i + 1;
    }
    proof {
        broadcast use vstd::seq_lib::group_to_multiset_ensures;

        assert(initial_schedule@.to_multiset().add(unscheduled_tasks@.to_multiset())
            =~= unscheduled_tasks@.to_multiset());
        assert(initial_schedule@ =~= Seq::empty());
    }
    let ghost mut picks: Seq<int> = Seq::empty();
    while unscheduled_tasks.len() > 0
        invariant
            table_wf(tasks@),
            n == tasks@.len(),
            n <= MAX_JOBS,
            initial_schedule@.to_multiset().add(unscheduled_tasks@.to_multiset()) == all_jobs(
                n as nat,
            ).to_multiset(),
            picks.len() == initial_schedule@.len(),
            picks_allowed(tasks@, picks, picks.len()),
            built_by(tasks@, picks, picks.len()) == (initial_schedule@, unscheduled_tasks@),
        decreases unscheduled_tasks@.len(),
    {
        let ghost seq0 = initial_schedule@;
        let ghost left0 = unscheduled_tasks@;
        proof {
            lemma_split_in_range(seq0, left0, n as nat);
            assert(1 <= left0.len() * (seq0.len() + 1) <= 46340 * 46341) by (nonlinear_arith)
                requires
                    left0.len() + seq0.len() <= 46340,
                    left0.len() >= 1,
            ;
        }
        let count: usize = unscheduled_tasks.len() * (initial_schedule.len() + 1);
        let top_candidate_count: usize = rcl_size(count, ALPHA_NUM, ALPHA_DEN);
        let pick: usize = random_below(top_candidate_count);
        grasp_insert(tasks, &mut initial_schedule, &mut unscheduled_tasks, pick);
        proof {
            let earlier = picks;
            picks = picks.push(pick as int);
            assert forall|k: int| 0 <= k < picks.len() implies {
                let (seq, left) = built_by(tasks@, picks, k as nat);
                0 <= #[trigger] picks[k] < restricted(
                    (left.len() * (seq.len() + 1)) as int,
                    ALPHA_NUM as int,
                    ALPHA_DEN as int,
                )
            } by {
                lemma_built_by_prefix(tasks@, earlier, picks, k as nat);
                if k < earlier.len() {
                    assert(picks[k] == earlier[k]);
                }
            }
            lemma_built_by_prefix(tasks@, earlier, picks, earlier.len());
        }
        proof {
            let (job, pos) = choose|job: int, pos: int|
                0 <= job < left0.len() && 0 <= pos <= seq0.len() && initial_schedule@
                    == seq0.insert(pos, left0[job]) && unscheduled_tasks@ == left0.remove(job);
            vstd::seq_lib::to_multiset_insert(seq0, pos, left0[job]);
            vstd::seq_lib::to_multiset_remove(left0, job);
            assert(left0.to_multiset().count(left0[job]) > 0) by {
                broadcast use vstd::seq_lib::group_to_multiset_ensures;

                assert(left0.contains(left0[job]));
            }
            assert(initial_schedule@.to_multiset().add(unscheduled_tasks@.to_multiset())
                =~= seq0.to_multiset().add(left0.to_multiset()));
        }
    }
    proof {
        assert(unscheduled_tasks@ =~= Seq::empty());
        assert(unscheduled_tasks@.to_multiset() =~= vstd::multiset::Multiset::empty()) by {
            broadcast use vstd::seq_lib::group_to_multiset_ensures;

        }
        assert(initial_schedule@.to_multiset().add(vstd::multiset::Multiset::empty())
            =~= initial_schedule@.to_multiset());
        lemma_rearranged_is_permutation(initial_schedule@, n as nat);
        assert(picks.len() == n && picks_allowed(tasks@, picks, n as nat) && initial_schedule@
            == built_by(tasks@, picks, n as nat).0);
    }
    Schedule::new(initial_schedule, tasks)
}

} // verus!
