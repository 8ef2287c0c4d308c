//! When the lower bounds are safe to prune with.
//!
//! Both estimates order the remaining jobs by a relaxed cost and run them
//! back to back. A real completion costs at least what the relaxed costs
//! make, run back to back from the clock of the node, and at least what
//! every remaining job costs alone. An estimate is safe as long as it is
//! within the larger of the two: the setup-blind one for instance where its
//! run never waits for a ready time or one job is left, the setup-aware one
//! where some remaining job is ready. Beyond that they can come out too
//! high.

use crate::problem_1::algo::bnb::{admissible, beats_all_from, extends, Node};
use crate::problem_1::algo::bounds::{
    assignment_bound, by_processing, by_relaxed_cost, key_sum, least_setup, lemma_key_sum_nonneg,
    lemma_least_setup, lemma_sorted_item, lower_bound, min_ready, min_setup_into, release_cost,
    release_finish, remaining_bound, srpt_bound, staircase, BoundingStrategy,
};
use crate::problem_1::algo::sorting::{
    insert_sorted, lemma_insert_sorted, lemma_stable_sort, stable_sort,
};
use crate::problem_1::models::{
    finish_time, is_permutation, last_of, lemma_cost_bounds, lemma_cost_prefix,
    lemma_step_bounds, lemma_within_limits, order_valid, prefix_cost, setup, table_wf,
    total_cost, Task, MAX_JOBS,
};
use vstd::prelude::*;

verus! {

/// Every job still to place at a node with clock `now` is ready by then.
pub open spec fn all_released(tasks: Seq<Task>, rest: Seq<usize>, now: int) -> bool {
    forall|i: int| 0 <= i < rest.len() ==> tasks[(#[trigger] rest[i]) as int].ready_time <= now
}

/// The run of `jobs` from `now` that ignores setups never waits: every job
/// is ready when the one before it completes.
pub open spec fn never_waits(tasks: Seq<Task>, jobs: Seq<(u64, usize)>, now: int) -> bool {
    forall|i: int|
        0 <= i < jobs.len() ==> tasks[(#[trigger] jobs[i]).1 as int].ready_time <= release_finish(
            tasks,
            jobs,
            now,
            i as nat,
        )
}

/// The shortest-first run of the jobs still to place never waits.
pub open spec fn srpt_never_waits(tasks: Seq<Task>, rest: Seq<usize>, now: int) -> bool {
    never_waits(tasks, stable_sort(by_processing(tasks, rest)), now)
}

/// Some job still to place is ready at `now`, if any is left.
pub open spec fn some_released(tasks: Seq<Task>, rest: Seq<usize>, now: int) -> bool {
    rest.len() > 0 ==> min_ready(tasks, rest, rest.len()) <= now
}

/// Whatever job runs first, every job is ready when it completes.
pub open spec fn ready_early(tasks: Seq<Task>) -> bool {
    forall|i: int, j: int|
        0 <= i < tasks.len() && 0 <= j < tasks.len() ==> (#[trigger] tasks[i]).ready_time <= (
        #[trigger] tasks[j]).ready_time + tasks[j].processing_time
}

/// The keys of keyed items.
pub open spec fn keys(s: Seq<(u64, usize)>) -> Seq<u64> {
    s.map_values(|item: (u64, usize)| item.0)
}

/// The hybrid estimate is the larger of the other two.
pub proof fn lemma_hybrid_is_larger(
    tasks: Seq<Task>,
    last: Option<usize>,
    rest: Seq<usize>,
    now: int,
)
    ensures
        remaining_bound(tasks, BoundingStrategy::HYBRID, last, rest, now) >= remaining_bound(
            tasks,
            BoundingStrategy::ATCS,
            last,
            rest,
            now,
        ),
        remaining_bound(tasks, BoundingStrategy::HYBRID, last, rest, now) >= remaining_bound(
            tasks,
            BoundingStrategy::INSERT,
            last,
            rest,
            now,
        ),
        remaining_bound(tasks, BoundingStrategy::HYBRID, last, rest, now) == remaining_bound(
            tasks,
            BoundingStrategy::ATCS,
            last,
            rest,
            now,
        ) || remaining_bound(tasks, BoundingStrategy::HYBRID, last, rest, now) == remaining_bound(
            tasks,
            BoundingStrategy::INSERT,
            last,
            rest,
            now,
        ),
{
}

/// Where the setup-blind and the setup-aware bound of a node are both below
/// every completion, so is the hybrid bound.
pub proof fn lemma_hybrid_stays_admissible(tasks: Seq<Task>, node: Node)
    requires
        beats_all_from(
            tasks,
            lower_bound(tasks, node, BoundingStrategy::ATCS),
            node.partial_sequence@,
        ),
        beats_all_from(
            tasks,
            lower_bound(tasks, node, BoundingStrategy::INSERT),
            node.partial_sequence@,
        ),
    ensures
        beats_all_from(
            tasks,
            lower_bound(tasks, node, BoundingStrategy::HYBRID),
            node.partial_sequence@,
        ),
{
    lemma_hybrid_is_larger(
        tasks,
        node.last_job_idx,
        node.remaining_jobs@,
        node.current_time as int,
    );
}

/// Sums of keys and staircases over a prefix depend on that prefix alone,
/// and on the keys alone.
proof fn lemma_staircase_of_keys(a: Seq<(u64, usize)>, b: Seq<(u64, usize)>, len: nat)
    requires
        len <= a.len(),
        len <= b.len(),
        forall|i: int| 0 <= i < len ==> a[i].0 == b[i].0,
    ensures
        key_sum(a, len) == key_sum(b, len),
        staircase(a, len) == staircase(b, len),
    decreases len,
{
    if len > 0 {
        lemma_staircase_of_keys(a, b, (len - 1) as nat);
    }
}

/// One more item adds its key to the sum and the new sum to the staircase.
proof fn lemma_staircase_push(s: Seq<(u64, usize)>, x: (u64, usize))
    ensures
        key_sum(s.push(x), s.len() + 1) == key_sum(s, s.len()) + x.0,
        staircase(s.push(x), s.len() + 1) == staircase(s, s.len()) + key_sum(s, s.len()) + x.0,
{
    lemma_staircase_of_keys(s, s.push(x), s.len());
}

/// Putting an item where it belongs costs no more than putting it last.
proof fn lemma_insert_lowers_staircase(s: Seq<(u64, usize)>, x: (u64, usize))
    ensures
        key_sum(insert_sorted(s, x), s.len() + 1) == key_sum(s, s.len()) + x.0,
        staircase(insert_sorted(s, x), s.len() + 1) <= staircase(s, s.len()) + key_sum(
            s,
            s.len(),
        ) + x.0,
    decreases s.len(),
{
    lemma_insert_sorted(s, x);
    if s.len() == 0 {
        assert(seq![x] =~= s.push(x));
        lemma_staircase_push(s, x);
    } else if s.last().0 <= x.0 {
        lemma_staircase_push(s, x);
    } else {
        let head = s.drop_last();
        let l = s.last();
        lemma_insert_lowers_staircase(head, x);
        lemma_insert_sorted(head, x);
        lemma_staircase_push(insert_sorted(head, x), l);
        assert(s =~= head.push(l));
        lemma_staircase_push(head, l);
    }
}

/// Sorting keeps the sum of the keys and does not raise the staircase.
proof fn lemma_sort_lowers_staircase(s: Seq<(u64, usize)>)
    ensures
        key_sum(stable_sort(s), s.len()) == key_sum(s, s.len()),
        staircase(stable_sort(s), s.len()) <= staircase(s, s.len()),
    decreases s.len(),
{
    if s.len() > 0 {
        let head = s.drop_last();
        let l = s.last();
        lemma_sort_lowers_staircase(head);
        lemma_stable_sort(head);
        lemma_insert_lowers_staircase(stable_sort(head), l);
        assert(s =~= head.push(l));
        lemma_staircase_push(head, l);
    }
}

/// Two sequences with the same items have the same images under a map.
proof fn lemma_map_rearranged<A, B>(a: Seq<A>, b: Seq<A>, f: spec_fn(A) -> B)
    requires
        a.to_multiset() == b.to_multiset(),
    ensures
        a.map_values(f).to_multiset() == b.map_values(f).to_multiset(),
    decreases a.len(),
{
    broadcast use vstd::seq_lib::group_to_multiset_ensures;

    assert(a.len() == a.to_multiset().len());
    assert(b.len() == b.to_multiset().len());
    if a.len() == 0 {
        assert(a.map_values(f) =~= b.map_values(f));
    } else {
        let l = a.last();
        let head = a.drop_last();
        assert(a =~= head.push(l));
        assert(a.to_multiset().count(l) > 0);
        assert(b.contains(l));
        let i = choose|i: int| 0 <= i < b.len() && b[i] == l;
        let others = b.remove(i);
        vstd::seq_lib::to_multiset_remove(b, i);
        assert(others.to_multiset() =~= head.to_multiset());
        lemma_map_rearranged(head, others, f);
        assert(a.map_values(f) =~= head.map_values(f).push(f(l)));
        assert(b.map_values(f).remove(i) =~= others.map_values(f));
        vstd::seq_lib::to_multiset_remove(b.map_values(f), i);
        assert(b.map_values(f).to_multiset().count(f(l)) > 0) by {
            assert(b.map_values(f)[i] == f(l));
            assert(b.map_values(f).contains(f(l)));
        }
        assert(b.map_values(f).to_multiset() =~= others.map_values(f).to_multiset().insert(f(l)));
    }
}

/// Sorted, two rearrangements of the same items show the same keys.
proof fn lemma_sorted_keys_agree(a: Seq<(u64, usize)>, b: Seq<(u64, usize)>)
    requires
        a.to_multiset() == b.to_multiset(),
    ensures
        keys(stable_sort(a)) == keys(stable_sort(b)),
        a.len() == b.len(),
{
    broadcast use vstd::seq_lib::group_to_multiset_ensures;

    let leq = |x: u64, y: u64| x <= y;
    let first = |item: (u64, usize)| item.0;
    lemma_stable_sort(a);
    lemma_stable_sort(b);
    assert(a.len() == a.to_multiset().len());
    assert(b.len() == b.to_multiset().len());
    lemma_map_rearranged(stable_sort(a), stable_sort(b), first);
    let ka = keys(stable_sort(a));
    let kb = keys(stable_sort(b));
    assert(vstd::relations::sorted_by(ka, leq)) by {
        assert forall|i: int, j: int| 0 <= i < j < ka.len() implies #[trigger] leq(
            ka[i],
            ka[j],
        ) by {
            assert(stable_sort(a)[i].0 <= stable_sort(a)[j].0);
        }
    }
    assert(vstd::relations::sorted_by(kb, leq)) by {
        assert forall|i: int, j: int| 0 <= i < j < kb.len() implies #[trigger] leq(
            kb[i],
            kb[j],
        ) by {
            assert(stable_sort(b)[i].0 <= stable_sort(b)[j].0);
        }
    }
    assert(vstd::relations::total_ordering(leq)) by {
        assert(vstd::relations::reflexive(leq));
        assert(vstd::relations::antisymmetric(leq));
        assert(vstd::relations::transitive(leq));
        assert(vstd::relations::strongly_connected(leq));
    }
    vstd::seq_lib::lemma_sorted_unique(ka, kb, leq);
}

/// Of all rearrangements of the same items the sorted one has the lowest
/// staircase.
pub proof fn lemma_sorted_staircase_is_least(a: Seq<(u64, usize)>, b: Seq<(u64, usize)>)
    requires
        a.to_multiset() == b.to_multiset(),
    ensures
        a.len() == b.len(),
        staircase(stable_sort(a), a.len()) <= staircase(b, b.len()),
{
    lemma_sorted_keys_agree(a, b);
    lemma_sort_lowers_staircase(b);
    lemma_stable_sort(a);
    lemma_stable_sort(b);
    let sa = stable_sort(a);
    let sb = stable_sort(b);
    assert forall|i: int| 0 <= i < a.len() implies sa[i].0 == sb[i].0 by {
        assert(keys(sa)[i] == sa[i].0);
        assert(keys(sb)[i] == sb[i].0);
    }
    lemma_staircase_of_keys(sa, sb, a.len());
}

/// The jobs that a complete order places after those of a node are the jobs
/// that the node has still to place.
pub proof fn lemma_completion_rearranges(tasks: Seq<Task>, node: Node, full: Seq<usize>)
    requires
        node.wf(tasks),
        is_permutation(full, tasks.len()),
        extends(full, node.partial_sequence@),
    ensures
        full.skip(node.partial_sequence@.len() as int).to_multiset()
            == node.remaining_jobs@.to_multiset(),
        full.skip(node.partial_sequence@.len() as int).len() == node.remaining_jobs@.len(),
{
    broadcast use vstd::seq_lib::group_to_multiset_ensures;

    let placed = node.partial_sequence@;
    let rest = node.remaining_jobs@;
    let k0 = placed.len() as int;
    let tail = full.skip(k0);
    assert(tail.no_duplicates()) by {
        assert forall|i: int, j: int| 0 <= i < tail.len() && 0 <= j < tail.len() && i
            != j implies tail[i] != tail[j] by {
            if i < j {
                assert(full[k0 + i] != full[k0 + j]);
            } else {
                assert(full[k0 + j] != full[k0 + i]);
            }
        }
    }
    assert(rest.no_duplicates()) by {
        assert forall|i: int, j: int| 0 <= i < rest.len() && 0 <= j < rest.len() && i
            != j implies rest[i] != rest[j] by {
            if i < j {
                assert(rest[i] < rest[j]);
            } else {
                assert(rest[j] < rest[i]);
            }
        }
    }
    assert forall|i: int| 0 <= i < tail.len() implies rest.contains(#[trigger] tail[i]) by {
        let job = tail[i];
        assert(job == full[k0 + i]);
        assert(job < tasks.len());
        if placed.contains(job) {
            let p = choose|p: int| 0 <= p < placed.len() && placed[p] == job;
            assert(full[p] == full[k0 + i]);
        }
    }
    tail.unique_seq_to_set();
    rest.unique_seq_to_set();
    assert(tail.to_set().subset_of(rest.to_set())) by {
        assert forall|v: usize| tail.to_set().contains(v) implies rest.to_set().contains(v) by {
            let i = choose|i: int| 0 <= i < tail.len() && tail[i] == v;
            assert(rest.contains(tail[i]));
        }
    }
    vstd::seq_lib::seq_to_set_is_finite(tail);
    vstd::seq_lib::seq_to_set_is_finite(rest);
    vstd::set_lib::lemma_subset_equality(tail.to_set(), rest.to_set());
    tail.lemma_multiset_has_no_duplicates();
    rest.lemma_multiset_has_no_duplicates();
    assert forall|v: usize| tail.to_multiset().count(v) == rest.to_multiset().count(v) by {
        assert(tail.to_set().contains(v) == rest.to_set().contains(v));
        assert(tail.contains(v) == rest.contains(v));
    }
    assert(tail.to_multiset() =~= rest.to_multiset());
}

/// A run whose clock advances by at least the key of each job costs at
/// least the staircase of the keys on top of what was there before.
proof fn lemma_run_exceeds_staircase(
    tasks: Seq<Task>,
    full: Seq<usize>,
    k0: nat,
    keyed: Seq<(u64, usize)>,
    len: nat,
)
    requires
        len <= keyed.len(),
        forall|l: int|
            0 <= l < keyed.len() ==> finish_time(tasks, full, (k0 + l + 1) as nat) >= finish_time(
                tasks,
                full,
                (k0 + l) as nat,
            ) + (#[trigger] keyed[l]).0,
    ensures
        finish_time(tasks, full, k0 + len) >= finish_time(tasks, full, k0) + key_sum(keyed, len),
        prefix_cost(tasks, full, k0 + len) >= prefix_cost(tasks, full, k0) + len * finish_time(
            tasks,
            full,
            k0,
        ) + staircase(keyed, len),
    decreases len,
{
    if len > 0 {
        let prev = (len - 1) as nat;
        lemma_run_exceeds_staircase(tasks, full, k0, keyed, prev);
        assert(finish_time(tasks, full, (k0 + prev + 1) as nat) >= finish_time(
            tasks,
            full,
            (k0 + prev) as nat,
        ) + keyed[prev as int].0);
        let now = finish_time(tasks, full, k0);
        assert(prev * now + now == len * now) by (nonlinear_arith)
            requires
                prev + 1 == len,
        ;
    }
}

/// The clock of an order never runs backward.
proof fn lemma_finish_grows(tasks: Seq<Task>, order: Seq<usize>, a: nat, b: nat)
    requires
        table_wf(tasks),
        order_valid(tasks, order),
        a <= b <= order.len(),
    ensures
        finish_time(tasks, order, a) <= finish_time(tasks, order, b),
    decreases b,
{
    if a < b {
        lemma_finish_grows(tasks, order, a, (b - 1) as nat);
        lemma_cost_bounds(tasks, order, b);
    }
}

/// The least setup is not above the setup from any of the jobs scanned.
proof fn lemma_least_setup_is_least(
    tasks: Seq<Task>,
    rest: Seq<usize>,
    job: int,
    start: int,
    len: nat,
    k: int,
)
    requires
        len <= rest.len(),
        0 <= k < len,
        rest[k] != job,
    ensures
        least_setup(tasks, rest, job, start, len) <= setup(tasks, rest[k] as int, job),
        least_setup(tasks, rest, job, start, len) <= start,
    decreases len,
{
    if k < len - 1 {
        lemma_least_setup_is_least(tasks, rest, job, start, (len - 1) as nat, k);
    } else {
        lemma_least_setup_le_start(tasks, rest, job, start, (len - 1) as nat);
    }
}

/// The least setup is not above what the scan started with.
proof fn lemma_least_setup_le_start(
    tasks: Seq<Task>,
    rest: Seq<usize>,
    job: int,
    start: int,
    len: nat,
)
    requires
        len <= rest.len(),
    ensures
        least_setup(tasks, rest, job, start, len) <= start,
    decreases len,
{
    if len > 0 {
        lemma_least_setup_le_start(tasks, rest, job, start, (len - 1) as nat);
    }
}

/// The earliest ready time is not above the ready time of any job scanned.
proof fn lemma_min_ready_is_least(tasks: Seq<Task>, rest: Seq<usize>, len: nat, k: int)
    requires
        len <= rest.len(),
        0 <= k < len,
    ensures
        min_ready(tasks, rest, len) <= tasks[rest[k] as int].ready_time,
    decreases len,
{
    if k < len - 1 {
        lemma_min_ready_is_least(tasks, rest, (len - 1) as nat, k);
    }
}

/// A run that never waits costs the staircase of the processing times on
/// top of one clock reading per job.
proof fn lemma_release_is_staircase(
    tasks: Seq<Task>,
    jobs: Seq<(u64, usize)>,
    now: int,
    len: nat,
)
    requires
        len <= jobs.len(),
        never_waits(tasks, jobs, now),
        forall|i: int|
            0 <= i < jobs.len() ==> (#[trigger] jobs[i]).0
                == tasks[jobs[i].1 as int].processing_time,
    ensures
        release_finish(tasks, jobs, now, len) == now + key_sum(jobs, len),
        release_cost(tasks, jobs, now, len) == len * now + staircase(jobs, len),
    decreases len,
{
    if len > 0 {
        let prev = (len - 1) as nat;
        lemma_release_is_staircase(tasks, jobs, now, prev);
        assert(tasks[jobs[len - 1].1 as int].ready_time <= release_finish(
            tasks,
            jobs,
            now,
            prev,
        ));
        assert(jobs[len - 1].0 == tasks[jobs[len - 1].1 as int].processing_time);
        assert(prev * now + now == len * now) by (nonlinear_arith)
            requires
                prev + 1 == len,
        ;
    }
}

/// A run never ends before it started.
proof fn lemma_release_grows(tasks: Seq<Task>, jobs: Seq<(u64, usize)>, now: int, len: nat)
    requires
        len <= jobs.len(),
    ensures
        now <= release_finish(tasks, jobs, now, len),
    decreases len,
{
    if len > 0 {
        lemma_release_grows(tasks, jobs, now, (len - 1) as nat);
    }
}

/// Where every job still to place is released, the shortest-first run never
/// waits and some job is ready.
pub proof fn lemma_released_never_waits(tasks: Seq<Task>, rest: Seq<usize>, now: int)
    requires
        all_released(tasks, rest, now),
    ensures
        srpt_never_waits(tasks, rest, now),
        some_released(tasks, rest, now),
{
    let keyed = by_processing(tasks, rest);
    let sorted = stable_sort(keyed);
    lemma_stable_sort(keyed);
    assert forall|i: int| 0 <= i < sorted.len() implies tasks[(
    #[trigger] sorted[i]).1 as int].ready_time <= release_finish(tasks, sorted, now, i as nat) by {
        lemma_sorted_item(keyed, i);
        let a = choose|a: int| 0 <= a < keyed.len() && keyed[a] == sorted[i];
        assert(keyed[a].1 == rest[a]);
        assert(tasks[rest[a] as int].ready_time <= now);
        lemma_release_grows(tasks, sorted, now, i as nat);
    }
    if rest.len() > 0 {
        lemma_min_ready_is_least(tasks, rest, rest.len(), 0);
        assert(tasks[rest[0] as int].ready_time <= now);
    }
}

/// The jobs of `rest`, each keyed by what it costs at least when it runs
/// alone at a node with clock `now`: it waits for the clock and for its
/// ready time, then runs.
pub open spec fn by_lone_cost(tasks: Seq<Task>, rest: Seq<usize>, now: int) -> Seq<(u64, usize)> {
    Seq::new(
        rest.len(),
        |i: int|
            (
                ((if now >= tasks[rest[i] as int].ready_time {
                    now
                } else {
                    tasks[rest[i] as int].ready_time as int
                }) + tasks[rest[i] as int].processing_time) as u64,
                rest[i],
            ),
    )
}

/// The jobs of `rest`, each keyed by what it costs at least when it runs
/// alone behind its cheapest setup at a node with clock `now`.
pub open spec fn by_lone_cost_after_setup(
    tasks: Seq<Task>,
    last: Option<usize>,
    rest: Seq<usize>,
    now: int,
) -> Seq<(u64, usize)> {
    Seq::new(
        rest.len(),
        |i: int|
            (
                ((if now + min_setup_into(tasks, last, rest, rest[i] as int)
                    >= tasks[rest[i] as int].ready_time {
                    now + min_setup_into(tasks, last, rest, rest[i] as int)
                } else {
                    tasks[rest[i] as int].ready_time as int
                }) + tasks[rest[i] as int].processing_time) as u64,
                rest[i],
            ),
    )
}

/// The setup-blind estimate is within what every completion costs at
/// least: the processing times back to back from the clock, shortest
/// first, or every job alone from the clock and its ready time.
pub open spec fn srpt_within(tasks: Seq<Task>, rest: Seq<usize>, now: int) -> bool {
    let sorted = stable_sort(by_processing(tasks, rest));
    let lone = by_lone_cost(tasks, rest, now);
    ||| srpt_bound(tasks, rest, now) <= rest.len() * now + staircase(sorted, rest.len())
    ||| tasks.len() <= MAX_JOBS && srpt_bound(tasks, rest, now) <= key_sum(lone, rest.len())
}

/// The setup-aware estimate is within what every completion costs at
/// least: the relaxed costs back to back from the clock, cheapest first, or
/// every job alone behind its cheapest setup.
pub open spec fn assignment_within(
    tasks: Seq<Task>,
    last: Option<usize>,
    rest: Seq<usize>,
    now: int,
) -> bool {
    let sorted = stable_sort(by_relaxed_cost(tasks, last, rest));
    let lone = by_lone_cost_after_setup(tasks, last, rest, now);
    ||| assignment_bound(tasks, last, rest, now) <= rest.len() * now + staircase(
        sorted,
        rest.len(),
    )
    ||| tasks.len() <= MAX_JOBS && assignment_bound(tasks, last, rest, now) <= key_sum(
        lone,
        rest.len(),
    )
}

/// A run whose every job completes no earlier than its key says costs at
/// least the sum of the keys on top of what was there before.
proof fn lemma_run_exceeds_sum(
    tasks: Seq<Task>,
    full: Seq<usize>,
    k0: nat,
    keyed: Seq<(u64, usize)>,
    len: nat,
)
    requires
        len <= keyed.len(),
        forall|l: int|
            0 <= l < keyed.len() ==> finish_time(tasks, full, (k0 + l + 1) as nat) >= (
            #[trigger] keyed[l]).0,
    ensures
        prefix_cost(tasks, full, k0 + len) >= prefix_cost(tasks, full, k0) + key_sum(keyed, len),
    decreases len,
{
    if len > 0 {
        let prev = (len - 1) as nat;
        lemma_run_exceeds_sum(tasks, full, k0, keyed, prev);
        assert(finish_time(tasks, full, (k0 + prev + 1) as nat) >= keyed[prev as int].0);
    }
}

/// Rearranged, keyed items add up to the same.
proof fn lemma_key_sum_rearranged(a: Seq<(u64, usize)>, b: Seq<(u64, usize)>)
    requires
        a.to_multiset() == b.to_multiset(),
    ensures
        a.len() == b.len(),
        key_sum(a, a.len()) == key_sum(b, b.len()),
{
    lemma_sorted_keys_agree(a, b);
    lemma_sort_lowers_staircase(a);
    lemma_sort_lowers_staircase(b);
    lemma_stable_sort(a);
    lemma_stable_sort(b);
    let sa = stable_sort(a);
    let sb = stable_sort(b);
    assert forall|i: int| 0 <= i < a.len() implies sa[i].0 == sb[i].0 by {
        assert(keys(sa)[i] == sa[i].0);
        assert(keys(sb)[i] == sb[i].0);
    }
    lemma_staircase_of_keys(sa, sb, a.len());
}

/// Every completion of a node costs at least what the node has cost, one
/// clock reading per remaining job and the staircase of the processing
/// times, shortest first.
proof fn lemma_cost_exceeds_staircase(tasks: Seq<Task>, node: Node, full: Seq<usize>)
    requires
        table_wf(tasks),
        node.wf(tasks),
        is_permutation(full, tasks.len()),
        extends(full, node.partial_sequence@),
    ensures
        total_cost(tasks, full) >= node.current_cost + node.remaining_jobs@.len()
            * node.current_time + staircase(
            stable_sort(by_processing(tasks, node.remaining_jobs@)),
            node.remaining_jobs@.len(),
        ),
{
    let placed = node.partial_sequence@;
    let rest = node.remaining_jobs@;
    let k0 = placed.len();
    let m = rest.len();
    let keyed = by_processing(tasks, rest);
    let key_of = |j: usize| (tasks[j as int].processing_time as u64, j);
    let tail = full.skip(k0 as int);
    let run = by_processing(tasks, tail);
    lemma_completion_rearranges(tasks, node, full);
    assert(keyed =~= rest.map_values(key_of));
    assert(run =~= tail.map_values(key_of));
    lemma_map_rearranged(rest, tail, key_of);
    lemma_sorted_staircase_is_least(keyed, run);
    lemma_cost_prefix(tasks, placed, full, k0);
    assert forall|l: int| 0 <= l < run.len() implies finish_time(
        tasks,
        full,
        (k0 + l + 1) as nat,
    ) >= finish_time(tasks, full, (k0 + l) as nat) + (#[trigger] run[l]).0 by {
        lemma_cost_bounds(tasks, full, (k0 + l) as nat);
        assert(full[k0 + l] < tasks.len());
        if k0 + l > 0 {
            assert(full[k0 + l - 1] < tasks.len());
        }
        lemma_step_bounds(
            tasks,
            last_of(full, (k0 + l) as nat),
            finish_time(tasks, full, (k0 + l) as nat),
            full[k0 + l] as int,
        );
        assert(tail[l] == full[k0 + l]);
    }
    lemma_run_exceeds_staircase(tasks, full, k0, run, m);
}

/// Every completion of a node costs at least what the node has cost and
/// what every remaining job costs alone from the clock and its ready time.
proof fn lemma_cost_exceeds_lone(tasks: Seq<Task>, node: Node, full: Seq<usize>)
    requires
        table_wf(tasks),
        tasks.len() <= MAX_JOBS,
        node.wf(tasks),
        is_permutation(full, tasks.len()),
        extends(full, node.partial_sequence@),
    ensures
        total_cost(tasks, full) >= node.current_cost + key_sum(
            by_lone_cost(tasks, node.remaining_jobs@, node.current_time as int),
            node.remaining_jobs@.len(),
        ),
{
    let placed = node.partial_sequence@;
    let rest = node.remaining_jobs@;
    let now = node.current_time as int;
    let k0 = placed.len();
    let m = rest.len();
    let keyed = by_lone_cost(tasks, rest, now);
    let key_of = |j: usize|
        (
            ((if now >= tasks[j as int].ready_time {
                now
            } else {
                tasks[j as int].ready_time as int
            }) + tasks[j as int].processing_time) as u64,
            j,
        );
    let tail = full.skip(k0 as int);
    let run = tail.map_values(key_of);
    lemma_completion_rearranges(tasks, node, full);
    assert(keyed =~= rest.map_values(key_of));
    lemma_map_rearranged(rest, tail, key_of);
    lemma_key_sum_rearranged(keyed, run);
    lemma_cost_prefix(tasks, placed, full, k0);
    lemma_cost_bounds(tasks, placed, k0);
    lemma_within_limits(k0);
    assert forall|l: int| 0 <= l < run.len() implies finish_time(
        tasks,
        full,
        (k0 + l + 1) as nat,
    ) >= (#[trigger] run[l]).0 by {
        lemma_cost_bounds(tasks, full, (k0 + l) as nat);
        lemma_finish_grows(tasks, full, k0, (k0 + l) as nat);
        assert(full[k0 + l] < tasks.len());
        if k0 + l > 0 {
            assert(full[k0 + l - 1] < tasks.len());
        }
        lemma_step_bounds(
            tasks,
            last_of(full, (k0 + l) as nat),
            finish_time(tasks, full, (k0 + l) as nat),
            full[k0 + l] as int,
        );
        assert(tail[l] == full[k0 + l]);
    }
    lemma_run_exceeds_sum(tasks, full, k0, run, m);
}

/// At a node where the setup-blind estimate is within what every completion
/// costs at least, the setup-blind bound is not above the cost of any
/// completion.
pub proof fn lemma_srpt_admissible(tasks: Seq<Task>, node: Node)
    requires
        table_wf(tasks),
        node.wf(tasks),
        srpt_within(tasks, node.remaining_jobs@, node.current_time as int),
    ensures
        beats_all_from(
            tasks,
            lower_bound(tasks, node, BoundingStrategy::ATCS),
            node.partial_sequence@,
        ),
{
    let placed = node.partial_sequence@;
    assert forall|full: Seq<usize>| #[trigger]
        is_permutation(full, tasks.len()) && extends(full, placed) implies lower_bound(
        tasks,
        node,
        BoundingStrategy::ATCS,
    ) <= total_cost(tasks, full) by {
        lemma_cost_exceeds_staircase(tasks, node, full);
        if tasks.len() <= MAX_JOBS {
            lemma_cost_exceeds_lone(tasks, node, full);
        }
    }
}

/// Where the shortest-first run of the remaining jobs never waits, the
/// setup-blind estimate is the staircase of the processing times from the
/// clock, and so within what every completion costs at least.
pub proof fn lemma_never_waits_within(tasks: Seq<Task>, rest: Seq<usize>, now: int)
    requires
        srpt_never_waits(tasks, rest, now),
    ensures
        srpt_within(tasks, rest, now),
{
    let keyed = by_processing(tasks, rest);
    let sorted = stable_sort(keyed);
    lemma_stable_sort(keyed);
    assert forall|i: int| 0 <= i < sorted.len() implies (#[trigger] sorted[i]).0
        == tasks[sorted[i].1 as int].processing_time by {
        lemma_sorted_item(keyed, i);
        let a = choose|a: int| 0 <= a < keyed.len() && keyed[a] == sorted[i];
        assert(keyed[a].1 == rest[a]);
    }
    lemma_release_is_staircase(tasks, sorted, now, rest.len());
}

/// With one job left the setup-blind estimate is what that job costs alone,
/// however late it is ready.
pub proof fn lemma_one_job_within(tasks: Seq<Task>, rest: Seq<usize>, now: int)
    requires
        tasks.len() <= MAX_JOBS,
        rest.len() == 1,
        rest[0] < tasks.len(),
        0 <= now <= u64::MAX - 0x2_0000_0000,
    ensures
        srpt_within(tasks, rest, now),
{
    let keyed = by_processing(tasks, rest);
    let sorted = stable_sort(keyed);
    let lone = by_lone_cost(tasks, rest, now);
    lemma_stable_sort(keyed);
    lemma_sorted_item(keyed, 0);
    assert(sorted[0] == keyed[0]);
    assert(release_finish(tasks, sorted, now, 0) == now);
    assert(release_cost(tasks, sorted, now, 0) == 0);
    assert(release_cost(tasks, sorted, now, 1) == release_finish(tasks, sorted, now, 1));
    assert(key_sum(lone, 0) == 0);
    assert(key_sum(lone, 1) == lone[0].0);
}

/// The setup that a job of a completion pays is at least its cheapest one.
proof fn lemma_setup_exceeds_least(tasks: Seq<Task>, node: Node, full: Seq<usize>, l: int)
    requires
        table_wf(tasks),
        node.wf(tasks),
        node.partial_sequence@.len() > 0,
        is_permutation(full, tasks.len()),
        extends(full, node.partial_sequence@),
        0 <= l < node.remaining_jobs@.len(),
    ensures
        full[node.partial_sequence@.len() + l] < tasks.len(),
        full[node.partial_sequence@.len() + l - 1] < tasks.len(),
        0 <= min_setup_into(
            tasks,
            node.last_job_idx,
            node.remaining_jobs@,
            full[node.partial_sequence@.len() + l] as int,
        ) <= setup(
            tasks,
            full[node.partial_sequence@.len() + l - 1] as int,
            full[node.partial_sequence@.len() + l] as int,
        ),
        min_setup_into(
            tasks,
            node.last_job_idx,
            node.remaining_jobs@,
            full[node.partial_sequence@.len() + l] as int,
        ) <= u32::MAX,
{
    broadcast use vstd::seq_lib::group_to_multiset_ensures;

    let placed = node.partial_sequence@;
    let rest = node.remaining_jobs@;
    let k0 = placed.len();
    let m = rest.len();
    let held = placed[k0 - 1];
    let tail = full.skip(k0 as int);
    lemma_completion_rearranges(tasks, node, full);
    let job = full[k0 + l];
    let before = full[k0 + l - 1];
    assert(tail[l] == job);
    assert(job < tasks.len());
    assert(before < tasks.len());
    assert(held < tasks.len());
    assert(tasks[held as int].switch_time@.len() == tasks.len());
    assert(tasks[before as int].switch_time@.len() == tasks.len());
    let start = setup(tasks, held as int, job as int);
    lemma_least_setup(tasks, rest, job as int, start, m);
    if l == 0 {
        assert(before == held);
        lemma_least_setup_le_start(tasks, rest, job as int, start, m);
    } else {
        assert(before == tail[l - 1]);
        assert(before != job);
        assert(tail.to_multiset().count(before) > 0);
        assert(rest.contains(before));
        let k = choose|k: int| 0 <= k < rest.len() && rest[k] == before;
        lemma_least_setup_is_least(tasks, rest, job as int, start, m, k);
    }
}

/// Every completion of a node with a job placed costs at least what the
/// node has cost, one clock reading per remaining job and the staircase of
/// the relaxed costs, cheapest first.
proof fn lemma_cost_exceeds_relaxed_staircase(tasks: Seq<Task>, node: Node, full: Seq<usize>)
    requires
        table_wf(tasks),
        node.wf(tasks),
        node.partial_sequence@.len() > 0,
        is_permutation(full, tasks.len()),
        extends(full, node.partial_sequence@),
    ensures
        total_cost(tasks, full) >= node.current_cost + node.remaining_jobs@.len()
            * node.current_time + staircase(
            stable_sort(by_relaxed_cost(tasks, node.last_job_idx, node.remaining_jobs@)),
            node.remaining_jobs@.len(),
        ),
{
    let placed = node.partial_sequence@;
    let rest = node.remaining_jobs@;
    let last = node.last_job_idx;
    let k0 = placed.len();
    let m = rest.len();
    let keyed = by_relaxed_cost(tasks, last, rest);
    let key_of = |j: usize|
        ((tasks[j as int].processing_time + min_setup_into(tasks, last, rest, j as int)) as u64, j);
    let tail = full.skip(k0 as int);
    let run = tail.map_values(key_of);
    lemma_completion_rearranges(tasks, node, full);
    assert(keyed =~= rest.map_values(key_of));
    lemma_map_rearranged(rest, tail, key_of);
    lemma_sorted_staircase_is_least(keyed, run);
    lemma_cost_prefix(tasks, placed, full, k0);
    assert forall|l: int| 0 <= l < run.len() implies finish_time(
        tasks,
        full,
        (k0 + l + 1) as nat,
    ) >= finish_time(tasks, full, (k0 + l) as nat) + (#[trigger] run[l]).0 by {
        lemma_setup_exceeds_least(tasks, node, full, l);
        let job = full[k0 + l];
        let before = full[k0 + l - 1];
        assert(tail[l] == job);
        lemma_cost_bounds(tasks, full, (k0 + l) as nat);
        assert(last_of(full, (k0 + l) as nat) == Some(before));
        assert(finish_time(tasks, full, (k0 + l + 1) as nat) >= finish_time(
            tasks,
            full,
            (k0 + l) as nat,
        ) + setup(tasks, before as int, job as int) + tasks[job as int].processing_time);
    }
    lemma_run_exceeds_staircase(tasks, full, k0, run, m);
}

/// Every completion of a node with a job placed costs at least what the
/// node has cost and what every remaining job costs alone behind its
/// cheapest setup.
proof fn lemma_cost_exceeds_lone_after_setup(tasks: Seq<Task>, node: Node, full: Seq<usize>)
    requires
        table_wf(tasks),
        tasks.len() <= MAX_JOBS,
        node.wf(tasks),
        node.partial_sequence@.len() > 0,
        is_permutation(full, tasks.len()),
        extends(full, node.partial_sequence@),
    ensures
        total_cost(tasks, full) >= node.current_cost + key_sum(
            by_lone_cost_after_setup(
                tasks,
                node.last_job_idx,
                node.remaining_jobs@,
                node.current_time as int,
            ),
            node.remaining_jobs@.len(),
        ),
{
    let placed = node.partial_sequence@;
    let rest = node.remaining_jobs@;
    let last = node.last_job_idx;
    let now = node.current_time as int;
    let k0 = placed.len();
    let m = rest.len();
    let keyed = by_lone_cost_after_setup(tasks, last, rest, now);
    let key_of = |j: usize|
        (
            ((if now + min_setup_into(tasks, last, rest, j as int) >= tasks[j as int].ready_time {
                now + min_setup_into(tasks, last, rest, j as int)
            } else {
                tasks[j as int].ready_time as int
            }) + tasks[j as int].processing_time) as u64,
            j,
        );
    let tail = full.skip(k0 as int);
    let run = tail.map_values(key_of);
    lemma_completion_rearranges(tasks, node, full);
    assert(keyed =~= rest.map_values(key_of));
    lemma_map_rearranged(rest, tail, key_of);
    lemma_key_sum_rearranged(keyed, run);
    lemma_cost_prefix(tasks, placed, full, k0);
    lemma_cost_bounds(tasks, placed, k0);
    lemma_within_limits(k0);
    assert forall|l: int| 0 <= l < run.len() implies finish_time(
        tasks,
        full,
        (k0 + l + 1) as nat,
    ) >= (#[trigger] run[l]).0 by {
        lemma_setup_exceeds_least(tasks, node, full, l);
        let job = full[k0 + l];
        let before = full[k0 + l - 1];
        assert(tail[l] == job);
        lemma_cost_bounds(tasks, full, (k0 + l) as nat);
        lemma_finish_grows(tasks, full, k0, (k0 + l) as nat);
        assert(last_of(full, (k0 + l) as nat) == Some(before));
    }
    lemma_run_exceeds_sum(tasks, full, k0, run, m);
}

/// At a node where a job is placed and the setup-aware estimate is within
/// what every completion costs at least, the setup-aware bound is not above
/// the cost of any completion.
pub proof fn lemma_assignment_admissible(tasks: Seq<Task>, node: Node)
    requires
        table_wf(tasks),
        node.wf(tasks),
        node.partial_sequence@.len() > 0,
        assignment_within(
            tasks,
            node.last_job_idx,
            node.remaining_jobs@,
            node.current_time as int,
        ),
    ensures
        beats_all_from(
            tasks,
            lower_bound(tasks, node, BoundingStrategy::INSERT),
            node.partial_sequence@,
        ),
{
    let placed = node.partial_sequence@;
    assert forall|full: Seq<usize>| #[trigger]
        is_permutation(full, tasks.len()) && extends(full, placed) implies lower_bound(
        tasks,
        node,
        BoundingStrategy::INSERT,
    ) <= total_cost(tasks, full) by {
        lemma_cost_exceeds_relaxed_staircase(tasks, node, full);
        if tasks.len() <= MAX_JOBS {
            lemma_cost_exceeds_lone_after_setup(tasks, node, full);
        }
    }
}

/// Where some remaining job is ready, the setup-aware estimate is the
/// staircase of the relaxed costs from the clock, and so within what every
/// completion costs at least.
pub proof fn lemma_some_released_within(
    tasks: Seq<Task>,
    last: Option<usize>,
    rest: Seq<usize>,
    now: int,
)
    requires
        some_released(tasks, rest, now),
    ensures
        assignment_within(tasks, last, rest, now),
{
    lemma_stable_sort(by_relaxed_cost(tasks, last, rest));
    if rest.len() == 0 {
        assert(staircase(stable_sort(by_relaxed_cost(tasks, last, rest)), 0) == 0);
    }
}

/// On a table where every job is ready by the time the first one completes,
/// each of the three bounds is admissible: an exhaustive search that prunes
/// with it ends with an optimal order.
pub proof fn lemma_ready_early_admissible(tasks: Seq<Task>, strategy: BoundingStrategy)
    requires
        table_wf(tasks),
        ready_early(tasks),
    ensures
        admissible(tasks, strategy),
{
    assert forall|node: Node| #[trigger]
        node.wf(tasks) && node.partial_sequence@.len() > 0 implies beats_all_from(
        tasks,
        lower_bound(tasks, node, strategy),
        node.partial_sequence@,
    ) by {
        let placed = node.partial_sequence@;
        let rest = node.remaining_jobs@;
        let first = placed[0];
        assert(first < tasks.len());
        lemma_finish_grows(tasks, placed, 1, placed.len());
        lemma_step_bounds(tasks, None, 0, first as int);
        assert(finish_time(tasks, placed, 0) == 0);
        assert(finish_time(tasks, placed, 1) >= tasks[first as int].ready_time
            + tasks[first as int].processing_time);
        assert forall|i: int| 0 <= i < rest.len() implies tasks[(#[trigger] rest[i]) as int].ready_time
            <= node.current_time by {
            assert(rest[i] < tasks.len());
        }
        lemma_released_never_waits(tasks, rest, node.current_time as int);
        lemma_never_waits_within(tasks, rest, node.current_time as int);
        lemma_some_released_within(tasks, node.last_job_idx, rest, node.current_time as int);
        lemma_srpt_admissible(tasks, node);
        lemma_assignment_admissible(tasks, node);
        lemma_hybrid_stays_admissible(tasks, node);
    }
}

} // verus!
