//! A job order with its cost and a cache of the cost and the clock up to
//! every position.

use crate::problem_1::models::{
    finish_time, last_of, lemma_cost_bounds, lemma_cost_prefix, lemma_within_limits, order_valid,
    prefix_cost, step_from, table_wf, total_cost, Task, MAX_JOBS,
};
use vstd::prelude::*;

verus! {

/// An order under refinement. `score_partials[i]` and `time_partials[i]` are
/// meant to hold the cost and the clock of the first `i + 1` jobs.
#[derive(Debug)]
pub struct Schedule<'a> {
    pub task_ids: Vec<usize>,
    pub score: u64,
    pub score_partials: Vec<u64>,
    pub time_partials: Vec<u64>,
    pub tasks_ref: &'a Vec<Task>,
}

impl<'a> Clone for Schedule<'a> {
    fn clone(&self) -> (copy: Self)
        ensures
            copy.task_ids@ == self.task_ids@,
            copy.score == self.score,
            copy.score_partials@ == self.score_partials@,
            copy.time_partials@ == self.time_partials@,
            copy.tasks_ref == self.tasks_ref,
    {
        Schedule {
            task_ids: self.task_ids.clone(),
            score: self.score,
            score_partials: self.score_partials.clone(),
            time_partials: self.time_partials.clone(),
            tasks_ref: self.tasks_ref,
        }
    }
}

impl<'a> Schedule<'a> {
    /// The order is made of jobs of the table and the caches have room for
    /// it.
    pub open spec fn wf(&self) -> bool {
        &&& table_wf(self.tasks_ref@)
        &&& self.tasks_ref@.len() <= MAX_JOBS
        &&& order_valid(self.tasks_ref@, self.task_ids@)
        &&& self.task_ids@.len() <= self.tasks_ref@.len()
        &&& self.score_partials@.len() == self.tasks_ref@.len()
        &&& self.time_partials@.len() == self.tasks_ref@.len()
    }

    /// The caches are right for the first `len` positions of the order.
    pub open spec fn cached_upto(&self, len: int) -> bool {
        forall|i: int|
            0 <= i < len ==> #[trigger] self.score_partials@[i] == prefix_cost(
                self.tasks_ref@,
                self.task_ids@,
                (i + 1) as nat,
            ) && self.time_partials@[i] == finish_time(
                self.tasks_ref@,
                self.task_ids@,
                (i + 1) as nat,
            )
    }

    /// The score is the cost of the order and the caches are right for all
    /// of it.
    pub open spec fn consistent(&self) -> bool {
        &&& self.wf()
        &&& self.cached_upto(self.task_ids@.len() as int)
        &&& self.score == total_cost(self.tasks_ref@, self.task_ids@)
    }

    /// The order, the table and the caches of `self` are those of `other`.
    pub open spec fn same_as(&self, other: &Self) -> bool {
        &&& self.task_ids@ == other.task_ids@
        &&& self.score == other.score
        &&& self.score_partials@ == other.score_partials@
        &&& self.time_partials@ == other.time_partials@
        &&& self.tasks_ref == other.tasks_ref
    }

    /// A schedule of `initial_task_ids`, scored, with its caches filled.
    pub fn new(initial_task_ids: Vec<usize>, tasks_ref: &'a Vec<Task>) -> (schedule: Self)
        requires
            table_wf(tasks_ref@),
            tasks_ref@.len() <= MAX_JOBS,
            order_valid(tasks_ref@, initial_task_ids@),
            initial_task_ids@.len() <= tasks_ref@.len(),
        ensures
            schedule.consistent(),
            schedule.task_ids@ == initial_task_ids@,
            schedule.tasks_ref == tasks_ref,
    {
        let mut schedule = Self {
            task_ids: initial_task_ids,
            score: 0,
            score_partials: vec![0; tasks_ref.len()],
            time_partials: vec![0; tasks_ref.len()],
            tasks_ref,
        };
        schedule.calculate_full_score();
        schedule
    }

    /// The cost of the order, computed from position `start_idx` on: the
    /// caches must be right for the positions before it, and whatever
    /// changed in the order must lie at or behind it. Nothing is stored.
    /// With `start_idx` at or past the end the stored score is returned.
    pub fn recalculate_score_from_index(&mut self, start_idx: usize) -> (score: u64)
        requires
            old(self).wf(),
            start_idx < old(self).task_ids@.len() ==> old(self).cached_upto(start_idx as int),
        ensures
            final(self).same_as(old(self)),
            start_idx < old(self).task_ids@.len() ==> score == total_cost(
                old(self).tasks_ref@,
                old(self).task_ids@,
            ),
            start_idx >= old(self).task_ids@.len() ==> score == old(self).score,
    {
        let n: usize = self.task_ids.len();
        if start_idx >= n {
            return self.score;
        }
        let mut total_score: u64 = if start_idx == 0 {
            0
        } else {
            self.score_partials[start_idx - 1]
        };
        let mut current_time: u64 = if start_idx == 0 {
            0
        } else {
            self.time_partials[start_idx - 1]
        };
        let mut i: usize = start_idx;
        while i < n
            invariant
                start_idx <= i <= n,
                n == self.task_ids@.len(),
                self.wf(),
                self.same_as(old(self)),
                total_score == prefix_cost(self.tasks_ref@, self.task_ids@, i as nat),
                current_time == finish_time(self.tasks_ref@, self.task_ids@, i as nat),
            decreases n - i,
        {
            proof {
                lemma_cost_bounds(self.tasks_ref@, self.task_ids@, i as nat);
                lemma_cost_bounds(self.tasks_ref@, self.task_ids@, (i + 1) as nat);
                lemma_within_limits(i as nat);
                lemma_within_limits((i + 1) as nat);
                if i > 0 {
                    assert(self.task_ids@[i - 1] < self.tasks_ref@.len());
                }
            }
            let task_id: usize = self.task_ids[i];
            let prev: Option<usize> = if i == 0 {
                None
            } else {
                Some(self.task_ids[i - 1])
            };
            assert(prev == last_of(self.task_ids@, i as nat));
            current_time = step_from(self.tasks_ref, prev, current_time, task_id);
            total_score = total_score + current_time;
            i = i + 1;
        }
        total_score
    }

    /// Scores the order from scratch and fills the caches for all of it.
    pub fn calculate_full_score(&mut self)
        requires
            old(self).wf(),
        ensures
            final(self).consistent(),
            final(self).task_ids@ == old(self).task_ids@,
            final(self).tasks_ref == old(self).tasks_ref,
    {
        self.refresh_from_index(0);
    }

    /// Scores the order and fills the caches from position `start_idx` on;
    /// the caches must be right for the positions before it.
    pub fn refresh_from_index(&mut self, start_idx: usize)
        requires
            old(self).wf(),
            start_idx <= old(self).task_ids@.len(),
            old(self).cached_upto(start_idx as int),
        ensures
            final(self).consistent(),
            final(self).task_ids@ == old(self).task_ids@,
            final(self).tasks_ref == old(self).tasks_ref,
    {
        let n: usize = self.task_ids.len();
        let mut total_score: u64 = if start_idx == 0 {
            0
        } else {
            self.score_partials[start_idx - 1]
        };
        let mut current_time: u64 = if start_idx == 0 {
            0
        } else {
            self.time_partials[start_idx - 1]
        };
        let mut i: usize = start_idx;
        while i < n
            invariant
                start_idx <= i <= n,
                n == self.task_ids@.len(),
                self.wf(),
                self.task_ids@ == old(self).task_ids@,
                self.tasks_ref == old(self).tasks_ref,
                self.cached_upto(i as int),
                total_score == prefix_cost(self.tasks_ref@, self.task_ids@, i as nat),
                current_time == finish_time(self.tasks_ref@, self.task_ids@, i as nat),
            decreases n - i,
        {
            proof {
                lemma_cost_bounds(self.tasks_ref@, self.task_ids@, i as nat);
                lemma_cost_bounds(self.tasks_ref@, self.task_ids@, (i + 1) as nat);
                lemma_within_limits(i as nat);
                lemma_within_limits((i + 1) as nat);
                if i > 0 {
                    assert(self.task_ids@[i - 1] < self.tasks_ref@.len());
                }
            }
            let task_id: usize = self.task_ids[i];
            let prev: Option<usize> = if i == 0 {
                None
            } else {
                Some(self.task_ids[i - 1])
            };
            assert(prev == last_of(self.task_ids@, i as nat));
            current_time = step_from(self.tasks_ref, prev, current_time, task_id);
            total_score = total_score + current_time;
            self.score_partials.set(i, total_score);
            self.time_partials.set(i, current_time);
            i = i + 1;
        }
        self.score = total_score;
    }
}

/// A change at or behind position `start` leaves the caches right for the
/// positions before it: there the old and the new order cost the same.
pub proof fn lemma_cache_survives(before: Schedule, after: Schedule, start: int)
    requires
        before.cached_upto(start),
        0 <= start <= before.task_ids@.len(),
        start <= after.task_ids@.len(),
        forall|i: int| 0 <= i < start ==> before.task_ids@[i] == after.task_ids@[i],
        after.score_partials@ == before.score_partials@,
        after.time_partials@ == before.time_partials@,
        after.tasks_ref == before.tasks_ref,
    ensures
        after.cached_upto(start),
{
    assert forall|i: int| 0 <= i < start implies #[trigger] after.score_partials@[i]
        == prefix_cost(after.tasks_ref@, after.task_ids@, (i + 1) as nat)
        && after.time_partials@[i] == finish_time(
        after.tasks_ref@,
        after.task_ids@,
        (i + 1) as nat,
    ) by {
        lemma_cost_prefix(before.tasks_ref@, before.task_ids@, after.task_ids@, (i + 1) as nat);
        assert(before.score_partials@[i] == prefix_cost(
            before.tasks_ref@,
            before.task_ids@,
            (i + 1) as nat,
        ));
    }
}

} // verus!
