//! What is measured of an instance before a strategy is chosen.

use crate::problem_1::models::{setup, table_wf, Instance, InstanceMetrics, Task, MAX_JOBS};
use vstd::prelude::*;

verus! {

/// Sum of the processing times of the first `count` jobs.
pub open spec fn processing_total(tasks: Seq<Task>, count: nat) -> int
    decreases count,
{
    if count == 0 {
        0
    } else {
        processing_total(tasks, (count - 1) as nat) + tasks[count - 1].processing_time
    }
}

/// Sum of the setups from job `from` to the first `count` jobs other than
/// itself.
pub open spec fn row_total(tasks: Seq<Task>, from: int, count: nat) -> int
    decreases count,
{
    if count == 0 {
        0
    } else {
        row_total(tasks, from, (count - 1) as nat) + if count - 1 == from {
            0
        } else {
            setup(tasks, from, count - 1)
        }
    }
}

/// Sum of the setups from the first `count` jobs to all other jobs.
pub open spec fn setup_total(tasks: Seq<Task>, count: nat) -> int
    decreases count,
{
    if count == 0 {
        0
    } else {
        setup_total(tasks, (count - 1) as nat) + row_total(tasks, count - 1, tasks.len())
    }
}

/// The metrics of a job table: its size and the two sums from which the
/// average processing time, the average setup between different jobs and
/// their ratio follow.
pub open spec fn metrics_of(tasks: Seq<Task>) -> InstanceMetrics {
    InstanceMetrics {
        n: tasks.len() as usize,
        total_processing: processing_total(tasks, tasks.len()) as u64,
        total_setup: setup_total(tasks, tasks.len()) as u64,
    }
}

/// Sums of at most `count` numbers below `2^32` stay below `count * 2^32`.
proof fn lemma_totals_fit(tasks: Seq<Task>, from: int, count: nat)
    requires
        table_wf(tasks),
        0 <= from < tasks.len(),
        count <= tasks.len(),
    ensures
        0 <= processing_total(tasks, count) <= count * 0x1_0000_0000,
        0 <= row_total(tasks, from, count) <= count * 0x1_0000_0000,
    decreases count,
{
    if count > 0 {
        lemma_totals_fit(tasks, from, (count - 1) as nat);
        assert(tasks[from].switch_time@.len() == tasks.len());
    }
}

/// The setups of `count` rows stay below `count * n * 2^32`.
proof fn lemma_setup_total_fits(tasks: Seq<Task>, count: nat)
    requires
        table_wf(tasks),
        count <= tasks.len(),
    ensures
        0 <= setup_total(tasks, count) <= count * tasks.len() * 0x1_0000_0000,
    decreases count,
{
    if count > 0 {
        lemma_setup_total_fits(tasks, (count - 1) as nat);
        lemma_totals_fit(tasks, count - 1, tasks.len());
        let n = tasks.len();
        assert((count - 1) * n * 0x1_0000_0000 + n * 0x1_0000_0000 == count * n * 0x1_0000_0000)
            by (nonlinear_arith);
    } else {
        assert(count * tasks.len() * 0x1_0000_0000 == 0) by (nonlinear_arith)
            requires
                count == 0,
        ;
    }
}

/// Measures `instance`.
pub fn analyze_instance(instance: &Instance) -> (metrics: InstanceMetrics)
    requires
        instance.wf(),
    ensures
        metrics == metrics_of(instance.tasks@),
{
    let n: usize = instance.tasks.len();
    let ghost tasks = instance.tasks@;
    let mut total_processing: u64 = 0;
    let mut total_setup: u64 = 0;
    let mut i: usize = 0;
    while i < n
        invariant
            i <= n,
            n == tasks.len(),
            n <= MAX_JOBS,
            tasks == instance.tasks@,
            table_wf(tasks),
            total_processing == processing_total(tasks, i as nat),
            total_setup == setup_total(tasks, i as nat),
        decreases n - i,
    {
        proof {
            lemma_totals_fit(tasks, i as int, (i + 1) as nat);
            lemma_setup_total_fits(tasks, (i + 1) as nat);
            lemma_room(n as nat, (i + 1) as nat);
        }
        total_processing = total_processing + instance.tasks[i].processing_time as u64;
        let mut row: u64 = 0;
        let mut j: usize = 0;
        assert(tasks[i as int].switch_time@.len() == n);
        while j < n
            invariant
                j <= n,
                i < n,
                n == tasks.len(),
                n <= MAX_JOBS,
                tasks == instance.tasks@,
                table_wf(tasks),
                tasks[i as int].switch_time@.len() == n,
                row == row_total(tasks, i as int, j as nat),
            decreases n - j,
        {
            proof {
                lemma_totals_fit(tasks, i as int, (j + 1) as nat);
                lemma_room(n as nat, (j + 1) as nat);
            }
            if j != i {
                row = row + instance.tasks[i].switch_time[j] as u64;
            }
            j = j + 1;
        }
        total_setup = total_setup + row;
        i = i + 1;
    }
    InstanceMetrics { n, total_processing, total_setup }
}

/// With at most `MAX_JOBS` jobs both sums fit in 64 bits.
proof fn lemma_room(n: nat, count: nat)
    requires
        count <= n <= MAX_JOBS,
    ensures
        count * 0x1_0000_0000 <= 0x1_0000_0000_0000,
        count * n * 0x1_0000_0000 <= 0x8000_0000_0000_0000,
{
    assert(count * 0x1_0000_0000 <= 0x1_0000_0000_0000) by (nonlinear_arith)
        requires
            count <= 46340,
    ;
    assert(count * n <= 46340 * 46340) by (nonlinear_arith)
        requires
            0 <= count <= 46340,
            0 <= n <= 46340,
    ;
    assert(count * n * 0x1_0000_0000 <= 0x8000_0000_0000_0000) by (nonlinear_arith)
        requires
            0 <= count * n <= 2147395600,
    ;
}

impl Instance {
    /// Measures the instance and stores what was measured.
    pub fn analyze(&mut self)
        requires
            old(self).wf(),
        ensures
            final(self).metrics == metrics_of(old(self).tasks@),
            final(self).tasks == old(self).tasks,
            final(self).n == old(self).n,
    {
        let metrics: InstanceMetrics = analyze_instance(self);
        self.metrics = metrics;
    }
}

} // verus!
