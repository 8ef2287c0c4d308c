//! Partial sequences and the exact search over them.

use crate::problem_1::algo::bounds::{
    calculate_lb, lower_bound, remaining_bound, BoundingStrategy,
};
use crate::problem_1::algo::sorting::{lemma_stable_sort, sort_by_key, stable_sort};
use crate::problem_1::clock::Deadline;
use crate::problem_1::models::{
    all_jobs, best_of, is_permutation, last_of, lemma_cost_bounds, lemma_cost_prefix, lemma_within_limits, makespan,
    order_valid, step, step_from, table_wf, total_cost, GlobalBest, Instance, Solution, Task,
    MAX_JOBS,
};
use std::time::{Duration, Instant};
use vstd::prelude::*;

verus! {

/// A partial sequence: the jobs placed so far, in order, and those still to
/// place, by ascending id.
#[derive(Debug)]
pub struct Node {
    pub partial_sequence: Vec<usize>,
    pub remaining_jobs: Vec<usize>,
    /// Completion time of the last placed job.
    pub current_time: u64,
    /// Sum of the completion times of the placed jobs.
    pub current_cost: u64,
    pub last_job_idx: Option<usize>,
}

/// `placed` and `rest` split the jobs of an `n`-job table: nothing twice,
/// nothing missing, `rest` ascending.
pub open spec fn splits_jobs(placed: Seq<usize>, rest: Seq<usize>, n: nat) -> bool {
    &&& placed.len() + rest.len() == n
    &&& forall|i: int| 0 <= i < placed.len() ==> (#[trigger] placed[i]) < n
    &&& forall|i: int, j: int| 0 <= i < j < placed.len() ==> placed[i] != placed[j]
    &&& forall|i: int| 0 <= i < rest.len() ==> (#[trigger] rest[i]) < n
    &&& forall|i: int, j: int| 0 <= i < j < rest.len() ==> rest[i] < rest[j]
    &&& forall|i: int, k: int| 0 <= i < placed.len() && 0 <= k < rest.len() ==> placed[i] != rest[k]
    &&& forall|j: usize| j < n ==> placed.contains(j) || rest.contains(j)
}

impl Node {
    /// The node splits the jobs of `tasks` and its clock, cost and last job
    /// are those of its placed sequence.
    pub open spec fn wf(&self, tasks: Seq<Task>) -> bool {
        &&& splits_jobs(self.partial_sequence@, self.remaining_jobs@, tasks.len())
        &&& self.current_time == makespan(tasks, self.partial_sequence@)
        &&& self.current_cost == total_cost(tasks, self.partial_sequence@)
        &&& self.last_job_idx == last_of(self.partial_sequence@, self.partial_sequence@.len())
    }

    /// The empty sequence with all jobs still to place.
    pub fn root(tasks: &Vec<Task>) -> (node: Node)
        ensures
            node.wf(tasks@),
            node.partial_sequence@ == Seq::<usize>::empty(),
            node.remaining_jobs@ == all_jobs(tasks@.len()),
            node@ == root_of(tasks@.len()),
    {
        let n: usize = tasks.len();
        let mut remaining: Vec<usize> = Vec::new();
        let mut i: usize = 0;
        while i < n
            invariant
                i <= n,
                remaining@.len() == i,
                forall|k: int| 0 <= k < i ==> remaining@[k] == k,
            decreases n - i,
        {
            remaining.push(i);
            i = i + 1;
        }
        let node = Node {
            partial_sequence: Vec::new(),
            remaining_jobs: remaining,
            current_time: 0,
            current_cost: 0,
            last_job_idx: None,
        };
        proof {
            assert forall|j: usize| j < n implies node.remaining_jobs@.contains(j) by {
                assert(node.remaining_jobs@[j as int] == j);
            }
            assert(node.remaining_jobs@ =~= all_jobs(n as nat));
            assert(node.partial_sequence@ =~= Seq::<usize>::empty());
        }
        node
    }

    /// This node with the remaining job at `pos` placed next.
    pub fn child(&self, tasks: &Vec<Task>, pos: usize) -> (next: Node)
        requires
            table_wf(tasks@),
            tasks.len() <= MAX_JOBS,
            self.wf(tasks@),
            pos < self.remaining_jobs.len(),
        ensures
            next.wf(tasks@),
            next.partial_sequence@ == self.partial_sequence@.push(self.remaining_jobs@[pos as int]),
            next.remaining_jobs@ == self.remaining_jobs@.remove(pos as int),
            next.current_time == step(
                tasks@,
                self.last_job_idx,
                self.current_time as int,
                self.remaining_jobs@[pos as int] as int,
            ),
            next.current_cost == self.current_cost + next.current_time,
            next.last_job_idx == Some(self.remaining_jobs@[pos as int]),
    {
        let job: usize = self.remaining_jobs[pos];
        let ghost placed = self.partial_sequence@;
        let ghost rest = self.remaining_jobs@;
        let ghost grown = placed.push(job);
        proof {
            assert(order_valid(tasks@, placed));
            assert(order_valid(tasks@, grown));
            lemma_cost_bounds(tasks@, placed, placed.len());
            lemma_within_limits(placed.len());
            lemma_cost_prefix(tasks@, placed, grown, placed.len());
            if placed.len() > 0 {
                assert(placed[placed.len() - 1] < tasks.len());
            }
        }
        let done: u64 = step_from(tasks, self.last_job_idx, self.current_time, job);
        proof {
            lemma_cost_bounds(tasks@, grown, grown.len());
            lemma_within_limits(grown.len());
            assert(last_of(grown, placed.len()) == last_of(placed, placed.len()));
        }
        let mut sequence: Vec<usize> = self.partial_sequence.clone();
        sequence.push(job);
        let mut remaining: Vec<usize> = self.remaining_jobs.clone();
        remaining.remove(pos);
        let next = Node {
            partial_sequence: sequence,
            remaining_jobs: remaining,
            current_time: done,
            current_cost: self.current_cost + done,
            last_job_idx: Some(job),
        };
        proof {
            let shrunk = rest.remove(pos as int);
            assert(next.partial_sequence@ == grown);
            assert(next.remaining_jobs@ == shrunk);
            assert forall|j: usize| j < tasks.len() implies grown.contains(j) || shrunk.contains(
                j,
            ) by {
                if placed.contains(j) {
                    let i = choose|i: int| 0 <= i < placed.len() && placed[i] == j;
                    assert(grown[i] == j);
                } else if j == job {
                    assert(grown[placed.len() as int] == j);
                } else {
                    let k = choose|k: int| 0 <= k < rest.len() && rest[k] == j;
                    if k < pos {
                        assert(shrunk[k] == j);
                    } else {
                        assert(shrunk[k - 1] == j);
                    }
                }
            }
        }
        next
    }
}

/// A partial sequence as plain values: the jobs placed, the jobs left, the
/// completion time of the last job placed, the sum of the completion times,
/// and the last job placed.
pub struct Partial {
    pub placed: Seq<usize>,
    pub rest: Seq<usize>,
    pub time: int,
    pub cost: int,
    pub last: Option<usize>,
}

impl View for Node {
    type V = Partial;

    open spec fn view(&self) -> Partial {
        Partial {
            placed: self.partial_sequence@,
            rest: self.remaining_jobs@,
            time: self.current_time as int,
            cost: self.current_cost as int,
            last: self.last_job_idx,
        }
    }
}

/// The empty sequence with all of `n` jobs left.
pub open spec fn root_of(n: nat) -> Partial {
    Partial { placed: Seq::empty(), rest: all_jobs(n), time: 0, cost: 0, last: None }
}

/// `node` with the job at position `pos` of those left placed next.
pub open spec fn child_of(tasks: Seq<Task>, node: Partial, pos: int) -> Partial {
    let job = node.rest[pos];
    let done = step(tasks, node.last, node.time, job as int);
    Partial {
        placed: node.placed.push(job),
        rest: node.rest.remove(pos),
        time: done,
        cost: node.cost + done,
        last: Some(job),
    }
}

/// `full` starts with `placed`.
pub open spec fn extends(full: Seq<usize>, placed: Seq<usize>) -> bool {
    &&& placed.len() <= full.len()
    &&& forall|i: int| 0 <= i < placed.len() ==> full[i] == placed[i]
}

/// No complete order that starts with `placed` costs less than `score`.
pub open spec fn beats_all_from(tasks: Seq<Task>, score: int, placed: Seq<usize>) -> bool {
    forall|full: Seq<usize>| #[trigger]
        is_permutation(full, tasks.len()) && extends(full, placed) ==> score <= total_cost(
            tasks,
            full,
        )
}

/// The bound of `strategy` is admissible on `tasks`: at every node with a
/// job placed it is not above the cost of any completion of that node.
pub open spec fn admissible(tasks: Seq<Task>, strategy: BoundingStrategy) -> bool {
    forall|node: Node| #[trigger]
        node.wf(tasks) && node.partial_sequence@.len() > 0 ==> beats_all_from(
            tasks,
            lower_bound(tasks, node, strategy),
            node.partial_sequence@,
        )
}

/// `cell` holds a complete order of `tasks` with its true cost.
pub open spec fn holds_solution(cell: GlobalBest, tasks: Seq<Task>) -> bool {
    &&& cell.wf()
    &&& cell.solution.solves(tasks)
}

/// The children worth a visit: for each remaining job whose child has a
/// bound below `best_score`, that bound and the job's position among the
/// remaining ones.
pub open spec fn promising(
    tasks: Seq<Task>,
    strategy: BoundingStrategy,
    node: Partial,
    best_score: u64,
    len: nat,
) -> Seq<(u64, usize)>
    decreases len,
{
    if len == 0 {
        Seq::empty()
    } else {
        let before = promising(tasks, strategy, node, best_score, (len - 1) as nat);
        let bound = child_bound(tasks, strategy, node, len - 1);
        if 0 <= bound < best_score {
            before.push((bound as u64, (len - 1) as usize))
        } else {
            before
        }
    }
}

/// The bound of the child of `node` that places the remaining job at `pos`
/// next.
pub open spec fn child_bound(
    tasks: Seq<Task>,
    strategy: BoundingStrategy,
    node: Partial,
    pos: int,
) -> int {
    let job = node.rest[pos];
    let done = step(tasks, node.last, node.time, job as int);
    node.cost + done + remaining_bound(tasks, strategy, Some(job), node.rest.remove(pos), done)
}

/// Of every remaining position below `len`, `promising` holds the child or
/// the child's bound is not below `best_score`; and it holds nothing else.
pub proof fn lemma_promising(
    tasks: Seq<Task>,
    strategy: BoundingStrategy,
    node: Partial,
    best_score: u64,
    len: nat,
)
    requires
        len <= usize::MAX,
    ensures
        forall|i: int|
            0 <= i < promising(tasks, strategy, node, best_score, len).len() ==> {
                let item = #[trigger] promising(tasks, strategy, node, best_score, len)[i];
                item.1 < len && item.0 == child_bound(tasks, strategy, node, item.1 as int)
                    && item.0 < best_score
            },
        forall|pos: int|
            0 <= pos < len ==> !(0 <= child_bound(tasks, strategy, node, pos) < best_score)
                || promising(tasks, strategy, node, best_score, len).contains(
                (child_bound(tasks, strategy, node, pos) as u64, pos as usize),
            ),
    decreases len,
{
    if len > 0 {
        let before = promising(tasks, strategy, node, best_score, (len - 1) as nat);
        let now = promising(tasks, strategy, node, best_score, len);
        lemma_promising(tasks, strategy, node, best_score, (len - 1) as nat);
        assert forall|pos: int| 0 <= pos < len implies !(0 <= child_bound(
            tasks,
            strategy,
            node,
            pos,
        ) < best_score) || now.contains(
            (child_bound(tasks, strategy, node, pos) as u64, pos as usize),
        ) by {
            let item = (child_bound(tasks, strategy, node, pos) as u64, pos as usize);
            if 0 <= child_bound(tasks, strategy, node, pos) < best_score {
                if pos < len - 1 {
                    let i = choose|i: int| 0 <= i < before.len() && before[i] == item;
                    assert(now[i] == item);
                } else {
                    assert(now[now.len() - 1] == item);
                }
            }
        }
    }
}

/// A lower score beats whatever a higher one beats.
pub proof fn lemma_beats_lower(tasks: Seq<Task>, score: int, lower: int, placed: Seq<usize>)
    requires
        beats_all_from(tasks, score, placed),
        lower <= score,
    ensures
        beats_all_from(tasks, lower, placed),
{
    assert forall|full: Seq<usize>| #[trigger]
        is_permutation(full, tasks.len()) && extends(full, placed) implies lower <= total_cost(
        tasks,
        full,
    ) by {
        assert(score <= total_cost(tasks, full));
    }
}

/// A score that beats every completion of every child beats every completion
/// of the node.
pub proof fn lemma_children_cover(tasks: Seq<Task>, node: Node, score: int)
    requires
        node.wf(tasks),
        node.remaining_jobs@.len() > 0,
        forall|pos: int|
            0 <= pos < node.remaining_jobs@.len() ==> beats_all_from(
                tasks,
                score,
                #[trigger] node.partial_sequence@.push(node.remaining_jobs@[pos]),
            ),
    ensures
        beats_all_from(tasks, score, node.partial_sequence@),
{
    let placed = node.partial_sequence@;
    let rest = node.remaining_jobs@;
    assert forall|full: Seq<usize>| #[trigger]
        is_permutation(full, tasks.len()) && extends(full, placed) implies score <= total_cost(
        tasks,
        full,
    ) by {
        let k = placed.len() as int;
        let job = full[k];
        assert(job < tasks.len());
        if placed.contains(job) {
            let i = choose|i: int| 0 <= i < placed.len() && placed[i] == job;
            assert(full[i] == full[k]);
        }
        let pos = choose|pos: int| 0 <= pos < rest.len() && rest[pos] == job;
        let grown = placed.push(rest[pos]);
        assert(beats_all_from(tasks, score, grown));
        assert(extends(full, grown));
    }
}

/// Every child of `node` is among `children` or has no completion that
/// costs less than `score`.
pub open spec fn covers_or_beats(
    tasks: Seq<Task>,
    node: Node,
    score: int,
    children: Seq<(u64, usize)>,
) -> bool {
    forall|pos: int|
        0 <= pos < node.remaining_jobs@.len() ==> (exists|i: int|
            0 <= i < children.len() && children[i].1 == pos) || beats_all_from(
            tasks,
            score,
            #[trigger] node.partial_sequence@.push(node.remaining_jobs@[pos]),
        )
}

/// The children of `node` worth a visit, by ascending bound: one entry per
/// remaining job whose child has a bound below `best_score`, holding that
/// bound and the job's position among the remaining ones.
pub fn expand_node(
    instance: &Instance,
    strategy: BoundingStrategy,
    node: &Node,
    best_score: u64,
) -> (children: Vec<(u64, usize)>)
    requires
        instance.wf(),
        node.wf(instance.tasks@),
    ensures
        children@ == stable_sort(
            promising(instance.tasks@, strategy, node@, best_score, node.remaining_jobs@.len()),
        ),
        forall|i: int|
            0 <= i < children@.len() ==> (#[trigger] children@[i]).1 < node.remaining_jobs@.len(),
        admissible(instance.tasks@, strategy) ==> covers_or_beats(
            instance.tasks@,
            *node,
            best_score as int,
            children@,
        ),
{
    let m: usize = node.remaining_jobs.len();
    let ghost tasks = instance.tasks@;
    let ghost placed = node.partial_sequence@;
    let ghost rest = node.remaining_jobs@;
    let mut children: Vec<(u64, usize)> = Vec::new();
    let mut pos: usize = 0;
    while pos < m
        invariant
            pos <= m,
            m == node.remaining_jobs@.len(),
            instance.wf(),
            tasks == instance.tasks@,
            placed == node.partial_sequence@,
            rest == node.remaining_jobs@,
            node.wf(tasks),
            children@ == promising(tasks, strategy, node@, best_score, pos as nat),
            admissible(tasks, strategy) ==> forall|p: int|
                0 <= p < pos ==> children@.contains(
                    (child_bound(tasks, strategy, node@, p) as u64, p as usize),
                ) || beats_all_from(tasks, best_score as int, #[trigger] placed.push(rest[p])),
        decreases m - pos,
    {
        let child: Node = node.child(&instance.tasks, pos);
        let bound: u64 = calculate_lb(&child, instance, &strategy);
        assert(bound == child_bound(tasks, strategy, node@, pos as int));
        let ghost before = children@;
        if bound < best_score {
            children.push((bound, pos));
        }
        proof {
            if admissible(tasks, strategy) {
                assert forall|p: int| 0 <= p < pos + 1 implies children@.contains(
                    (child_bound(tasks, strategy, node@, p) as u64, p as usize),
                ) || beats_all_from(tasks, best_score as int, #[trigger] placed.push(rest[p])) by {
                    let item = (child_bound(tasks, strategy, node@, p) as u64, p as usize);
                    if p < pos {
                        if before.contains(item) {
                            let i = choose|i: int| 0 <= i < before.len() && before[i] == item;
                            assert(children@[i] == item);
                        }
                    } else if bound < best_score {
                        assert(children@[children@.len() - 1] == item);
                    } else {
                        assert(child.wf(tasks));
                        assert(beats_all_from(
                            tasks,
                            lower_bound(tasks, child, strategy),
                            child.partial_sequence@,
                        ));
                        lemma_beats_lower(
                            tasks,
                            bound as int,
                            best_score as int,
                            placed.push(rest[p]),
                        );
                    }
                }
            }
        }
        pos = pos + 1;
    }
    let ghost unsorted = children@;
    sort_by_key(&mut children);
    proof {
        broadcast use vstd::seq_lib::group_to_multiset_ensures;

        lemma_stable_sort(unsorted);
        lemma_promising(tasks, strategy, node@, best_score, m as nat);
        assert forall|i: int| 0 <= i < children@.len() implies (#[trigger] children@[i]).1
            < m by {
            assert(children@.to_multiset().count(children@[i]) > 0);
            assert(unsorted.contains(children@[i]));
        }
        if admissible(tasks, strategy) {
            assert forall|p: int| 0 <= p < m implies (exists|i: int|
                0 <= i < children@.len() && children@[i].1 == p) || beats_all_from(
                tasks,
                best_score as int,
                #[trigger] placed.push(rest[p]),
            ) by {
                let item = (child_bound(tasks, strategy, node@, p) as u64, p as usize);
                if unsorted.contains(item) {
                    assert(unsorted.to_multiset().count(item) > 0);
                    assert(children@.contains(item));
                    let i = choose|i: int| 0 <= i < children@.len() && children@[i] == item;
                    assert(children@[i].1 == p);
                }
            }
        }
    }
    children
}

/// What a visit of a node has to do.
#[derive(Debug)]
pub enum Visit {
    /// Nothing: the time is up.
    Cut,
    /// Report the node: it is a complete order.
    Leaf,
    /// Visit these children, in this order: for each the bound and the
    /// position of the job among the remaining ones.
    Expand { children: Vec<(u64, usize)> },
}

/// `step` is what a visit of `node` has to do when the clock says `over`
/// and the best score known is `best_score`: nothing when the time is up;
/// else report a node with no job left; else visit the children whose bound
/// is below the best score, by ascending bound.
pub open spec fn is_visit(
    tasks: Seq<Task>,
    strategy: BoundingStrategy,
    node: Node,
    best_score: u64,
    over: bool,
    step: Visit,
) -> bool {
    match step {
        Visit::Cut => over,
        Visit::Leaf => !over && node.remaining_jobs@.len() == 0,
        Visit::Expand { children } => !over && node.remaining_jobs@.len() > 0 && children@
            == stable_sort(promising(tasks, strategy, node@, best_score, node.remaining_jobs@.len())),
    }
}

/// What a visit of `node` has to do, given the clock's answer `over` and the
/// best score known.
pub fn visit(
    instance: &Instance,
    strategy: BoundingStrategy,
    node: &Node,
    best_score: u64,
    over: bool,
) -> (step: Visit)
    requires
        instance.wf(),
        node.wf(instance.tasks@),
    ensures
        is_visit(instance.tasks@, strategy, *node, best_score, over, step),
        step matches Visit::Expand { children } ==> forall|i: int|
            0 <= i < children@.len() ==> (#[trigger] children@[i]).1 < node.remaining_jobs@.len(),
        step matches Visit::Expand { children } ==> (admissible(instance.tasks@, strategy)
            ==> covers_or_beats(instance.tasks@, *node, best_score as int, children@)),
{
    if over {
        Visit::Cut
    } else if node.remaining_jobs.len() == 0 {
        Visit::Leaf
    } else {
        let children: Vec<(u64, usize)> = expand_node(instance, strategy, node, best_score);
        Visit::Expand { children }
    }
}

/// The solution that a node with no job left stands for: its order with its
/// cost as score, and `duration` as duration.
pub fn leaf_solution(node: Node, duration: u128) -> (found: Solution)
    ensures
        found.tasks@ == node.partial_sequence@,
        found.score == node.current_cost,
        found.duration == duration,
{
    let solution_cost: u64 = node.current_cost;
    let mut found: Solution = Solution::new(node.partial_sequence);
    found.set_score(solution_cost);
    found.set_duration(duration);
    found
}

/// Reports a node with no job left into `global_best`: the cell takes the
/// order and the cost of the node exactly if the node is strictly cheaper
/// than what it holds, and keeps its duration; else it stays as it was.
pub fn report_leaf(global_best: &mut GlobalBest, node: Node)
    requires
        old(global_best).wf(),
    ensures
        final(global_best).wf(),
        final(global_best).score == best_of(old(global_best).score, node.current_cost),
        node.current_cost < old(global_best).score ==> final(global_best).solution.tasks@
            == node.partial_sequence@ && final(global_best).solution.duration == old(
            global_best,
        ).solution.duration,
        node.current_cost >= old(global_best).score ==> *final(global_best) == *old(global_best),
{
    if node.current_cost < global_best.get_best_score() {
        let found: Solution = leaf_solution(node, global_best.solution.get_duration());
        global_best.try_update_solution(found);
    }
}

/// The best a search knows: a score and the order it belongs to.
pub struct Best {
    pub score: u64,
    pub order: Seq<usize>,
}

/// The best that `cell` holds.
pub open spec fn known(cell: GlobalBest) -> Best {
    Best { score: cell.score, order: cell.solution.tasks@ }
}

/// The best known after a search of `node` that the clock never cuts,
/// entered with `best`: a node with no job left replaces `best` exactly if
/// it is strictly cheaper; at any other node the children worth a visit at
/// entry are searched by ascending bound, each with what the one before it
/// left.
pub open spec fn search_node(
    tasks: Seq<Task>,
    strategy: BoundingStrategy,
    node: Partial,
    best: Best,
) -> Best
    decreases node.rest.len(), 1int, 0int,
{
    if node.rest.len() == 0 {
        if node.cost < best.score {
            Best { score: node.cost as u64, order: node.placed }
        } else {
            best
        }
    } else {
        search_children(
            tasks,
            strategy,
            node,
            stable_sort(promising(tasks, strategy, node, best.score, node.rest.len())),
            0,
            best,
        )
    }
}

/// The best known after a search of the children of `node` listed in
/// `children` from number `from` on, entered with `best`.
pub open spec fn search_children(
    tasks: Seq<Task>,
    strategy: BoundingStrategy,
    node: Partial,
    children: Seq<(u64, usize)>,
    from: int,
    best: Best,
) -> Best
    decreases node.rest.len(), 0int, children.len() - from,
{
    if from < 0 || from >= children.len() {
        best
    } else {
        let pos = children[from].1 as int;
        let next = if 0 <= pos < node.rest.len() {
            search_node(tasks, strategy, child_of(tasks, node, pos), best)
        } else {
            best
        };
        search_children(tasks, strategy, node, children, from + 1, next)
    }
}

/// Searches every completion of `node` that can still improve on the best
/// solution known, children with smaller bounds first, and installs each
/// improvement in `global_best`. Returns at once when `deadline` is exceeded.
/// Says whether the search was complete: whether the deadline was exceeded
/// neither at `node` nor at any node below it that was visited. A complete
/// search of a node with no job left has reported that node. A complete
/// search leaves what `search_node` gives, whatever the bound; one that
/// pruned with an admissible bound leaves a score that no completion of
/// `node` beats.
pub fn bnb_recursive(
    instance: &Instance,
    strategy: BoundingStrategy,
    global_best: &mut GlobalBest,
    node: Node,
    deadline: &Deadline,
) -> (complete: bool)
    requires
        instance.wf(),
        node.wf(instance.tasks@),
        holds_solution(*old(global_best), instance.tasks@),
    ensures
        holds_solution(*final(global_best), instance.tasks@),
        final(global_best).score <= old(global_best).score,
        final(global_best).score == old(global_best).score ==> *final(global_best) == *old(
            global_best,
        ),
        final(global_best).solution.duration == old(global_best).solution.duration,
        deadline is Never ==> complete,
        !complete && node.remaining_jobs@.len() == 0 ==> *final(global_best) == *old(global_best),
        complete && node.remaining_jobs@.len() == 0 ==> leaf_reported(
            *old(global_best),
            node,
            *final(global_best),
        ),
        complete && admissible(instance.tasks@, strategy) ==> beats_all_from(
            instance.tasks@,
            final(global_best).score as int,
            node.partial_sequence@,
        ),
        complete ==> known(*final(global_best)) == search_node(
            instance.tasks@,
            strategy,
            node@,
            known(*old(global_best)),
        ),
    decreases node.remaining_jobs@.len(), 1int,
{
    let over: bool = deadline.exceeded();
    bnb_step(instance, strategy, global_best, node, deadline, over)
}

/// `after` is `before` with the leaf `node` reported into it: it holds the
/// order and the cost of the node exactly if the node is strictly cheaper,
/// and is `before` itself otherwise.
pub open spec fn leaf_reported(before: GlobalBest, node: Node, after: GlobalBest) -> bool {
    &&& after.score == best_of(before.score, node.current_cost)
    &&& node.current_cost < before.score ==> after.solution.tasks@ == node.partial_sequence@
        && after.solution.score == node.current_cost && after.solution.duration
        == before.solution.duration
    &&& node.current_cost >= before.score ==> after == before
}

/// One visit of the search, given the clock's answer `over` for `node`:
/// with the time up nothing is touched and the search is not complete; a
/// node with no job left is reported; else the children worth a visit are
/// searched in turn, each with a clock reading of its own.
pub fn bnb_step(
    instance: &Instance,
    strategy: BoundingStrategy,
    global_best: &mut GlobalBest,
    node: Node,
    deadline: &Deadline,
    over: bool,
) -> (complete: bool)
    requires
        instance.wf(),
        node.wf(instance.tasks@),
        holds_solution(*old(global_best), instance.tasks@),
        deadline is Never ==> !over,
    ensures
        holds_solution(*final(global_best), instance.tasks@),
        final(global_best).score <= old(global_best).score,
        final(global_best).score == old(global_best).score ==> *final(global_best) == *old(
            global_best,
        ),
        final(global_best).solution.duration == old(global_best).solution.duration,
        over ==> !complete && *final(global_best) == *old(global_best),
        !over && node.remaining_jobs@.len() == 0 ==> complete,
        deadline is Never ==> complete,
        complete && node.remaining_jobs@.len() == 0 ==> leaf_reported(
            *old(global_best),
            node,
            *final(global_best),
        ),
        complete && admissible(instance.tasks@, strategy) ==> beats_all_from(
            instance.tasks@,
            final(global_best).score as int,
            node.partial_sequence@,
        ),
        complete ==> known(*final(global_best)) == search_node(
            instance.tasks@,
            strategy,
            node@,
            known(*old(global_best)),
        ),
    decreases node.remaining_jobs@.len(), 0int,
{
    let ghost tasks = instance.tasks@;
    let ghost placed = node.partial_sequence@;
    let ghost rest = node.remaining_jobs@;
    let ghost entry = *global_best;
    let children: Vec<(u64, usize)> = match visit(
        instance,
        strategy,
        &node,
        global_best.get_best_score(),
        over,
    ) {
        Visit::Cut => {
            return false;
        },
        Visit::Leaf => {
            report_leaf(global_best, node);
            proof {
                assert(is_permutation(placed, tasks.len()));
                assert forall|full: Seq<usize>| #[trigger]
                    is_permutation(full, tasks.len()) && extends(
                        full,
                        placed,
                    ) implies global_best.score <= total_cost(tasks, full) by {
                    assert(full =~= placed);
                }
            }
            return true;
        },
        Visit::Expand { children } => children,
    };
    let ghost sound = admissible(tasks, strategy);
    let mut complete: bool = true;
    let mut idx: usize = 0;
    while idx < children.len()
        invariant
            idx <= children@.len(),
            instance.wf(),
            tasks == instance.tasks@,
            placed == node.partial_sequence@,
            rest == node.remaining_jobs@,
            rest.len() > 0,
            node.wf(tasks),
            sound == admissible(tasks, strategy),
            deadline is Never ==> complete,
            holds_solution(*global_best, tasks),
            global_best.score <= entry.score,
            global_best.score == entry.score ==> *global_best == entry,
            global_best.solution.duration == entry.solution.duration,
            forall|i: int| 0 <= i < children@.len() ==> (#[trigger] children@[i]).1 < rest.len(),
            complete ==> search_children(
                tasks,
                strategy,
                node@,
                children@,
                idx as int,
                known(*global_best),
            ) == search_node(tasks, strategy, node@, known(entry)),
            complete && sound ==> forall|i: int|
                0 <= i < idx ==> beats_all_from(
                    tasks,
                    global_best.score as int,
                    placed.push(rest[(#[trigger] children@[i]).1 as int]),
                ),
            sound ==> forall|pos: int|
                0 <= pos < rest.len() ==> (exists|i: int|
                    0 <= i < children@.len() && children@[i].1 == pos) || beats_all_from(
                    tasks,
                    global_best.score as int,
                    #[trigger] placed.push(rest[pos]),
                ),
        decreases children@.len() - idx,
    {
        let ghost before = global_best.score;
        let pos: usize = children[idx].1;
        assert(children@[idx as int].1 < rest.len());
        let child: Node = node.child(&instance.tasks, pos);
        let searched: bool = bnb_recursive(instance, strategy, global_best, child, deadline);
        if !searched {
            complete = false;
        }
        proof {
            if complete && sound {
                assert forall|i: int| 0 <= i < idx + 1 implies beats_all_from(
                    tasks,
                    global_best.score as int,
                    placed.push(rest[(#[trigger] children@[i]).1 as int]),
                ) by {
                    if i < idx {
                        lemma_beats_lower(
                            tasks,
                            before as int,
                            global_best.score as int,
                            placed.push(rest[children@[i].1 as int]),
                        );
                    }
                }
            }
            if sound {
                assert forall|p: int| 0 <= p < rest.len() implies (exists|i: int|
                    0 <= i < children@.len() && children@[i].1 == p) || beats_all_from(
                    tasks,
                    global_best.score as int,
                    #[trigger] placed.push(rest[p]),
                ) by {
                    if !(exists|i: int| 0 <= i < children@.len() && children@[i].1 == p) {
                        lemma_beats_lower(
                            tasks,
                            before as int,
                            global_best.score as int,
                            placed.push(rest[p]),
                        );
                    }
                }
            }
        }
        idx = idx + 1;
    }
    proof {
        if complete && sound {
            assert forall|p: int| 0 <= p < rest.len() implies beats_all_from(
                tasks,
                global_best.score as int,
                #[trigger] placed.push(rest[p]),
            ) by {
                if exists|i: int| 0 <= i < children@.len() && children@[i].1 == p {
                    let i = choose|i: int| 0 <= i < children@.len() && children@[i].1 == p;
                    assert(beats_all_from(
                        tasks,
                        global_best.score as int,
                        placed.push(rest[children@[i].1 as int]),
                    ));
                }
            }
            lemma_children_cover(tasks, node, global_best.score as int);
        }
    }
    complete
}

/// A score that belongs to a complete order and that no complete order
/// beats is the optimum.
proof fn lemma_unbeaten_is_optimal(tasks: Seq<Task>, cell: GlobalBest)
    requires
        holds_solution(cell, tasks),
        beats_all_from(tasks, cell.score as int, Seq::<usize>::empty()),
    ensures
        is_optimal(tasks, cell.score as int),
{
    assert(is_permutation(cell.solution.tasks@, tasks.len()));
    assert forall|full: Seq<usize>| #[trigger] is_permutation(full, tasks.len()) implies cell.score
        <= total_cost(tasks, full) by {
        assert(extends(full, Seq::<usize>::empty()));
    }
}

/// Branch and bound from the empty sequence until `time_limit` has passed
/// since `start_time`. Whatever the clock does, `global_best` ends with a
/// complete order, its true cost, and a score no higher than before. Says
/// whether the search ran to exhaustion before the time was up; if it did,
/// `global_best` ends with what `search_node` gives from the empty
/// sequence, whatever the bound, and with an optimal order if the bound is
/// admissible.
pub fn solve(
    instance: &Instance,
    strategy: BoundingStrategy,
    global_best: &mut GlobalBest,
    start_time: Instant,
    time_limit: Duration,
) -> (exhausted: bool)
    requires
        instance.wf(),
        holds_solution(*old(global_best), instance.tasks@),
    ensures
        holds_solution(*final(global_best), instance.tasks@),
        final(global_best).score <= old(global_best).score,
        final(global_best).score == old(global_best).score ==> *final(global_best) == *old(
            global_best,
        ),
        final(global_best).solution.duration == old(global_best).solution.duration,
        exhausted && admissible(instance.tasks@, strategy) ==> is_optimal(
            instance.tasks@,
            final(global_best).score as int,
        ),
        exhausted ==> known(*final(global_best)) == search_node(
            instance.tasks@,
            strategy,
            root_of(instance.tasks@.len()),
            known(*old(global_best)),
        ),
{
    let root_node: Node = Node::root(&instance.tasks);
    let deadline: Deadline = Deadline::after(start_time, time_limit);
    let exhausted: bool = bnb_recursive(instance, strategy, global_best, root_node, &deadline);
    proof {
        if exhausted && admissible(instance.tasks@, strategy) {
            lemma_unbeaten_is_optimal(instance.tasks@, *global_best);
        }
    }
    exhausted
}

/// Branch and bound from the empty sequence with no deadline. `global_best`
/// ends with what `search_node` gives from the empty sequence. With an
/// admissible bound that is an optimal order: no complete order costs less.
pub fn solve_to_exhaustion(
    instance: &Instance,
    strategy: BoundingStrategy,
    global_best: &mut GlobalBest,
)
    requires
        instance.wf(),
        holds_solution(*old(global_best), instance.tasks@),
    ensures
        holds_solution(*final(global_best), instance.tasks@),
        final(global_best).score <= old(global_best).score,
        final(global_best).score == old(global_best).score ==> *final(global_best) == *old(
            global_best,
        ),
        final(global_best).solution.duration == old(global_best).solution.duration,
        admissible(instance.tasks@, strategy) ==> is_optimal(
            instance.tasks@,
            final(global_best).score as int,
        ),
        known(*final(global_best)) == search_node(
            instance.tasks@,
            strategy,
            root_of(instance.tasks@.len()),
            known(*old(global_best)),
        ),
{
    let root_node: Node = Node::root(&instance.tasks);
    let complete: bool = bnb_recursive(
        instance,
        strategy,
        global_best,
        root_node,
        &Deadline::Never,
    );
    proof {
        if admissible(instance.tasks@, strategy) {
            lemma_unbeaten_is_optimal(instance.tasks@, *global_best);
        }
    }
}

/// `score` is the least cost of a complete order of `tasks`.
pub open spec fn is_optimal(tasks: Seq<Task>, score: int) -> bool {
    &&& exists|best: Seq<usize>| #[trigger]
        is_permutation(best, tasks.len()) && total_cost(tasks, best) == score
    &&& forall|full: Seq<usize>| #[trigger]
        is_permutation(full, tasks.len()) ==> score <= total_cost(tasks, full)
}

/// The optimum is one number: whatever admissible bound steered a search that
/// ran to exhaustion, the cost it ends with is the same.
pub proof fn lemma_optimum_is_unique(tasks: Seq<Task>, a: int, b: int)
    requires
        is_optimal(tasks, a),
        is_optimal(tasks, b),
    ensures
        a == b,
{
    let best_a = choose|best: Seq<usize>| #[trigger]
        is_permutation(best, tasks.len()) && total_cost(tasks, best) == a;
    let best_b = choose|best: Seq<usize>| #[trigger]
        is_permutation(best, tasks.len()) && total_cost(tasks, best) == b;
    assert(b <= total_cost(tasks, best_a));
    assert(a <= total_cost(tasks, best_b));
}

} // verus!
