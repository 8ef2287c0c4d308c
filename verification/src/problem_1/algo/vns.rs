//! Variable neighbourhood descent and search.

use crate::problem_1::algo::moves::{
    is_search_result, lemma_search_result_same, move_made, shaken_by, Kind,
};
use crate::problem_1::algo::neighborhood::{Neighborhood, Operator};
use crate::problem_1::algo::schedule::Schedule;
use crate::problem_1::clock::Deadline;
use crate::problem_1::models::{
    is_permutation, order_valid, table_wf, total_cost, Solution, Task, MAX_JOBS,
};
use std::time::{Duration, Instant};
use vstd::prelude::*;

verus! {

/// A refiner: the neighbourhoods in the order in which they are tried, the
/// job table and the time it may take.
pub struct VnsSolver<'a> {
    pub neighborhoods: Vec<Operator>,
    pub tasks_ref: &'a Vec<Task>,
    pub time_limit: Duration,
}

/// No move of any of the first `upto` neighbourhoods improves on
/// `schedule`.
pub open spec fn locally_optimal(schedule: Schedule, operators: Seq<Operator>, upto: int) -> bool {
    forall|i: int|
        0 <= i < upto ==> is_search_result(
            schedule,
            (#[trigger] operators[i]).kind,
            operators[i].first_only,
            None,
        )
}

/// `after` descends from `before`: same table, the same jobs as often, a
/// cost that is right and not higher.
pub open spec fn descends_from(after: Schedule, before: Schedule) -> bool {
    &&& after.consistent()
    &&& after.tasks_ref == before.tasks_ref
    &&& after.task_ids@.len() == before.task_ids@.len()
    &&& after.task_ids@.to_multiset() == before.task_ids@.to_multiset()
    &&& after.score <= before.score
    &&& forall|n: nat| is_permutation(before.task_ids@, n) ==> is_permutation(after.task_ids@, n)
}

/// `candidate` is what one round at neighbourhood number `k` may make of
/// `best`: a copy of `best` is shaken by `k` moves of that neighbourhood and
/// scored, which gives `start`, and `candidate` descends from `start`. A
/// descent that no clock cuts short, `unhurried`, ends in a local optimum of
/// every neighbourhood.
pub open spec fn round_made(
    best: Schedule,
    operators: Seq<Operator>,
    k: int,
    unhurried: bool,
    start: Schedule,
    candidate: Schedule,
) -> bool {
    &&& start.consistent()
    &&& start.tasks_ref == best.tasks_ref
    &&& shaken_by(best.task_ids@, start.task_ids@, operators[k].kind, k as nat)
    &&& descends_from(candidate, start)
    &&& unhurried ==> locally_optimal(candidate, operators, operators.len() as int)
}

/// One round at neighbourhood number `k` makes `after` of `best` and names
/// neighbourhood `next`: what comes of the round replaces `best` exactly if
/// it is strictly cheaper, and the first neighbourhood is then next; else
/// `best` stays and the neighbourhood behind `k` is next.
pub open spec fn round_taken(
    best: Schedule,
    operators: Seq<Operator>,
    k: int,
    unhurried: bool,
    after: Schedule,
    next: int,
) -> bool {
    exists|start: Schedule, candidate: Schedule| #[trigger]
        round_made(best, operators, k, unhurried, start, candidate) && (if candidate.score
            < best.score {
            after == candidate && next == 0
        } else {
            after == best && next == k + 1
        })
}

/// `bests` and `marks` record a search from the order `initial`: the
/// schedule held and the neighbourhood named after every round. The first
/// entry is `initial`, scored, with the first neighbourhood named. Every
/// round is taken from the entry before it, at the neighbourhood named
/// there or, where a new pass begins, at the first.
pub open spec fn is_trail(
    operators: Seq<Operator>,
    tasks: &Vec<Task>,
    initial: Seq<usize>,
    bests: Seq<Schedule>,
    marks: Seq<int>,
) -> bool {
    &&& bests.len() > 0
    &&& bests.len() == marks.len()
    &&& bests[0].consistent()
    &&& bests[0].tasks_ref == tasks
    &&& bests[0].task_ids@ == initial
    &&& marks[0] == 0
    &&& forall|i: int|
        1 <= i < bests.len() ==> {
            ||| 0 <= marks[i - 1] < operators.len() && round_taken(
                bests[i - 1],
                operators,
                marks[i - 1],
                false,
                #[trigger] bests[i],
                marks[i],
            )
            ||| 0 < operators.len() && round_taken(
                bests[i - 1],
                operators,
                0,
                false,
                bests[i],
                marks[i],
            )
        }
}

impl<'a> VnsSolver<'a> {
    /// The table is complete and small enough for 64-bit costs.
    pub open spec fn wf(&self) -> bool {
        &&& table_wf(self.tasks_ref@)
        &&& self.tasks_ref@.len() <= MAX_JOBS
    }

    /// A refiner with the four neighbourhoods in order of growing cost:
    /// exchanges, moves of one job and reversals, each searched for its best
    /// move, then block moves, searched for the first improving one.
    pub fn new(tasks_ref: &'a Vec<Task>, time_limit: Duration) -> (solver: Self)
        ensures
            solver.tasks_ref == tasks_ref,
            solver.time_limit == time_limit,
            solver.neighborhoods@ == seq![
                Operator { kind: Kind::Swap, first_only: false },
                Operator { kind: Kind::Relocate, first_only: false },
                Operator { kind: Kind::TwoOpt, first_only: false },
                Operator { kind: Kind::BlockMove, first_only: true },
            ],
    {
        let mut neighborhoods: Vec<Operator> = Vec::new();
        neighborhoods.push(Operator { kind: Kind::Swap, first_only: false });
        neighborhoods.push(Operator { kind: Kind::Relocate, first_only: false });
        neighborhoods.push(Operator { kind: Kind::TwoOpt, first_only: false });
        neighborhoods.push(Operator { kind: Kind::BlockMove, first_only: true });
        proof {
            assert(neighborhoods@ =~= seq![
                Operator { kind: Kind::Swap, first_only: false },
                Operator { kind: Kind::Relocate, first_only: false },
                Operator { kind: Kind::TwoOpt, first_only: false },
                Operator { kind: Kind::BlockMove, first_only: true },
            ]);
        }
        Self { neighborhoods, tasks_ref, time_limit }
    }

    /// The simpler refiner: exchanges and moves of one job, each searched
    /// for the first improving move.
    pub fn first_improvement(tasks_ref: &'a Vec<Task>, time_limit: Duration) -> (solver: Self)
        ensures
            solver.tasks_ref == tasks_ref,
            solver.time_limit == time_limit,
            solver.neighborhoods@ == seq![
                Operator { kind: Kind::Swap, first_only: true },
                Operator { kind: Kind::Relocate, first_only: true },
            ],
    {
        let mut neighborhoods: Vec<Operator> = Vec::new();
        neighborhoods.push(Operator { kind: Kind::Swap, first_only: true });
        neighborhoods.push(Operator { kind: Kind::Relocate, first_only: true });
        proof {
            assert(neighborhoods@ =~= seq![
                Operator { kind: Kind::Swap, first_only: true },
                Operator { kind: Kind::Relocate, first_only: true },
            ]);
        }
        Self { neighborhoods, tasks_ref, time_limit }
    }

    /// Descends until no neighbourhood improves on `schedule` or `deadline`
    /// is reached: takes an improving move from the first neighbourhood that
    /// has one and starts over from the first neighbourhood. Says whether
    /// the descent settled, that is, ended because no neighbourhood had an
    /// improving move left; the schedule is then a local optimum of every
    /// neighbourhood. Without a deadline the descent always settles.
    pub fn descend(&self, schedule: &mut Schedule, deadline: &Deadline) -> (settled: bool)
        requires
            old(schedule).consistent(),
        ensures
            descends_from(*final(schedule), *old(schedule)),
            deadline is Never ==> settled,
            settled ==> locally_optimal(
                *final(schedule),
                self.neighborhoods@,
                self.neighborhoods@.len() as int,
            ),
    {
        let mut k: usize = 0;
        while k < self.neighborhoods.len()
            invariant
                k <= self.neighborhoods@.len(),
                descends_from(*schedule, *old(schedule)),
                locally_optimal(*schedule, self.neighborhoods@, k as int),
            ensures
                k <= self.neighborhoods@.len(),
                descends_from(*schedule, *old(schedule)),
                locally_optimal(*schedule, self.neighborhoods@, k as int),
                deadline is Never ==> k >= self.neighborhoods@.len(),
            decreases schedule.score, self.neighborhoods@.len() - k,
        {
            let ghost before = *schedule;
            let over: bool = deadline.reached();
            match self.descent_step(schedule, k, over) {
                None => {
                    break ;
                },
                Some(next) => {
                    proof {
                        if next != 0 {
                            assert forall|i: int| 0 <= i < k + 1 implies is_search_result(
                                *schedule,
                                (#[trigger] self.neighborhoods@[i]).kind,
                                self.neighborhoods@[i].first_only,
                                None,
                            ) by {
                                lemma_search_result_same(
                                    before,
                                    *schedule,
                                    self.neighborhoods@[i].kind,
                                    self.neighborhoods@[i].first_only,
                                    None,
                                );
                            }
                        }
                    }
                    k = next;
                },
            }
        }
        k >= self.neighborhoods.len()
    }

    /// One step of a descent that stands at neighbourhood `k`, given the
    /// clock's answer `over`: with the time up the schedule is left as it
    /// was and the descent ends; else the improving move that a search of
    /// neighbourhood `k` reports is carried out, and the descent goes on
    /// from the first neighbourhood if there was one, from the next if not.
    pub fn descent_step(&self, schedule: &mut Schedule, k: usize, over: bool) -> (next: Option<
        usize,
    >)
        requires
            old(schedule).consistent(),
            k < self.neighborhoods@.len(),
        ensures
            over ==> next is None && *final(schedule) == *old(schedule),
            !over ==> next == Some(
                if final(schedule).score < old(schedule).score {
                    0usize
                } else {
                    (k + 1) as usize
                },
            ) && move_made(
                *old(schedule),
                self.neighborhoods@[k as int].kind,
                self.neighborhoods@[k as int].first_only,
                *final(schedule),
                final(schedule).score < old(schedule).score,
            ),
    {
        if over {
            return None;
        }
        let count: usize = self.neighborhoods.len();
        assert(k < count);
        let improved: bool = self.neighborhoods[k].find_best_move(schedule);
        if improved {
            Some(0)
        } else {
            Some(k + 1)
        }
    }

    /// Descends until no neighbourhood improves on `schedule` or the time
    /// limit, counted from `run_time`, is reached. Says whether the descent
    /// settled before the time was up; the schedule is then a local optimum
    /// of every neighbourhood.
    pub fn variable_neighborhood_descent(&self, schedule: &mut Schedule, run_time: Instant) -> (settled:
        bool)
        requires
            old(schedule).consistent(),
        ensures
            descends_from(*final(schedule), *old(schedule)),
            settled ==> locally_optimal(
                *final(schedule),
                self.neighborhoods@,
                self.neighborhoods@.len() as int,
            ),
    {
        let deadline: Deadline = Deadline::after(run_time, self.time_limit);
        self.descend(schedule, &deadline)
    }

    /// What holds of a round that no clock cuts short holds of every round.
    proof fn lemma_round_of_any_pace(
        best: Schedule,
        operators: Seq<Operator>,
        k: int,
        unhurried: bool,
        after: Schedule,
        next: int,
    )
        requires
            round_taken(best, operators, k, unhurried, after, next),
        ensures
            round_taken(best, operators, k, false, after, next),
    {
        let (start, candidate) = choose|start: Schedule, candidate: Schedule| #[trigger]
            round_made(best, operators, k, unhurried, start, candidate) && (if candidate.score
                < best.score {
                after == candidate && next == 0
            } else {
                after == best && next == k + 1
            });
        assert(round_made(best, operators, k, false, start, candidate));
    }

    /// A trail grows by a round taken from its last entry, at the
    /// neighbourhood named there or at the first.
    proof fn lemma_trail_grows(
        operators: Seq<Operator>,
        tasks: &Vec<Task>,
        initial: Seq<usize>,
        bests: Seq<Schedule>,
        marks: Seq<int>,
        k: int,
        after: Schedule,
        next: int,
    )
        requires
            is_trail(operators, tasks, initial, bests, marks),
            0 <= k < operators.len(),
            k == 0 || k == marks.last(),
            round_taken(bests.last(), operators, k, false, after, next),
        ensures
            is_trail(operators, tasks, initial, bests.push(after), marks.push(next)),
    {
        let grown = bests.push(after);
        let named = marks.push(next);
        assert forall|i: int| 1 <= i < grown.len() implies {
            ||| 0 <= named[i - 1] < operators.len() && round_taken(
                grown[i - 1],
                operators,
                named[i - 1],
                false,
                #[trigger] grown[i],
                named[i],
            )
            ||| 0 < operators.len() && round_taken(
                grown[i - 1],
                operators,
                0,
                false,
                grown[i],
                named[i],
            )
        } by {
            if i < bests.len() {
                assert(grown[i] == bests[i]);
                assert(grown[i - 1] == bests[i - 1]);
            }
        }
    }

    /// Takes `candidate` in place of `best` exactly if it is strictly
    /// cheaper. Says at which neighbourhood the search goes on: at the first
    /// after a candidate was taken, else at the one behind `k`.
    pub fn accept(best: &mut Schedule<'a>, candidate: Schedule<'a>, k: usize) -> (next: usize)
        requires
            k < usize::MAX,
        ensures
            candidate.score < old(best).score ==> *final(best) == candidate && next == 0,
            candidate.score >= old(best).score ==> *final(best) == *old(best) && next == k + 1,
    {
        if candidate.score < best.score {
            *best = candidate;
            0
        } else {
            k + 1
        }
    }

    /// One round of the search at neighbourhood `k`, given the clock's
    /// answer `over`. With the time up `best` is left as it was and the
    /// search ends. Else a copy of `best` is shaken by `k` random moves of
    /// neighbourhood `k`, scored in full and descended from until no
    /// neighbourhood improves on it or `deadline` is reached; what comes of
    /// it replaces `best` exactly if it is strictly cheaper, and the search
    /// then goes on at the first neighbourhood, else at the next.
    pub fn search_step(
        &self,
        best: &mut Schedule<'a>,
        k: usize,
        deadline: &Deadline,
        over: bool,
    ) -> (next: Option<usize>)
        requires
            old(best).consistent(),
            k < self.neighborhoods@.len(),
        ensures
            over ==> next is None && *final(best) == *old(best),
            !over ==> next is Some && descends_from(*final(best), *old(best)),
            !over ==> (next == Some(0usize) <==> final(best).score < old(best).score),
            !over && final(best).score >= old(best).score ==> *final(best) == *old(best) && next
                == Some((k + 1) as usize),
            next matches Some(named) ==> round_taken(
                *old(best),
                self.neighborhoods@,
                k as int,
                deadline is Never,
                *final(best),
                named as int,
            ),
    {
        if over {
            return None;
        }
        let count: usize = self.neighborhoods.len();
        assert(k < count);
        let mut working_schedule: Schedule = best.clone();
        self.neighborhoods[k].shake(&mut working_schedule, k);
        working_schedule.calculate_full_score();
        let ghost start = working_schedule;
        let _settled: bool = self.descend(&mut working_schedule, deadline);
        let ghost candidate = working_schedule;
        proof {
            assert(round_made(
                *old(best),
                self.neighborhoods@,
                k as int,
                deadline is Never,
                start,
                candidate,
            ));
        }
        let next: usize = Self::accept(best, working_schedule, k);
        Some(next)
    }

    /// Refines `initial_task_ids` until the time limit, counted from
    /// `run_time`, is reached: round after round of `search_step`, each with
    /// a clock reading of its own, through the neighbourhoods in order and,
    /// once behind the last, from the first again. The search also ends
    /// after `u64::MAX` passes through the neighbourhoods. The solution
    /// returned is the last entry of a trail of such rounds from the order
    /// given; it has its true cost as score and never costs more than that
    /// order.
    pub fn solve(&self, initial_task_ids: Vec<usize>, run_time: Instant) -> (solution: Solution)
        requires
            self.wf(),
            order_valid(self.tasks_ref@, initial_task_ids@),
            initial_task_ids@.len() <= self.tasks_ref@.len(),
        ensures
            solution.score == total_cost(self.tasks_ref@, solution.tasks@),
            solution.score <= total_cost(self.tasks_ref@, initial_task_ids@),
            solution.duration == 0,
            solution.tasks@.len() == initial_task_ids@.len(),
            solution.tasks@.to_multiset() == initial_task_ids@.to_multiset(),
            order_valid(self.tasks_ref@, solution.tasks@),
            forall|n: nat|
                is_permutation(initial_task_ids@, n) ==> is_permutation(solution.tasks@, n),
            exists|bests: Seq<Schedule>, marks: Seq<int>| #[trigger]
                is_trail(self.neighborhoods@, self.tasks_ref, initial_task_ids@, bests, marks)
                    && solution.tasks@ == bests.last().task_ids@ && solution.score
                    == bests.last().score,
    {
        let deadline: Deadline = Deadline::after(run_time, self.time_limit);
        let ghost initial = initial_task_ids@;
        let mut schedule: Schedule = Schedule::new(initial_task_ids, self.tasks_ref);
        let ghost first = schedule;
        let ghost mut bests: Seq<Schedule> = seq![schedule];
        let ghost mut marks: Seq<int> = seq![0int];
        let k_max: usize = self.neighborhoods.len();
        let mut passes: u64 = 0;
        while passes < u64::MAX && !deadline.reached()
            invariant
                k_max == self.neighborhoods@.len(),
                descends_from(schedule, first),
                is_trail(self.neighborhoods@, self.tasks_ref, initial, bests, marks),
                bests.last() == schedule,
            decreases u64::MAX - passes,
        {
            let mut k: usize = 0;
            while k < k_max
                invariant
                    k <= k_max,
                    k_max == self.neighborhoods@.len(),
                    descends_from(schedule, first),
                    is_trail(self.neighborhoods@, self.tasks_ref, initial, bests, marks),
                    bests.last() == schedule,
                    k == 0 || marks.last() == k,
                decreases schedule.score, k_max - k,
            {
                let over: bool = deadline.reached();
                let ghost before = schedule;
                match self.search_step(&mut schedule, k, &deadline, over) {
                    None => {
                        break ;
                    },
                    Some(next) => {
                        proof {
                            let grown = bests.push(schedule);
                            let named = marks.push(next as int);
                            Self::lemma_round_of_any_pace(
                                before,
                                self.neighborhoods@,
                                k as int,
                                deadline is Never,
                                schedule,
                                next as int,
                            );
                            Self::lemma_trail_grows(
                                self.neighborhoods@,
                                self.tasks_ref,
                                initial,
                                bests,
                                marks,
                                k as int,
                                schedule,
                                next as int,
                            );
                            bests = grown;
                            marks = named;
                        }
                        k = next;
                    },
                }
            }
            passes = passes + 1;
        }
        let score: u64 = schedule.score;
        let mut solution: Solution = Solution::new(schedule.task_ids);
        solution.set_score(score);
        solution
    }
}

} // verus!
