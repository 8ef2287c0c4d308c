//! The moves of the local search: what each does to an order, how it is
//! undone, and how a neighbourhood is searched for an improving one.

use crate::problem_1::algo::schedule::{lemma_cache_survives, Schedule};
use crate::problem_1::models::{is_permutation, order_valid, total_cost, Task};
use crate::problem_1::rng::random_below;
use vstd::prelude::*;

verus! {

/// Largest block that a block move relocates.
pub const MAX_BLOCK_SIZE: usize = 3;

/// One change to an order. Positions count from zero.
#[derive(Debug, Clone, Copy, PartialEq, Eq, Structural)]
pub enum Move {
    /// Exchange the jobs at `i` and `j`.
    Swap { i: usize, j: usize },
    /// Take the job at `from` out and put it back so that it stands at `to`.
    Relocate { from: usize, to: usize },
    /// Reverse the jobs from `i` to `j`, both included.
    Reverse { i: usize, j: usize },
    /// Take the `size` jobs from `from` on out and put them back so that the
    /// block starts at `to`.
    Block { from: usize, size: usize, to: usize },
}

impl Move {
    /// The move makes sense on an order of `n` jobs.
    pub open spec fn valid(self, n: int) -> bool {
        match self {
            Move::Swap { i, j } => i < n && j < n,
            Move::Relocate { from, to } => from < n && to < n,
            Move::Reverse { i, j } => i <= j < n,
            Move::Block { from, size, to } => from + size <= n && to + size <= n,
        }
    }

    /// The old position of the job that the move puts at position `k`.
    pub open spec fn source(self, k: int) -> int {
        match self {
            Move::Swap { i, j } => if k == i {
                j as int
            } else if k == j {
                i as int
            } else {
                k
            },
            Move::Relocate { from, to } => if k == to {
                from as int
            } else {
                let gap = if k < to {
                    k
                } else {
                    k - 1
                };
                if gap < from {
                    gap
                } else {
                    gap + 1
                }
            },
            Move::Reverse { i, j } => if i <= k <= j {
                i + j - k
            } else {
                k
            },
            Move::Block { from, size, to } => if to <= k < to + size {
                from + (k - to)
            } else {
                let gap = if k < to {
                    k
                } else {
                    k - size
                };
                if gap < from {
                    gap
                } else {
                    gap + size
                }
            },
        }
    }

    /// The order after the move.
    pub open spec fn apply(self, order: Seq<usize>) -> Seq<usize> {
        Seq::new(order.len(), |k: int| order[self.source(k)])
    }

    /// The move that undoes this one.
    pub open spec fn inverse(self) -> Move {
        match self {
            Move::Swap { i, j } => self,
            Move::Relocate { from, to } => Move::Relocate { from: to, to: from },
            Move::Reverse { i, j } => self,
            Move::Block { from, size, to } => Move::Block { from: to, size, to: from },
        }
    }

    /// The first position that the move can change.
    pub open spec fn first_touched(self) -> int {
        match self {
            Move::Swap { i, j } => if i <= j {
                i as int
            } else {
                j as int
            },
            Move::Relocate { from, to } => if from <= to {
                from as int
            } else {
                to as int
            },
            Move::Reverse { i, j } => i as int,
            Move::Block { from, size, to } => if from <= to {
                from as int
            } else {
                to as int
            },
        }
    }

    /// The move that undoes this one.
    pub fn inverted(&self) -> (back: Move)
        ensures
            back == self.inverse(),
    {
        match *self {
            Move::Swap { i, j } => Move::Swap { i, j },
            Move::Relocate { from, to } => Move::Relocate { from: to, to: from },
            Move::Reverse { i, j } => Move::Reverse { i, j },
            Move::Block { from, size, to } => Move::Block { from: to, size, to: from },
        }
    }

    /// The first position that the move can change.
    pub fn start(&self) -> (at: usize)
        ensures
            at == self.first_touched(),
    {
        match *self {
            Move::Swap { i, j } => if i <= j {
                i
            } else {
                j
            },
            Move::Relocate { from, to } => if from <= to {
                from
            } else {
                to
            },
            Move::Reverse { i, j } => i,
            Move::Block { from, size, to } => if from <= to {
                from
            } else {
                to
            },
        }
    }

    /// The old position of the job that the move puts at position `k`.
    pub fn source_of(&self, k: usize, n: usize) -> (at: usize)
        requires
            self.valid(n as int),
            k < n,
        ensures
            at == self.source(k as int),
            at < n,
    {
        match *self {
            Move::Swap { i, j } => if k == i {
                j
            } else if k == j {
                i
            } else {
                k
            },
            Move::Relocate { from, to } => if k == to {
                from
            } else {
                let gap: usize = if k < to {
                    k
                } else {
                    k - 1
                };
                if gap < from {
                    gap
                } else {
                    gap + 1
                }
            },
            Move::Reverse { i, j } => if i <= k && k <= j {
                i + (j - k)
            } else {
                k
            },
            Move::Block { from, size, to } => if to <= k && k - to < size {
                from + (k - to)
            } else {
                let gap: usize = if k < to {
                    k
                } else {
                    k - size
                };
                if gap < from {
                    gap
                } else {
                    gap + size
                }
            },
        }
    }

    /// The order after the move.
    pub fn perform(&self, order: &Vec<usize>) -> (moved: Vec<usize>)
        requires
            self.valid(order@.len() as int),
        ensures
            moved@ == self.apply(order@),
    {
        let n: usize = order.len();
        let mut moved: Vec<usize> = Vec::new();
        let mut k: usize = 0;
        while k < n
            invariant
                k <= n,
                n == order@.len(),
                self.valid(n as int),
                moved@.len() == k,
                forall|i: int| 0 <= i < k ==> moved@[i] == order@[self.source(i)],
            decreases n - k,
        {
            let at: usize = self.source_of(k, n);
            moved.push(order[at]);
            k = k + 1;
        }
        proof {
            assert(moved@ =~= self.apply(order@));
        }
        moved
    }
}

/// A valid move takes every job from a position of the order, and the
/// inverse move takes it back: the two position maps undo each other.
pub proof fn lemma_sources_undo(mv: Move, n: int, k: int)
    requires
        mv.valid(n),
        0 <= k < n,
    ensures
        mv.inverse().valid(n),
        0 <= mv.source(k) < n,
        mv.source(mv.inverse().source(k)) == k,
        mv.inverse().source(mv.source(k)) == k,
        k < mv.first_touched() ==> mv.source(k) == k,
        mv.inverse().first_touched() == mv.first_touched(),
{
}

/// A move followed by its inverse restores the order, and with it the cost.
pub proof fn lemma_inverse_restores(tasks: Seq<Task>, mv: Move, order: Seq<usize>)
    requires
        mv.valid(order.len() as int),
    ensures
        mv.inverse().valid(order.len() as int),
        mv.inverse().apply(mv.apply(order)) == order,
        total_cost(tasks, mv.inverse().apply(mv.apply(order))) == total_cost(tasks, order),
        mv.apply(mv.inverse().apply(order)) == order,
{
    let n = order.len() as int;
    let there = mv.apply(order);
    let back = mv.inverse().apply(there);
    let other = mv.apply(mv.inverse().apply(order));
    assert(back.len() == n && other.len() == n);
    assert forall|k: int| 0 <= k < n implies back[k] == order[k] && other[k] == order[k] by {
        lemma_sources_undo(mv, n, k);
        lemma_sources_undo(mv, n, mv.inverse().source(k));
        lemma_sources_undo(mv, n, mv.source(k));
    }
    if n > 0 {
        lemma_sources_undo(mv, n, 0);
    }
    assert(back =~= order);
    assert(other =~= order);
}

/// An order whose every position takes its job from a position of another
/// order, one for one, holds the same jobs as often.
pub proof fn lemma_rearranged(
    s: Seq<usize>,
    t: Seq<usize>,
    f: spec_fn(int) -> int,
    g: spec_fn(int) -> int,
)
    requires
        t.len() == s.len(),
        forall|k: int|
            0 <= k < s.len() ==> 0 <= #[trigger] f(k) < s.len() && t[k] == s[f(k)] && g(f(k))
                == k,
        forall|k: int| 0 <= k < s.len() ==> 0 <= #[trigger] g(k) < s.len() && f(g(k)) == k,
    ensures
        t.to_multiset() == s.to_multiset(),
    decreases s.len(),
{
    broadcast use vstd::seq_lib::group_to_multiset_ensures;

    let n = s.len() as int;
    if n == 0 {
        assert(t =~= s);
    } else {
        let j = f(n - 1);
        let shorter = t.drop_last();
        let others = s.remove(j);
        let f1 = |k: int|
            if f(k) < j {
                f(k)
            } else {
                f(k) - 1
            };
        let g1 = |i: int|
            g(
                if i < j {
                    i
                } else {
                    i + 1
                },
            );
        assert forall|k: int| 0 <= k < others.len() implies 0 <= #[trigger] f1(k) < others.len()
            && shorter[k] == others[f1(k)] && g1(f1(k)) == k by {
            assert(g(f(k)) == k);
            assert(g(f(n - 1)) == n - 1);
            assert(f(k) != j);
        }
        assert forall|i: int| 0 <= i < others.len() implies 0 <= #[trigger] g1(i) < others.len()
            && f1(g1(i)) == i by {
            let from = if i < j {
                i
            } else {
                i + 1
            };
            assert(f(g(from)) == from);
            assert(f(n - 1) == j);
            assert(g(from) != n - 1);
        }
        lemma_rearranged(others, shorter, f1, g1);
        assert(t =~= shorter.push(t[n - 1]));
        vstd::seq_lib::to_multiset_remove(s, j);
        assert(s.to_multiset().count(s[j]) > 0) by {
            assert(s.contains(s[j]));
        }
        assert(s.to_multiset() =~= others.to_multiset().insert(s[j]));
    }
}

/// A move keeps the length of an order, the jobs it is made of, and
/// everything before the first position it touches.
pub proof fn lemma_apply_keeps(tasks: Seq<Task>, mv: Move, order: Seq<usize>)
    requires
        mv.valid(order.len() as int),
    ensures
        mv.apply(order).len() == order.len(),
        mv.apply(order).to_multiset() == order.to_multiset(),
        order_valid(tasks, order) ==> order_valid(tasks, mv.apply(order)),
        forall|k: int| 0 <= k < mv.first_touched() && k < order.len() ==> mv.apply(order)[k] == order[k],
        forall|n: nat| is_permutation(order, n) ==> is_permutation(mv.apply(order), n),
{
    let n = order.len() as int;
    let moved = mv.apply(order);
    assert forall|k: int| 0 <= k < n implies 0 <= #[trigger] mv.source(k) < n by {
        lemma_sources_undo(mv, n, k);
    }
    assert(moved.to_multiset() == order.to_multiset()) by {
        let f = |k: int| mv.source(k);
        let g = |k: int| mv.inverse().source(k);
        assert forall|k: int| 0 <= k < n implies 0 <= #[trigger] f(k) < n && moved[k] == order[f(
            k,
        )] && g(f(k)) == k by {
            lemma_sources_undo(mv, n, k);
        }
        assert forall|k: int| 0 <= k < n implies 0 <= #[trigger] g(k) < n && f(g(k)) == k by {
            lemma_sources_undo(mv, n, k);
            lemma_sources_undo(mv.inverse(), n, k);
        }
        lemma_rearranged(order, moved, f, g);
    }
    assert forall|k: int| 0 <= k < mv.first_touched() && k < n implies moved[k] == order[k] by {
        lemma_sources_undo(mv, n, k);
    }
    if order_valid(tasks, order) {
        assert forall|k: int| 0 <= k < moved.len() implies (#[trigger] moved[k]) < tasks.len() by {
            assert(order[mv.source(k)] < tasks.len());
        }
    }
    assert forall|m: nat| is_permutation(order, m) implies is_permutation(moved, m) by {
        assert forall|a: int, b: int| 0 <= a < b < moved.len() implies moved[a] != moved[b] by {
            lemma_sources_undo(mv, n, a);
            lemma_sources_undo(mv, n, b);
            let (x, y) = (mv.source(a), mv.source(b));
            if x < y {
                assert(order[x] != order[y]);
            } else {
                assert(x != y);
                assert(order[y] != order[x]);
            }
        }
        assert forall|k: int| 0 <= k < moved.len() implies (#[trigger] moved[k]) < m by {
            assert(order[mv.source(k)] < m);
        }
    }
}

impl<'a> Schedule<'a> {
    /// Carries out `mv` on the order. Score and caches stay as they were, so
    /// the caches are right only before the first position touched.
    pub fn apply(&mut self, mv: &Move)
        requires
            old(self).wf(),
            mv.valid(old(self).task_ids@.len() as int),
        ensures
            final(self).wf(),
            final(self).task_ids@ == mv.apply(old(self).task_ids@),
            final(self).score == old(self).score,
            final(self).score_partials@ == old(self).score_partials@,
            final(self).time_partials@ == old(self).time_partials@,
            final(self).tasks_ref == old(self).tasks_ref,
            forall|k: int|
                0 <= k <= mv.first_touched() && k <= old(self).task_ids@.len() && old(
                    self,
                ).cached_upto(k) ==> final(self).cached_upto(k),
    {
        let ghost before = *self;
        let moved: Vec<usize> = mv.perform(&self.task_ids);
        self.task_ids = moved;
        proof {
            lemma_apply_keeps(self.tasks_ref@, *mv, before.task_ids@);
            assert forall|k: int|
                0 <= k <= mv.first_touched() && k <= before.task_ids@.len() && before.cached_upto(
                    k,
                ) implies self.cached_upto(k) by {
                lemma_cache_survives(before, *self, k);
            }
        }
    }

    /// What the order would cost after `mv`. The schedule is left as it was.
    pub fn evaluate(&mut self, mv: &Move) -> (cost: u64)
        requires
            old(self).consistent(),
            mv.valid(old(self).task_ids@.len() as int),
        ensures
            final(self).consistent(),
            final(self).same_as(old(self)),
            cost == total_cost(old(self).tasks_ref@, mv.apply(old(self).task_ids@)),
    {
        let ghost before = *self;
        let n: usize = self.task_ids.len();
        if n == 0 {
            proof {
                assert(mv.apply(before.task_ids@) =~= before.task_ids@);
            }
            return self.score;
        }
        let at: usize = mv.start();
        proof {
            lemma_sources_undo(*mv, n as int, 0);
            lemma_apply_keeps(self.tasks_ref@, *mv, before.task_ids@);
            lemma_inverse_restores(self.tasks_ref@, *mv, before.task_ids@);
        }
        self.apply(mv);
        let cost: u64 = if at < n {
            self.recalculate_score_from_index(at)
        } else {
            proof {
                assert forall|k: int| 0 <= k < n implies mv.apply(before.task_ids@)[k]
                    == before.task_ids@[k] by {}
                assert(mv.apply(before.task_ids@) =~= before.task_ids@);
            }
            self.score
        };
        let back: Move = mv.inverted();
        self.apply(&back);
        cost
    }

    /// Carries out `mv` and brings score and caches up to date.
    pub fn commit(&mut self, mv: &Move)
        requires
            old(self).consistent(),
            mv.valid(old(self).task_ids@.len() as int),
        ensures
            final(self).consistent(),
            final(self).task_ids@ == mv.apply(old(self).task_ids@),
            final(self).tasks_ref == old(self).tasks_ref,
    {
        let n: usize = self.task_ids.len();
        let at: usize = mv.start();
        self.apply(mv);
        if at <= n {
            self.refresh_from_index(at);
        } else {
            self.refresh_from_index(0);
        }
    }
}

/// The four neighbourhoods.
#[derive(Debug, Clone, Copy, PartialEq, Eq, Structural)]
pub enum Kind {
    Swap,
    Relocate,
    TwoOpt,
    BlockMove,
}

impl Kind {
    /// `mv` is one of the moves that this neighbourhood tries on an order of
    /// `n` jobs.
    pub open spec fn contains(self, n: int, mv: Move) -> bool {
        match self {
            Kind::Swap => mv matches Move::Swap { i, j } && i < j < n,
            Kind::Relocate => mv matches Move::Relocate { from, to } && from < n && to < n && from
                != to,
            Kind::TwoOpt => mv matches Move::Reverse { i, j } && i < j < n,
            Kind::BlockMove => mv matches Move::Block { from, size, to } && 2 <= size
                <= MAX_BLOCK_SIZE && size < n && from + size <= n && to + size <= n,
        }
    }

    /// The move tried at step `(a, b, c)` of the search, if one is tried
    /// there.
    pub open spec fn candidate(self, n: int, a: int, b: int, c: int) -> Option<Move> {
        let mv = match self {
            Kind::Swap => Move::Swap { i: a as usize, j: b as usize },
            Kind::Relocate => Move::Relocate { from: a as usize, to: b as usize },
            Kind::TwoOpt => Move::Reverse { i: a as usize, j: b as usize },
            Kind::BlockMove => Move::Block { from: b as usize, size: a as usize, to: c as usize },
        };
        if 0 <= a <= usize::MAX && 0 <= b <= usize::MAX && 0 <= c <= usize::MAX && self.contains(
            n,
            mv,
        ) && (self == Kind::BlockMove || c == 0) {
            Some(mv)
        } else {
            None
        }
    }

    /// The move tried at step `(a, b, c)` of the search, if one is tried
    /// there.
    pub fn candidate_at(&self, n: usize, a: usize, b: usize, c: usize) -> (tried: Option<Move>)
        ensures
            tried == self.candidate(n as int, a as int, b as int, c as int),
    {
        match *self {
            Kind::Swap => if a < b && b < n && c == 0 {
                Some(Move::Swap { i: a, j: b })
            } else {
                None
            },
            Kind::Relocate => if a < n && b < n && a != b && c == 0 {
                Some(Move::Relocate { from: a, to: b })
            } else {
                None
            },
            Kind::TwoOpt => if a < b && b < n && c == 0 {
                Some(Move::Reverse { i: a, j: b })
            } else {
                None
            },
            Kind::BlockMove => if 2 <= a && a <= MAX_BLOCK_SIZE && a < n && b <= n - a && c <= n
                - a {
                Some(Move::Block { from: b, size: a, to: c })
            } else {
                None
            },
        }
    }
}

/// The step of the search at which `mv` is tried.
pub open spec fn coords(mv: Move) -> (int, int, int) {
    match mv {
        Move::Swap { i, j } => (i as int, j as int, 0),
        Move::Relocate { from, to } => (from as int, to as int, 0),
        Move::Reverse { i, j } => (i as int, j as int, 0),
        Move::Block { from, size, to } => (size as int, from as int, to as int),
    }
}

/// Step `x` of the search comes before step `y`.
pub open spec fn before(x: (int, int, int), y: (int, int, int)) -> bool {
    x.0 < y.0 || (x.0 == y.0 && (x.1 < y.1 || (x.1 == y.1 && x.2 < y.2)))
}

/// What `mv` would make the order of `schedule` cost.
pub open spec fn cost_after(schedule: Schedule, mv: Move) -> int {
    total_cost(schedule.tasks_ref@, mv.apply(schedule.task_ids@))
}

/// No move of `kind` tried before step `at` costs less than `bound`.
pub open spec fn none_cheaper_before(
    schedule: Schedule,
    kind: Kind,
    at: (int, int, int),
    bound: int,
) -> bool {
    forall|mv: Move| #[trigger]
        kind.contains(schedule.task_ids@.len() as int, mv) && before(coords(mv), at) ==> bound
            <= cost_after(schedule, mv)
}

/// `found` is what a search of the neighbourhood `kind` of `schedule` has to
/// return. Nothing, when no move improves on the score. Otherwise an
/// improving move with the cost it leads to: the first one tried, when
/// `first_only` holds; else the cheapest of all, and of equally cheap ones
/// the first tried.
pub open spec fn is_search_result(
    schedule: Schedule,
    kind: Kind,
    first_only: bool,
    found: Option<(Move, u64)>,
) -> bool {
    let n = schedule.task_ids@.len() as int;
    match found {
        None => forall|mv: Move| #[trigger]
            kind.contains(n, mv) ==> schedule.score <= cost_after(schedule, mv),
        Some((best, cost)) => {
            &&& kind.contains(n, best)
            &&& cost == cost_after(schedule, best)
            &&& cost < schedule.score
            &&& first_only ==> none_cheaper_before(
                schedule,
                kind,
                coords(best),
                schedule.score as int,
            )
            &&& !first_only ==> none_cheaper_before(schedule, kind, coords(best), cost + 1)
            &&& !first_only ==> forall|mv: Move| #[trigger]
                kind.contains(n, mv) ==> cost <= cost_after(schedule, mv)
        },
    }
}

/// Tries the moves of `kind` on `schedule` in the order of their steps and
/// reports an improving one, as `is_search_result` says. The schedule is
/// left as it was.
pub fn search(schedule: &mut Schedule, kind: Kind, first_only: bool) -> (found: Option<
    (Move, u64),
>)
    requires
        old(schedule).consistent(),
    ensures
        final(schedule).consistent(),
        final(schedule).same_as(old(schedule)),
        is_search_result(*old(schedule), kind, first_only, found),
{
    let n: usize = schedule.task_ids.len();
    let ghost start = *schedule;
    let outer: usize = match kind {
        Kind::BlockMove => MAX_BLOCK_SIZE + 1,
        _ => n,
    };
    let inner: usize = match kind {
        Kind::BlockMove => n,
        _ => 1,
    };
    let mut found: Option<(Move, u64)> = None;
    let mut best_cost: u64 = schedule.score;
    let mut a: usize = 0;
    while a < outer
        invariant
            a <= outer,
            n == start.task_ids@.len(),
            outer == (if kind == Kind::BlockMove {
                MAX_BLOCK_SIZE + 1
            } else {
                n as int
            }),
            inner == (if kind == Kind::BlockMove {
                n as int
            } else {
                1
            }),
            schedule.consistent(),
            schedule.same_as(&start),
            start == *old(schedule),
            search_so_far(start, kind, first_only, found, best_cost, (a as int, 0, 0)),
        decreases outer - a,
    {
        let mut b: usize = 0;
        while b < n
            invariant
                a < outer,
                b <= n,
                n == start.task_ids@.len(),
                inner == (if kind == Kind::BlockMove {
                    n as int
                } else {
                    1
                }),
                schedule.consistent(),
                schedule.same_as(&start),
            start == *old(schedule),
                start == *old(schedule),
                search_so_far(start, kind, first_only, found, best_cost, (a as int, b as int, 0)),
            decreases n - b,
        {
            let mut c: usize = 0;
            while c < inner
                invariant
                    b < n,
                    c <= inner,
                    n == start.task_ids@.len(),
                    inner == (if kind == Kind::BlockMove {
                        n as int
                    } else {
                        1
                    }),
                    schedule.consistent(),
                    schedule.same_as(&start),
                    start == *old(schedule),
            start == *old(schedule),
                start == *old(schedule),
                    search_so_far(
                        start,
                        kind,
                        first_only,
                        found,
                        best_cost,
                        (a as int, b as int, c as int),
                    ),
                decreases inner - c,
            {
                let ghost here = (a as int, b as int, c as int);
                let ghost next = (a as int, b as int, c + 1);
                let ghost held = best_cost;
                match kind.candidate_at(n, a, b, c) {
                    Some(mv) => {
                        assert(coords(mv) == here);
                        let cost: u64 = schedule.evaluate(&mv);
                        if cost < best_cost {
                            best_cost = cost;
                            found = Some((mv, cost));
                            if first_only {
                                proof {
                                    assert forall|other: Move| #[trigger]
                                        kind.contains(n as int, other) && before(
                                            coords(other),
                                            coords(mv),
                                        ) implies start.score <= cost_after(start, other) by {}
                                }
                                return found;
                            }
                        }
                        proof {
                            assert forall|other: Move| #[trigger]
                                kind.contains(n as int, other) && before(
                                    coords(other),
                                    next,
                                ) implies best_cost <= cost_after(start, other) by {
                                if before(coords(other), here) {
                                    assert(held <= cost_after(start, other));
                                } else {
                                    assert(coords(other) == here);
                                    assert(other == mv);
                                }
                            }
                        }
                    },
                    None => {
                        proof {
                            assert forall|other: Move| #[trigger]
                                kind.contains(n as int, other) && before(
                                    coords(other),
                                    next,
                                ) implies best_cost <= cost_after(start, other) by {
                                if !before(coords(other), here) {
                                    assert(coords(other) == here);
                                    assert(kind.candidate(n as int, a as int, b as int, c as int)
                                        == Some(other));
                                }
                            }
                        }
                    },
                }
                c = c + 1;
            }
            proof {
                assert forall|other: Move| #[trigger]
                    kind.contains(n as int, other) && before(
                        coords(other),
                        (a as int, b + 1, 0),
                    ) implies best_cost <= cost_after(start, other) by {
                    assert(before(coords(other), (a as int, b as int, inner as int)));
                }
            }
            b = b + 1;
        }
        proof {
            assert forall|other: Move| #[trigger]
                kind.contains(n as int, other) && before(coords(other), (a + 1, 0, 0)) implies best_cost
                <= cost_after(start, other) by {
                assert(before(coords(other), (a as int, n as int, 0)));
            }
        }
        a = a + 1;
    }
    proof {
        assert forall|other: Move| #[trigger] kind.contains(n as int, other) implies best_cost
            <= cost_after(start, other) by {
            assert(before(coords(other), (outer as int, 0, 0)));
        }
    }
    found
}

/// What the search knows when it is about to try step `at`.
pub open spec fn search_so_far(
    schedule: Schedule,
    kind: Kind,
    first_only: bool,
    found: Option<(Move, u64)>,
    best_cost: u64,
    at: (int, int, int),
) -> bool {
    let n = schedule.task_ids@.len() as int;
    &&& none_cheaper_before(schedule, kind, at, best_cost as int)
    &&& match found {
        None => best_cost == schedule.score,
        Some((best, cost)) => {
            &&& !first_only
            &&& cost == best_cost
            &&& kind.contains(n, best)
            &&& cost == cost_after(schedule, best)
            &&& cost < schedule.score
            &&& none_cheaper_before(schedule, kind, coords(best), cost + 1)
        },
    }
}

impl Kind {
    /// `mv` is one of the moves that a shake of this neighbourhood may draw
    /// on an order of `n` jobs: a move the search tries, or a swap written
    /// with the larger position first.
    pub open spec fn shakes(self, n: int, mv: Move) -> bool {
        match self {
            Kind::Swap => mv matches Move::Swap { i, j } && i < n && j < n && i != j,
            _ => self.contains(n, mv),
        }
    }

    /// The shortest order on which the neighbourhood has a move.
    pub open spec fn least_jobs(self) -> int {
        match self {
            Kind::BlockMove => 3,
            _ => 2,
        }
    }
}

/// The largest block that can be moved in an order of `n` jobs.
pub open spec fn largest_block(n: int) -> int {
    if MAX_BLOCK_SIZE < n - 1 {
        MAX_BLOCK_SIZE as int
    } else {
        n - 1
    }
}

/// The second of two different positions, for a first position `first` and a
/// number `other` that counts the positions left.
pub open spec fn second_position(first: usize, other: usize) -> usize {
    if other >= first {
        (other + 1) as usize
    } else {
        other
    }
}

/// The numbers `a`, `b`, `c` are draws from which a move of `kind` on `n`
/// jobs can be made: for an exchange, a move of one job or a reversal, a
/// position and a number below the count of the other positions; for a
/// block move, a number below the count of sizes, and a position below the
/// count of places for a block of that size for each end.
pub open spec fn draws_fit(kind: Kind, n: int, a: usize, b: usize, c: usize) -> bool {
    match kind {
        Kind::BlockMove => n >= 3 && a < largest_block(n) - 1 && b < n - (2 + a) + 1 && c < n - (2
            + a) + 1,
        _ => n >= 2 && a < n && b < n - 1,
    }
}

/// The move of `kind` that the draws `a`, `b`, `c` stand for.
pub open spec fn drawn_move(kind: Kind, a: usize, b: usize, c: usize) -> Move {
    match kind {
        Kind::Swap => Move::Swap { i: a, j: second_position(a, b) },
        Kind::Relocate => Move::Relocate { from: a, to: second_position(a, b) },
        Kind::TwoOpt => if a < second_position(a, b) {
            Move::Reverse { i: a, j: second_position(a, b) }
        } else {
            Move::Reverse { i: second_position(a, b), j: a }
        },
        Kind::BlockMove => Move::Block { from: b, size: (2 + a) as usize, to: c },
    }
}

/// The move of `kind` on `n` jobs that the draws `a`, `b`, `c` stand for.
pub fn move_for(kind: Kind, n: usize, a: usize, b: usize, c: usize) -> (mv: Move)
    requires
        draws_fit(kind, n as int, a, b, c),
    ensures
        mv == drawn_move(kind, a, b, c),
        kind.shakes(n as int, mv),
        mv.valid(n as int),
{
    let other: usize = if b >= a && !matches!(kind, Kind::BlockMove) {
        b + 1
    } else {
        b
    };
    match kind {
        Kind::Swap => Move::Swap { i: a, j: other },
        Kind::Relocate => Move::Relocate { from: a, to: other },
        Kind::TwoOpt => if a < other {
            Move::Reverse { i: a, j: other }
        } else {
            Move::Reverse { i: other, j: a }
        },
        Kind::BlockMove => Move::Block { from: b, size: 2 + a, to: c },
    }
}

/// A move of `kind` drawn at random for an order of `n` jobs: `move_for` of
/// three draws that fit; none when the order is too short to have one.
pub fn random_move(kind: Kind, n: usize) -> (drawn: Option<Move>)
    ensures
        drawn is Some <==> n >= kind.least_jobs(),
        drawn matches Some(mv) ==> kind.shakes(n as int, mv) && mv.valid(n as int),
        drawn matches Some(mv) ==> exists|a: usize, b: usize, c: usize| #[trigger]
            draws_fit(kind, n as int, a, b, c) && mv == drawn_move(kind, a, b, c),
{
    match kind {
        Kind::BlockMove => {
            if n < 3 {
                return None;
            }
            let largest: usize = if MAX_BLOCK_SIZE < n - 1 {
                MAX_BLOCK_SIZE
            } else {
                n - 1
            };
            let a: usize = random_below(largest - 1);
            let b: usize = random_below(n - (2 + a) + 1);
            let c: usize = random_below(n - (2 + a) + 1);
            assert(draws_fit(kind, n as int, a, b, c));
            Some(move_for(kind, n, a, b, c))
        },
        _ => {
            if n < 2 {
                return None;
            }
            let a: usize = random_below(n);
            let b: usize = random_below(n - 1);
            assert(draws_fit(kind, n as int, a, b, 0));
            Some(move_for(kind, n, a, b, 0))
        },
    }
}

/// `after` is `before` with its order rearranged: same table, same length,
/// same jobs, score and caches untouched.
pub open spec fn shaken(before: Schedule, after: Schedule) -> bool {
    &&& after.wf()
    &&& after.tasks_ref == before.tasks_ref
    &&& after.task_ids@.len() == before.task_ids@.len()
    &&& after.score == before.score
    &&& after.score_partials@ == before.score_partials@
    &&& after.time_partials@ == before.time_partials@
    &&& after.task_ids@.to_multiset() == before.task_ids@.to_multiset()
    &&& forall|n: nat| is_permutation(before.task_ids@, n) ==> is_permutation(after.task_ids@, n)
}

/// The order after the first `len` of `moves`, one after the other.
pub open spec fn apply_all(moves: Seq<Move>, order: Seq<usize>, len: nat) -> Seq<usize>
    decreases len,
{
    if len == 0 {
        order
    } else {
        moves[len - 1].apply(apply_all(moves, order, (len - 1) as nat))
    }
}

/// `after` is `before` after `k` moves that a shake of `kind` may draw, or
/// `before` itself where the order is too short for the neighbourhood.
pub open spec fn shaken_by(before: Seq<usize>, after: Seq<usize>, kind: Kind, k: nat) -> bool {
    if before.len() < kind.least_jobs() {
        after == before
    } else {
        exists|moves: Seq<Move>|
            {
                &&& moves.len() == k
                &&& forall|i: int|
                    0 <= i < k ==> kind.shakes(before.len() as int, #[trigger] moves[i])
                &&& after == apply_all(moves, before, k)
            }
    }
}

/// What has been carried out does not depend on what is drawn later.
proof fn lemma_apply_all_prefix(a: Seq<Move>, b: Seq<Move>, order: Seq<usize>, len: nat)
    requires
        len <= a.len(),
        len <= b.len(),
        forall|i: int| 0 <= i < len ==> a[i] == b[i],
    ensures
        apply_all(a, order, len) == apply_all(b, order, len),
    decreases len,
{
    if len > 0 {
        lemma_apply_all_prefix(a, b, order, (len - 1) as nat);
    }
}

/// Carries out `k` moves of `kind`, each drawn at random, on the order of
/// `schedule`. Score and caches are left stale. An order too short for the
/// neighbourhood is left alone.
pub fn shake_with(schedule: &mut Schedule, kind: Kind, k: usize)
    requires
        old(schedule).wf(),
    ensures
        shaken(*old(schedule), *final(schedule)),
        shaken_by(old(schedule).task_ids@, final(schedule).task_ids@, kind, k as nat),
{
    let n: usize = schedule.task_ids.len();
    let ghost start = schedule.task_ids@;
    let ghost mut drawn: Seq<Move> = Seq::empty();
    let mut done: usize = 0;
    while done < k
        invariant
            done <= k,
            n == schedule.task_ids@.len(),
            start == old(schedule).task_ids@,
            n == start.len(),
            shaken(*old(schedule), *schedule),
            n < kind.least_jobs() ==> schedule.task_ids@ == start,
            n >= kind.least_jobs() ==> drawn.len() == done && schedule.task_ids@ == apply_all(
                drawn,
                start,
                done as nat,
            ) && forall|i: int| 0 <= i < done ==> kind.shakes(n as int, #[trigger] drawn[i]),
        decreases k - done,
    {
        match random_move(kind, n) {
            Some(mv) => {
                let ghost before = drawn;
                proof {
                    lemma_apply_keeps(schedule.tasks_ref@, mv, schedule.task_ids@);
                    drawn = drawn.push(mv);
                    lemma_apply_all_prefix(before, drawn, start, done as nat);
                }
                schedule.apply(&mv);
            },
            None => {},
        }
        done = done + 1;
    }
}

/// `after` is what an improving step of `kind` makes of `before`: the result
/// of the move that a search reports, scored and cached, or `before` itself
/// when the search reports none.
pub open spec fn move_made(
    before: Schedule,
    kind: Kind,
    first_only: bool,
    after: Schedule,
    improved: bool,
) -> bool {
    &&& after.consistent()
    &&& after.tasks_ref == before.tasks_ref
    &&& improved <==> after.score < before.score
    &&& !improved ==> after.same_as(&before) && is_search_result(before, kind, first_only, None)
    &&& improved ==> exists|mv: Move| #[trigger]
        is_search_result(before, kind, first_only, Some((mv, after.score))) && after.task_ids@
            == mv.apply(before.task_ids@)
    &&& after.task_ids@.len() == before.task_ids@.len()
    &&& after.task_ids@.to_multiset() == before.task_ids@.to_multiset()
    &&& forall|n: nat| is_permutation(before.task_ids@, n) ==> is_permutation(after.task_ids@, n)
}

/// Searches the neighbourhood `kind` of `schedule` and carries out the move
/// found, if any. Says whether the schedule improved.
pub fn improve(schedule: &mut Schedule, kind: Kind, first_only: bool) -> (improved: bool)
    requires
        old(schedule).consistent(),
    ensures
        move_made(*old(schedule), kind, first_only, *final(schedule), improved),
{
    let ghost before = *schedule;
    match search(schedule, kind, first_only) {
        Some((mv, cost)) => {
            proof {
                lemma_contained_is_valid(kind, before.task_ids@.len() as int, mv);
                lemma_apply_keeps(before.tasks_ref@, mv, before.task_ids@);
                lemma_search_result_same(before, *schedule, kind, first_only, Some((mv, cost)));
            }
            schedule.commit(&mv);
            proof {
                assert(is_search_result(before, kind, first_only, Some((mv, schedule.score))));
            }
            true
        },
        None => false,
    }
}

/// A move that a neighbourhood tries or draws is valid.
pub proof fn lemma_contained_is_valid(kind: Kind, n: int, mv: Move)
    requires
        kind.contains(n, mv) || kind.shakes(n, mv),
    ensures
        mv.valid(n),
{
}

/// What a search has to return depends on the order, the score and the
/// table alone.
pub proof fn lemma_search_result_same(
    a: Schedule,
    b: Schedule,
    kind: Kind,
    first_only: bool,
    found: Option<(Move, u64)>,
)
    requires
        a.same_as(&b),
    ensures
        is_search_result(a, kind, first_only, found) == is_search_result(
            b,
            kind,
            first_only,
            found,
        ),
{
    assert forall|mv: Move| cost_after(a, mv) == cost_after(b, mv) by {}
    assert forall|at: (int, int, int), bound: int|
        none_cheaper_before(a, kind, at, bound) == none_cheaper_before(b, kind, at, bound) by {
        assert forall|mv: Move| cost_after(a, mv) == cost_after(b, mv) by {}
    }
}

} // verus!
