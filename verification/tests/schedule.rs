use scheduling::problem_1::algo::heuristics::calculate_score;
use scheduling::problem_1::algo::moves::{
    improve, move_for, random_move, search, shake_with, Kind, Move, MAX_BLOCK_SIZE,
};
use scheduling::problem_1::algo::neighborhood as simple;
use scheduling::problem_1::algo::neighborhood::{Neighborhood, Operator};
use scheduling::problem_1::algo::schedule::Schedule;
use scheduling::problem_1::meta_algo::neighborhood as full;
use scheduling::problem_1::models::Task;

fn five() -> Vec<Task> {
    let rows = vec![
        (4, 0, vec![0, 2, 7, 1, 3]),
        (3, 2, vec![5, 0, 1, 4, 2]),
        (6, 0, vec![2, 3, 0, 6, 1]),
        (2, 9, vec![1, 1, 4, 0, 5]),
        (5, 1, vec![3, 6, 2, 2, 0]),
    ];
    let mut tasks = Vec::new();
    for (i, (p, r, s)) in rows.into_iter().enumerate() {
        tasks.push(Task { id: i as u32, ready_time: r, processing_time: p, switch_time: s });
    }
    tasks
}

fn cost(tasks: &Vec<Task>, order: &Vec<usize>) -> u64 {
    calculate_score(tasks, order).0
}

fn all_moves(kind: Kind, n: usize) -> Vec<Move> {
    let mut out = Vec::new();
    match kind {
        Kind::Swap => {
            for i in 0..n {
                for j in i + 1..n {
                    out.push(Move::Swap { i, j });
                }
            }
        }
        Kind::Relocate => {
            for from in 0..n {
                for to in 0..n {
                    if from != to {
                        out.push(Move::Relocate { from, to });
                    }
                }
            }
        }
        Kind::TwoOpt => {
            for i in 0..n {
                for j in i + 1..n {
                    out.push(Move::Reverse { i, j });
                }
            }
        }
        Kind::BlockMove => {
            for size in 2..=MAX_BLOCK_SIZE {
                if size < n {
                    for from in 0..=n - size {
                        for to in 0..=n - size {
                            out.push(Move::Block { from, size, to });
                        }
                    }
                }
            }
        }
    }
    out
}

const KINDS: [Kind; 4] = [Kind::Swap, Kind::Relocate, Kind::TwoOpt, Kind::BlockMove];

#[test]
fn new_schedule_is_scored_and_cached() {
    let tasks = five();
    let schedule = Schedule::new(vec![3, 1, 4, 0, 2], &tasks);
    assert_eq!(schedule.task_ids, vec![3, 1, 4, 0, 2]);
    assert_eq!(schedule.score, 119);
    assert_eq!(schedule.score_partials, vec![11, 26, 48, 77, 119]);
    assert_eq!(schedule.time_partials, vec![11, 15, 22, 29, 42]);
}

#[test]
fn partial_schedule_fills_the_front_of_its_caches() {
    let tasks = five();
    let schedule = Schedule::new(vec![3, 1], &tasks);
    assert_eq!(schedule.score, 26);
    assert_eq!(schedule.score_partials, vec![11, 26, 0, 0, 0]);
    assert_eq!(schedule.time_partials, vec![11, 15, 0, 0, 0]);
}

#[test]
fn empty_schedule_costs_nothing() {
    let tasks = five();
    let mut schedule = Schedule::new(vec![], &tasks);
    assert_eq!(schedule.score, 0);
    assert_eq!(schedule.recalculate_score_from_index(0), 0);
}

#[test]
fn rescoring_from_any_position_equals_scoring_from_scratch() {
    let tasks = five();
    let start = vec![3, 1, 4, 0, 2];
    for from in 0..5 {
        // every way to rearrange the jobs from position `from` on
        for kind in KINDS {
            for mv in all_moves(kind, 5) {
                let changed = mv.perform(&start);
                if changed[..from] != start[..from] {
                    continue;
                }
                let mut schedule = Schedule::new(start.clone(), &tasks);
                schedule.task_ids = changed.clone();
                let rescored = schedule.recalculate_score_from_index(from);
                assert_eq!(rescored, cost(&tasks, &changed));
                let mut fresh = Schedule::new(changed.clone(), &tasks);
                fresh.calculate_full_score();
                assert_eq!(rescored, fresh.score);
            }
        }
    }
}

#[test]
fn rescoring_stores_nothing() {
    let tasks = five();
    let mut schedule = Schedule::new(vec![3, 1, 4, 0, 2], &tasks);
    schedule.task_ids.swap(3, 4);
    assert_eq!(schedule.recalculate_score_from_index(3), cost(&tasks, &vec![3, 1, 4, 2, 0]));
    assert_eq!(schedule.score, 119);
    assert_eq!(schedule.score_partials, vec![11, 26, 48, 77, 119]);
    assert_eq!(schedule.time_partials, vec![11, 15, 22, 29, 42]);
}

#[test]
fn rescoring_past_the_end_returns_the_stored_score() {
    let tasks = five();
    let mut schedule = Schedule::new(vec![3, 1, 4, 0, 2], &tasks);
    assert_eq!(schedule.recalculate_score_from_index(5), 119);
    assert_eq!(schedule.recalculate_score_from_index(77), 119);
}

#[test]
fn refresh_brings_the_caches_up_to_date() {
    let tasks = five();
    let mut schedule = Schedule::new(vec![3, 1, 4, 0, 2], &tasks);
    schedule.task_ids.swap(2, 4);
    schedule.refresh_from_index(2);
    let fresh = Schedule::new(vec![3, 1, 2, 0, 4], &tasks);
    assert_eq!(schedule.score, fresh.score);
    assert_eq!(schedule.score_partials, fresh.score_partials);
    assert_eq!(schedule.time_partials, fresh.time_partials);
}

#[test]
fn moves_rearrange_as_they_say() {
    let order = vec![0, 1, 2, 3, 4];
    assert_eq!(Move::Swap { i: 1, j: 3 }.perform(&order), vec![0, 3, 2, 1, 4]);
    assert_eq!(Move::Swap { i: 3, j: 1 }.perform(&order), vec![0, 3, 2, 1, 4]);
    assert_eq!(Move::Relocate { from: 0, to: 3 }.perform(&order), vec![1, 2, 3, 0, 4]);
    assert_eq!(Move::Relocate { from: 4, to: 1 }.perform(&order), vec![0, 4, 1, 2, 3]);
    assert_eq!(Move::Reverse { i: 1, j: 3 }.perform(&order), vec![0, 3, 2, 1, 4]);
    assert_eq!(Move::Reverse { i: 0, j: 4 }.perform(&order), vec![4, 3, 2, 1, 0]);
    assert_eq!(Move::Block { from: 0, size: 2, to: 3 }.perform(&order), vec![2, 3, 4, 0, 1]);
    assert_eq!(Move::Block { from: 2, size: 3, to: 0 }.perform(&order), vec![2, 3, 4, 0, 1]);
    assert_eq!(Move::Block { from: 1, size: 2, to: 1 }.perform(&order), vec![0, 1, 2, 3, 4]);
}

#[test]
fn every_move_is_undone_by_its_inverse() {
    let tasks = five();
    let start = vec![3, 1, 4, 0, 2];
    for kind in KINDS {
        for mv in all_moves(kind, 5) {
            let there = mv.perform(&start);
            let back = mv.inverted().perform(&there);
            assert_eq!(back, start);
            assert_eq!(mv.inverted().inverted(), mv);
            let mut schedule = Schedule::new(start.clone(), &tasks);
            schedule.commit(&mv);
            assert_eq!(schedule.score, cost(&tasks, &there));
            schedule.commit(&mv.inverted());
            assert_eq!(schedule.task_ids, start);
            assert_eq!(schedule.score, 119);
            assert_eq!(schedule.score_partials, vec![11, 26, 48, 77, 119]);
            assert_eq!(schedule.time_partials, vec![11, 15, 22, 29, 42]);
        }
    }
}

#[test]
fn evaluating_a_move_leaves_the_schedule_alone() {
    let tasks = five();
    let start = vec![3, 1, 4, 0, 2];
    for kind in KINDS {
        for mv in all_moves(kind, 5) {
            let mut schedule = Schedule::new(start.clone(), &tasks);
            let seen = schedule.evaluate(&mv);
            assert_eq!(seen, cost(&tasks, &mv.perform(&start)));
            assert_eq!(schedule.task_ids, start);
            assert_eq!(schedule.score, 119);
            assert_eq!(schedule.score_partials, vec![11, 26, 48, 77, 119]);
        }
    }
}

#[test]
fn move_starts_where_it_first_changes_something() {
    assert_eq!(Move::Swap { i: 3, j: 1 }.start(), 1);
    assert_eq!(Move::Relocate { from: 4, to: 2 }.start(), 2);
    assert_eq!(Move::Reverse { i: 2, j: 4 }.start(), 2);
    assert_eq!(Move::Block { from: 3, size: 2, to: 0 }.start(), 0);
    assert_eq!(Move::Block { from: 1, size: 2, to: 4 }.source_of(4, 6), 1);
}

#[test]
fn search_reports_the_first_or_the_best_move() {
    let tasks = five();
    let start = vec![0, 1, 2, 3, 4];
    let expect = [
        (Kind::Swap, Move::Swap { i: 2, j: 3 }, 84, Move::Swap { i: 3, j: 4 }, 77),
        (Kind::Relocate, Move::Relocate { from: 2, to: 3 }, 84, Move::Relocate { from: 3, to: 4 }, 77),
        (Kind::TwoOpt, Move::Reverse { i: 2, j: 3 }, 84, Move::Reverse { i: 3, j: 4 }, 77),
        (
            Kind::BlockMove,
            Move::Block { from: 1, size: 2, to: 2 },
            80,
            Move::Block { from: 1, size: 2, to: 2 },
            80,
        ),
    ];
    for (kind, first, first_cost, best, best_cost) in expect {
        let mut schedule = Schedule::new(start.clone(), &tasks);
        assert_eq!(schedule.score, 87);
        assert_eq!(search(&mut schedule, kind, true), Some((first, first_cost)));
        assert_eq!(search(&mut schedule, kind, false), Some((best, best_cost)));
        assert_eq!(schedule.task_ids, start);
        assert_eq!(schedule.score, 87);
    }
}

#[test]
fn search_agrees_with_trying_every_move() {
    let tasks = five();
    for start in [vec![3, 1, 4, 0, 2], vec![4, 3, 2, 1, 0], vec![0, 1, 2, 4, 3], vec![2, 0, 4, 3, 1]] {
        let base = cost(&tasks, &start);
        for kind in KINDS {
            let mut best: Option<(Move, u64)> = None;
            let mut first: Option<(Move, u64)> = None;
            for mv in all_moves(kind, 5) {
                let c = cost(&tasks, &mv.perform(&start));
                if c < best.map_or(base, |b| b.1) {
                    best = Some((mv, c));
                }
                if c < base && first.is_none() {
                    first = Some((mv, c));
                }
            }
            let mut schedule = Schedule::new(start.clone(), &tasks);
            assert_eq!(search(&mut schedule, kind, false), best);
            assert_eq!(search(&mut schedule, kind, true), first);
        }
    }
}

#[test]
fn search_finds_nothing_in_a_local_optimum() {
    let tasks = five();
    for kind in KINDS {
        let mut schedule = Schedule::new(vec![0, 1, 2, 4, 3], &tasks);
        assert_eq!(search(&mut schedule, kind, false), None);
        assert_eq!(search(&mut schedule, kind, true), None);
        assert!(!improve(&mut schedule, kind, false));
        assert_eq!(schedule.task_ids, vec![0, 1, 2, 4, 3]);
        assert_eq!(schedule.score, 77);
    }
}

#[test]
fn short_orders_have_no_moves() {
    let tasks = five();
    for kind in KINDS {
        let mut one = Schedule::new(vec![2], &tasks);
        assert_eq!(search(&mut one, kind, false), None);
        assert_eq!(random_move(kind, 1), None);
        assert_eq!(random_move(kind, 0), None);
    }
    let mut two = Schedule::new(vec![2, 0], &tasks);
    assert_eq!(search(&mut two, Kind::BlockMove, false), None);
    assert_eq!(random_move(Kind::BlockMove, 2), None);
    assert!(random_move(Kind::Swap, 2).is_some());
}

#[test]
fn improving_carries_the_move_out() {
    let tasks = five();
    let mut schedule = Schedule::new(vec![0, 1, 2, 3, 4], &tasks);
    assert!(improve(&mut schedule, Kind::Swap, false));
    assert_eq!(schedule.task_ids, vec![0, 1, 2, 4, 3]);
    assert_eq!(schedule.score, 77);
    let fresh = Schedule::new(vec![0, 1, 2, 4, 3], &tasks);
    assert_eq!(schedule.score_partials, fresh.score_partials);
    assert_eq!(schedule.time_partials, fresh.time_partials);
    let mut schedule = Schedule::new(vec![0, 1, 2, 3, 4], &tasks);
    assert!(improve(&mut schedule, Kind::Swap, true));
    assert_eq!(schedule.task_ids, vec![0, 1, 3, 2, 4]);
    assert_eq!(schedule.score, 84);
}

#[test]
fn operators_search_as_configured() {
    let tasks = five();
    let start = vec![0, 1, 2, 3, 4];
    let mut s = Schedule::new(start.clone(), &tasks);
    assert!(simple::Swap.find_best_move(&mut s));
    assert_eq!((s.task_ids.clone(), s.score), (vec![0, 1, 3, 2, 4], 84));
    let mut s = Schedule::new(start.clone(), &tasks);
    assert!(simple::Relocate.find_best_move(&mut s));
    assert_eq!((s.task_ids.clone(), s.score), (vec![0, 1, 3, 2, 4], 84));
    let mut s = Schedule::new(start.clone(), &tasks);
    assert!(full::Swap.find_best_move(&mut s));
    assert_eq!((s.task_ids.clone(), s.score), (vec![0, 1, 2, 4, 3], 77));
    let mut s = Schedule::new(start.clone(), &tasks);
    assert!(full::Relocate.find_best_move(&mut s));
    assert_eq!((s.task_ids.clone(), s.score), (vec![0, 1, 2, 4, 3], 77));
    let mut s = Schedule::new(start.clone(), &tasks);
    assert!(full::TwoOpt.find_best_move(&mut s));
    assert_eq!((s.task_ids.clone(), s.score), (vec![0, 1, 2, 4, 3], 77));
    let mut s = Schedule::new(start.clone(), &tasks);
    assert!(full::BlockMove.find_best_move(&mut s));
    assert_eq!((s.task_ids.clone(), s.score), (vec![0, 3, 1, 2, 4], 80));
    let mut s = Schedule::new(start.clone(), &tasks);
    assert!(Operator { kind: Kind::TwoOpt, first_only: true }.find_best_move(&mut s));
    assert_eq!((s.task_ids.clone(), s.score), (vec![0, 1, 3, 2, 4], 84));
}

#[test]
fn random_moves_are_moves_of_their_kind() {
    for kind in KINDS {
        for n in 3..9 {
            for _ in 0..200 {
                let mv = random_move(kind, n).unwrap();
                match (kind, mv) {
                    (Kind::Swap, Move::Swap { i, j }) => assert!(i < n && j < n && i != j),
                    (Kind::Relocate, Move::Relocate { from, to }) => {
                        assert!(from < n && to < n && from != to)
                    }
                    (Kind::TwoOpt, Move::Reverse { i, j }) => assert!(i < j && j < n),
                    (Kind::BlockMove, Move::Block { from, size, to }) => {
                        assert!(2 <= size && size <= 3 && size < n);
                        assert!(from + size <= n && to + size <= n);
                    }
                    _ => panic!("a move of another kind"),
                }
            }
        }
    }
}

#[test]
fn random_moves_vary() {
    let mut seen = std::collections::HashSet::new();
    for _ in 0..400 {
        if let Some(Move::Swap { i, j }) = random_move(Kind::Swap, 6) {
            seen.insert((i, j));
        }
    }
    // thirty ordered pairs exist; far more than one must show up
    assert!(seen.len() > 5);
}

#[test]
fn shaking_keeps_the_jobs_and_the_stale_score() {
    let tasks = five();
    for kind in KINDS {
        for k in 0..6 {
            let mut schedule = Schedule::new(vec![3, 1, 4, 0, 2], &tasks);
            shake_with(&mut schedule, kind, k);
            let mut sorted = schedule.task_ids.clone();
            sorted.sort();
            assert_eq!(sorted, vec![0, 1, 2, 3, 4]);
            assert_eq!(schedule.score, 119);
            assert_eq!(schedule.score_partials, vec![11, 26, 48, 77, 119]);
            if k == 0 {
                assert_eq!(schedule.task_ids, vec![3, 1, 4, 0, 2]);
            }
            schedule.calculate_full_score();
            assert_eq!(schedule.score, cost(&tasks, &schedule.task_ids));
        }
    }
}

#[test]
fn shaking_through_an_operator() {
    let tasks = five();
    let mut schedule = Schedule::new(vec![3, 1, 4, 0, 2], &tasks);
    full::TwoOpt.shake(&mut schedule, 3);
    let mut sorted = schedule.task_ids.clone();
    sorted.sort();
    assert_eq!(sorted, vec![0, 1, 2, 3, 4]);
    let mut short = Schedule::new(vec![3, 1], &tasks);
    full::BlockMove.shake(&mut short, 5);
    assert_eq!(short.task_ids, vec![3, 1]);
}

#[test]
fn one_swap_shake_changes_two_positions() {
    let tasks = five();
    for _ in 0..50 {
        let mut schedule = Schedule::new(vec![3, 1, 4, 0, 2], &tasks);
        shake_with(&mut schedule, Kind::Swap, 1);
        let moved = schedule.task_ids.iter().zip([3, 1, 4, 0, 2]).filter(|(a, b)| **a != *b).count();
        assert_eq!(moved, 2);
    }
}

#[test]
fn copy_of_a_schedule_is_equal() {
    let tasks = five();
    let schedule = Schedule::new(vec![3, 1, 4, 0, 2], &tasks);
    let copy = schedule.clone();
    assert_eq!(copy.task_ids, schedule.task_ids);
    assert_eq!(copy.score, schedule.score);
    assert_eq!(copy.score_partials, schedule.score_partials);
    assert_eq!(copy.time_partials, schedule.time_partials);
}

#[test]
fn draws_become_moves() {
    assert_eq!(move_for(Kind::Swap, 5, 2, 0, 0), Move::Swap { i: 2, j: 0 });
    assert_eq!(move_for(Kind::Swap, 5, 2, 1, 0), Move::Swap { i: 2, j: 1 });
    assert_eq!(move_for(Kind::Swap, 5, 2, 2, 0), Move::Swap { i: 2, j: 3 });
    assert_eq!(move_for(Kind::Swap, 5, 2, 3, 0), Move::Swap { i: 2, j: 4 });
    assert_eq!(move_for(Kind::Relocate, 5, 4, 3, 0), Move::Relocate { from: 4, to: 3 });
    assert_eq!(move_for(Kind::Relocate, 5, 0, 0, 0), Move::Relocate { from: 0, to: 1 });
    assert_eq!(move_for(Kind::TwoOpt, 5, 3, 1, 0), Move::Reverse { i: 1, j: 3 });
    assert_eq!(move_for(Kind::TwoOpt, 5, 1, 2, 0), Move::Reverse { i: 1, j: 3 });
    assert_eq!(move_for(Kind::BlockMove, 5, 0, 3, 1), Move::Block { from: 3, size: 2, to: 1 });
    assert_eq!(move_for(Kind::BlockMove, 5, 1, 2, 0), Move::Block { from: 2, size: 3, to: 0 });
    assert_eq!(move_for(Kind::BlockMove, 3, 0, 1, 1), Move::Block { from: 1, size: 2, to: 1 });
}
