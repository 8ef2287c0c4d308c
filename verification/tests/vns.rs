use scheduling::problem_1::algo::heuristics::calculate_score;
use scheduling::problem_1::algo::moves::{search, Kind};
use scheduling::problem_1::algo::neighborhood::Operator;
use scheduling::problem_1::algo::schedule::Schedule;
use scheduling::problem_1::algo::vns::VnsSolver;
use scheduling::problem_1::clock::Deadline;
use scheduling::problem_1::meta_algo::refine;
use scheduling::problem_1::models::{Instance, InstanceMetrics, Task};
use std::time::{Duration, Instant};

fn five() -> Vec<Task> {
    let rows = vec![
        (4, 0, vec![0, 2, 7, 1, 3]),
        (3, 2, vec![5, 0, 1, 4, 2]),
        (6, 0, vec![2, 3, 0, 6, 1]),
        (2, 9, vec![1, 1, 4, 0, 5]),
        (5, 1, vec![3, 6, 2, 2, 0]),
    ];
    let mut tasks = Vec::new();
    for (i, (p, r, s)) in rows.into_iter().enumerate() {
        tasks.push(Task { id: i as u32, ready_time: r, processing_time: p, switch_time: s });
    }
    tasks
}

fn pattern(n: usize, seed: u32) -> Vec<Task> {
    let mut x = seed;
    let mut next = move |m: u32| {
        x = x.wrapping_mul(1103515245).wrapping_add(12345);
        (x >> 16) % m
    };
    let mut tasks = Vec::new();
    for i in 0..n {
        let p = 1 + next(20);
        let r = next(30);
        let mut s = Vec::new();
        for j in 0..n {
            s.push(if i == j { 0 } else { next(10) });
        }
        tasks.push(Task { id: i as u32, ready_time: r, processing_time: p, switch_time: s });
    }
    tasks
}

#[test]
fn full_refiner_has_four_neighbourhoods() {
    let tasks = five();
    let solver = VnsSolver::new(&tasks, Duration::from_secs(1));
    assert_eq!(
        solver.neighborhoods,
        vec![
            Operator { kind: Kind::Swap, first_only: false },
            Operator { kind: Kind::Relocate, first_only: false },
            Operator { kind: Kind::TwoOpt, first_only: false },
            Operator { kind: Kind::BlockMove, first_only: true },
        ]
    );
    assert_eq!(solver.time_limit, Duration::from_secs(1));
    assert_eq!(solver.tasks_ref.len(), 5);
}

#[test]
fn simple_refiner_has_two_neighbourhoods() {
    let tasks = five();
    let solver = VnsSolver::first_improvement(&tasks, Duration::from_secs(2));
    assert_eq!(
        solver.neighborhoods,
        vec![
            Operator { kind: Kind::Swap, first_only: true },
            Operator { kind: Kind::Relocate, first_only: true },
        ]
    );
}

#[test]
fn descent_without_a_deadline_ends_in_a_local_optimum() {
    let tasks = five();
    for start in [vec![0, 1, 2, 3, 4], vec![4, 3, 2, 1, 0]] {
        let solver = VnsSolver::new(&tasks, Duration::from_secs(1));
        let mut schedule = Schedule::new(start, &tasks);
        assert!(solver.descend(&mut schedule, &Deadline::Never));
        assert_eq!(schedule.task_ids, vec![0, 1, 2, 4, 3]);
        assert_eq!(schedule.score, 77);
    }
    let solver = VnsSolver::first_improvement(&tasks, Duration::from_secs(1));
    let mut schedule = Schedule::new(vec![0, 1, 2, 3, 4], &tasks);
    assert!(solver.descend(&mut schedule, &Deadline::Never));
    assert_eq!(schedule.task_ids, vec![0, 1, 2, 4, 3]);
    assert_eq!(schedule.score, 77);
}

#[test]
fn descent_leaves_no_improving_move() {
    for seed in 1..=8 {
        let tasks = pattern(7, seed * 31337);
        let solver = VnsSolver::new(&tasks, Duration::from_secs(1));
        let start: Vec<usize> = (0..7).collect();
        let before = calculate_score(&tasks, &start).0;
        let mut schedule = Schedule::new(start, &tasks);
        assert!(solver.descend(&mut schedule, &Deadline::Never));
        assert!(schedule.score <= before);
        assert_eq!(schedule.score, calculate_score(&tasks, &schedule.task_ids).0);
        for kind in [Kind::Swap, Kind::Relocate, Kind::TwoOpt, Kind::BlockMove] {
            assert_eq!(search(&mut schedule, kind, false), None);
        }
        let mut sorted = schedule.task_ids.clone();
        sorted.sort();
        assert_eq!(sorted, (0..7).collect::<Vec<usize>>());
    }
}

#[test]
fn descent_past_its_deadline_changes_nothing() {
    let tasks = five();
    let solver = VnsSolver::new(&tasks, Duration::ZERO);
    let mut schedule = Schedule::new(vec![0, 1, 2, 3, 4], &tasks);
    let settled = solver.variable_neighborhood_descent(&mut schedule, Instant::now());
    assert!(!settled);
    assert_eq!(schedule.task_ids, vec![0, 1, 2, 3, 4]);
    assert_eq!(schedule.score, 87);
}

#[test]
fn descent_with_time_to_spare_improves() {
    let tasks = five();
    let solver = VnsSolver::new(&tasks, Duration::from_secs(60));
    let mut schedule = Schedule::new(vec![0, 1, 2, 3, 4], &tasks);
    let settled = solver.variable_neighborhood_descent(&mut schedule, Instant::now());
    assert!(settled);
    for kind in [Kind::Swap, Kind::Relocate, Kind::TwoOpt, Kind::BlockMove] {
        assert_eq!(search(&mut schedule, kind, false), None);
    }
    assert_eq!(schedule.task_ids, vec![0, 1, 2, 4, 3]);
    assert_eq!(schedule.score, 77);
}

#[test]
fn refiner_returns_a_scored_order_no_worse_than_the_start() {
    for seed in 1..=4 {
        let tasks = pattern(8, seed * 65537);
        let start: Vec<usize> = (0..8).rev().collect();
        let before = calculate_score(&tasks, &start).0;
        let solver = VnsSolver::new(&tasks, Duration::from_millis(100));
        let solution = solver.solve(start, Instant::now());
        assert!(solution.get_score() <= before);
        assert_eq!(solution.get_score(), calculate_score(&tasks, &solution.tasks).0);
        assert_eq!(solution.get_duration(), 0);
        let mut sorted = solution.tasks.clone();
        sorted.sort();
        assert_eq!(sorted, (0..8).collect::<Vec<usize>>());
    }
}

#[test]
fn refiner_without_time_returns_the_start() {
    let tasks = five();
    let solver = VnsSolver::new(&tasks, Duration::ZERO);
    let solution = solver.solve(vec![4, 3, 2, 1, 0], Instant::now());
    assert_eq!(solution.tasks, vec![4, 3, 2, 1, 0]);
    assert_eq!(solution.get_score(), calculate_score(&tasks, &vec![4, 3, 2, 1, 0]).0);
}

#[test]
fn refiner_finds_the_optimum_of_five_jobs() {
    let tasks = five();
    let solver = VnsSolver::first_improvement(&tasks, Duration::from_millis(100));
    let solution = solver.solve(vec![4, 3, 2, 1, 0], Instant::now());
    assert_eq!(solution.get_score(), 77);
}

#[test]
fn pipeline_returns_a_scored_permutation() {
    for seed in 1..=3 {
        let tasks = pattern(9, seed * 4099);
        let instance = Instance { n: 9, tasks, metrics: InstanceMetrics::default() };
        let solution = refine(&instance, Instant::now(), Duration::from_millis(60));
        assert_eq!(solution.get_score(), calculate_score(&instance.tasks, &solution.tasks).0);
        assert_eq!(solution.get_duration(), 0);
        let mut sorted = solution.tasks.clone();
        sorted.sort();
        assert_eq!(sorted, (0..9).collect::<Vec<usize>>());
    }
}

#[test]
fn pipeline_finds_the_optimum_of_five_jobs() {
    let instance = Instance { n: 5, tasks: five(), metrics: InstanceMetrics::default() };
    let solution = refine(&instance, Instant::now(), Duration::from_millis(60));
    assert_eq!(solution.get_score(), 77);
    assert_eq!(solution.tasks, vec![0, 1, 2, 4, 3]);
}

#[test]
fn pipeline_of_no_jobs_is_empty() {
    let instance = Instance { n: 0, tasks: vec![], metrics: InstanceMetrics::default() };
    let solution = refine(&instance, Instant::now(), Duration::ZERO);
    assert_eq!(solution.tasks, Vec::<usize>::new());
    assert_eq!(solution.get_score(), 0);
}

#[test]
fn default_metrics_are_zero() {
    assert_eq!(
        InstanceMetrics::default(),
        InstanceMetrics { n: 0, total_processing: 0, total_setup: 0 }
    );
}

#[test]
fn descent_without_neighbourhoods_settles_at_once() {
    let tasks = five();
    let mut solver = VnsSolver::new(&tasks, Duration::ZERO);
    solver.neighborhoods.clear();
    let mut schedule = Schedule::new(vec![4, 3, 2, 1, 0], &tasks);
    assert!(solver.variable_neighborhood_descent(&mut schedule, Instant::now()));
    assert_eq!(schedule.task_ids, vec![4, 3, 2, 1, 0]);
}

#[test]
fn descent_step_with_the_time_up_touches_nothing() {
    let tasks = five();
    let solver = VnsSolver::new(&tasks, Duration::from_secs(60));
    let mut schedule = Schedule::new(vec![0, 1, 2, 3, 4], &tasks);
    assert_eq!(solver.descent_step(&mut schedule, 0, true), None);
    assert_eq!(schedule.task_ids, vec![0, 1, 2, 3, 4]);
    assert_eq!(schedule.score, 87);
}

#[test]
fn descent_step_moves_on_or_starts_over() {
    let tasks = five();
    let solver = VnsSolver::new(&tasks, Duration::ZERO);
    let mut schedule = Schedule::new(vec![0, 1, 2, 3, 4], &tasks);
    // block moves, the last neighbourhood, improve: back to the first
    assert_eq!(solver.descent_step(&mut schedule, 3, false), Some(0));
    assert_eq!((schedule.task_ids.clone(), schedule.score), (vec![0, 3, 1, 2, 4], 80));
    let mut settled = Schedule::new(vec![0, 1, 2, 4, 3], &tasks);
    assert_eq!(solver.descent_step(&mut settled, 1, false), Some(2));
    assert_eq!((settled.task_ids.clone(), settled.score), (vec![0, 1, 2, 4, 3], 77));
}

#[test]
fn descent_keeps_the_jobs_of_a_partial_order_with_repeats() {
    let tasks = five();
    let solver = VnsSolver::new(&tasks, Duration::from_secs(60));
    let mut schedule = Schedule::new(vec![3, 1, 3, 0], &tasks);
    assert!(solver.descend(&mut schedule, &Deadline::Never));
    let mut sorted = schedule.task_ids.clone();
    sorted.sort();
    assert_eq!(sorted, vec![0, 1, 3, 3]);
    assert_eq!(schedule.score, calculate_score(&tasks, &schedule.task_ids).0);
}

#[test]
fn cheaper_candidate_is_taken_and_the_search_starts_over() {
    let tasks = five();
    let mut best = Schedule::new(vec![0, 1, 2, 3, 4], &tasks);
    let candidate = Schedule::new(vec![0, 3, 1, 2, 4], &tasks);
    assert_eq!((best.score, candidate.score), (87, 80));
    assert_eq!(VnsSolver::accept(&mut best, candidate, 2), 0);
    assert_eq!((best.task_ids.clone(), best.score), (vec![0, 3, 1, 2, 4], 80));
    assert_eq!(best.score_partials.last(), Some(&80));
}

#[test]
fn candidate_that_is_not_cheaper_is_dropped() {
    let tasks = five();
    let mut best = Schedule::new(vec![0, 3, 1, 2, 4], &tasks);
    let worse = Schedule::new(vec![0, 1, 2, 3, 4], &tasks);
    assert_eq!(VnsSolver::accept(&mut best, worse, 2), 3);
    assert_eq!((best.task_ids.clone(), best.score), (vec![0, 3, 1, 2, 4], 80));
    // a candidate of the same cost is not taken either
    let mut equal = Schedule::new(vec![4, 3, 2, 1, 0], &tasks);
    equal.score = 80;
    assert_eq!(VnsSolver::accept(&mut best, equal, 0), 1);
    assert_eq!((best.task_ids.clone(), best.score), (vec![0, 3, 1, 2, 4], 80));
}

#[test]
fn round_with_the_time_up_touches_nothing() {
    let tasks = five();
    let solver = VnsSolver::new(&tasks, Duration::from_secs(60));
    let mut best = Schedule::new(vec![0, 1, 2, 3, 4], &tasks);
    for k in 0..4 {
        assert_eq!(solver.search_step(&mut best, k, &Deadline::Never, true), None);
        assert_eq!((best.task_ids.clone(), best.score), (vec![0, 1, 2, 3, 4], 87));
    }
}

#[test]
fn round_takes_only_what_is_strictly_cheaper() {
    let tasks = pattern(7, 11);
    let solver = VnsSolver::new(&tasks, Duration::from_secs(60));
    let mut best = Schedule::new((0..7).collect(), &tasks);
    let mut taken = 0;
    for round in 0..200 {
        let k = round % 4;
        let before = (best.task_ids.clone(), best.score);
        let next = solver.search_step(&mut best, k, &Deadline::Never, false);
        assert_eq!(best.score, calculate_score(&tasks, &best.task_ids).0);
        let mut jobs = best.task_ids.clone();
        jobs.sort();
        assert_eq!(jobs, (0..7).collect::<Vec<usize>>());
        if best.score < before.1 {
            assert_eq!(next, Some(0));
            taken += 1;
        } else {
            assert_eq!(next, Some(k + 1));
            assert_eq!((best.task_ids.clone(), best.score), before);
        }
    }
    // the start is no local optimum, so the first round already improves
    assert!(taken > 0);
}
