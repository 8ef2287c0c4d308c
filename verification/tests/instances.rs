use scheduling::file_handler::{decode, ReadFileError};
use scheduling::problem_1::algo::bounds::{pick_strategy, BoundingStrategy};
use scheduling::problem_1::algo::heuristics::{calculate_score, find_initial_solution};
use scheduling::problem_1::algo::metrics::analyze_instance;
use scheduling::problem_1::generate::{generate_instance, MAX_P, MAX_S, MIN_P, MIN_S, SPREAD};
use scheduling::problem_1::models::{Instance, InstanceMetrics, Solution, Task, MAX_JOBS};
use scheduling::problem_1::verify::verify_instance;
use scheduling::problem_1::{Problem1Generator, Problem1Solver, Problem1Verifier};

fn table(rows: Vec<(u32, u32, Vec<u32>)>) -> Instance {
    let mut tasks: Vec<Task> = Vec::new();
    for (i, (p, r, s)) in rows.into_iter().enumerate() {
        tasks.push(Task { id: i as u32, ready_time: r, processing_time: p, switch_time: s });
    }
    Instance {
        n: tasks.len(),
        tasks,
        metrics: InstanceMetrics { n: 0, total_processing: 0, total_setup: 0 },
    }
}

fn three() -> Instance {
    table(vec![(3, 0, vec![0, 1, 2]), (2, 1, vec![1, 0, 1]), (4, 0, vec![2, 1, 0])])
}

fn first(_: &Vec<(u32, u32)>) -> usize {
    0
}

fn check_generated(instance: &Instance, n: usize) {
    assert_eq!(instance.n, n);
    assert_eq!(instance.tasks.len(), n);
    let total: u32 = instance.tasks.iter().map(|t| t.processing_time).sum();
    let bound = total / SPREAD;
    for (i, task) in instance.tasks.iter().enumerate() {
        assert_eq!(task.id as usize, i);
        assert!(MIN_P <= task.processing_time && task.processing_time < MAX_P);
        let earliest = (MAX_P - task.processing_time) * bound / MAX_P;
        if earliest >= bound {
            assert_eq!(task.ready_time, bound);
        } else {
            assert!(earliest <= task.ready_time && task.ready_time < bound);
        }
        assert_eq!(task.switch_time.len(), n);
        for (j, s) in task.switch_time.iter().enumerate() {
            if i == j {
                assert_eq!(*s, 0);
            } else {
                assert!(MIN_S <= *s && *s < MAX_S);
            }
        }
    }
}

#[test]
fn generated_instances_obey_their_ranges() {
    assert_eq!((MIN_P, MAX_P, MIN_S, MAX_S, SPREAD), (1, 35, 1, 20, 2));
    for n in [0usize, 1, 2, 7, 40] {
        for _ in 0..5 {
            check_generated(&generate_instance(n), n);
        }
    }
    check_generated(&Problem1Generator.generate(12), 12);
}

#[test]
fn generated_instances_differ() {
    let a = generate_instance(30).format();
    let b = generate_instance(30).format();
    let c = generate_instance(30).format();
    assert!(a != b || b != c);
}

#[test]
fn generated_instances_pass_the_check() {
    for n in [1usize, 3, 25] {
        let instance = generate_instance(n);
        assert_eq!(verify_instance(&instance.format()), Ok(()));
    }
}

#[test]
fn single_generated_job_is_ready_at_zero() {
    // the bound is half of a processing time below 35; the earliest ready
    // time is the bound scaled by (35 - p) / 35
    let instance = generate_instance(1);
    let p = instance.tasks[0].processing_time;
    let r = instance.tasks[0].ready_time;
    assert!(r <= p / 2);
    assert!((35 - p) * (p / 2) / 35 <= r);
}

#[test]
fn metrics_are_exact_sums() {
    let instance = three();
    assert_eq!(
        analyze_instance(&instance),
        InstanceMetrics { n: 3, total_processing: 9, total_setup: 8 }
    );
    let mut measured = three();
    measured.analyze();
    assert_eq!(measured.metrics, InstanceMetrics { n: 3, total_processing: 9, total_setup: 8 });
    assert_eq!(measured.n, 3);
    assert_eq!(measured.tasks.len(), 3);
}

#[test]
fn metrics_leave_the_diagonal_out() {
    // a table that breaks the rule of zero setups to oneself
    let instance = table(vec![(1, 0, vec![50, 2]), (1, 0, vec![3, 60])]);
    assert_eq!(
        analyze_instance(&instance),
        InstanceMetrics { n: 2, total_processing: 2, total_setup: 5 }
    );
}

#[test]
fn metrics_of_extreme_tables() {
    let none = table(vec![]);
    assert_eq!(analyze_instance(&none), InstanceMetrics { n: 0, total_processing: 0, total_setup: 0 });
    let big = u32::MAX;
    let instance = table(vec![(big, 0, vec![0, big]), (big, 0, vec![big, 0])]);
    assert_eq!(
        analyze_instance(&instance),
        InstanceMetrics { n: 2, total_processing: 2 * big as u64, total_setup: 2 * big as u64 }
    );
}

#[test]
fn measured_instance_picks_its_strategy() {
    // average setup 8/6, average processing 3: ratio 4/9
    let mut instance = three();
    instance.analyze();
    assert_eq!(pick_strategy(&instance.metrics), BoundingStrategy::ATCS);
    let mut heavy = table(vec![(1, 0, vec![0, 5]), (1, 0, vec![5, 0])]);
    heavy.analyze();
    assert_eq!(pick_strategy(&heavy.metrics), BoundingStrategy::INSERT);
}

#[test]
fn solver_solves_three_jobs() {
    let mut instance = three();
    let solution = Problem1Solver.solve(&mut instance, first).unwrap();
    assert_eq!(solution.tasks, vec![0, 1, 2]);
    assert_eq!(solution.get_score(), 20);
    assert_eq!(instance.metrics, InstanceMetrics { n: 3, total_processing: 9, total_setup: 8 });
    assert!(Problem1Verifier.verify(&instance, &solution));
}

#[test]
fn solver_returns_a_checked_solution() {
    for n in [1usize, 4, 9, 12] {
        let mut instance = generate_instance(n);
        let solution = Problem1Solver.solve(&mut instance, first).unwrap();
        assert!(Problem1Verifier.verify(&instance, &solution));
        assert_eq!(solution.get_score(), calculate_score(&instance.tasks, &solution.tasks).0);
    }
}

#[test]
fn solver_ends_no_worse_than_its_first_solution() {
    // light setups: the first solution is built by best insertion
    for shift in [0u32, 5, 11] {
        let mut instance = table(vec![
            (9, (3 * shift) % 17, vec![0, 1, 2, 0, 1, 2]),
            (7, (5 * shift) % 17, vec![2, 0, 1, 2, 0, 1]),
            (8, (7 * shift) % 17, vec![1, 2, 0, 1, 2, 0]),
            (6, (11 * shift) % 17, vec![0, 1, 2, 0, 1, 2]),
            (9, (13 * shift) % 17, vec![2, 0, 1, 2, 0, 1]),
            (5, (2 * shift) % 17, vec![1, 2, 0, 1, 2, 0]),
        ]);
        instance.analyze();
        let strategy = pick_strategy(&instance.metrics);
        assert_eq!(strategy, BoundingStrategy::ATCS);
        let mut start = Solution::new(vec![]);
        assert_eq!(find_initial_solution(&instance, &mut start, &strategy, first), Ok(()));
        let (cost, makespan) = calculate_score(&instance.tasks, &start.tasks);
        let solution = Problem1Solver.solve(&mut instance, first).unwrap();
        assert!(solution.get_score() <= cost);
        assert_eq!(solution.get_duration(), makespan as u128);
    }
    // heavy setups: the first solution is built by the priority rule
    let mut heavy = table(vec![
        (1, 0, vec![0, 5, 9]),
        (2, 1, vec![5, 0, 7]),
        (1, 0, vec![8, 6, 0]),
    ]);
    heavy.analyze();
    assert_eq!(pick_strategy(&heavy.metrics), BoundingStrategy::INSERT);
    let mut start = Solution::new(vec![]);
    assert_eq!(
        find_initial_solution(&heavy, &mut start, &BoundingStrategy::INSERT, first),
        Ok(())
    );
    let (cost, makespan) = calculate_score(&heavy.tasks, &start.tasks);
    let solution = Problem1Solver.solve(&mut heavy, first).unwrap();
    assert!(solution.get_score() <= cost);
    assert_eq!(solution.get_duration(), makespan as u128);
}

#[test]
fn solver_has_nothing_for_no_jobs() {
    let mut instance = table(vec![]);
    assert!(Problem1Solver.solve(&mut instance, first).is_err());
}

#[test]
fn verifier_refuses_wrong_solutions() {
    let instance = three();
    let scored = |order: Vec<usize>, score: u64| {
        let mut s = Solution::new(order);
        s.set_score(score);
        s
    };
    assert!(Problem1Verifier.verify(&instance, &scored(vec![0, 1, 2], 20)));
    assert!(Problem1Verifier.verify(&instance, &scored(vec![2, 0, 1], 25)));
    assert!(!Problem1Verifier.verify(&instance, &scored(vec![0, 1, 2], 21)));
    assert!(!Problem1Verifier.verify(&instance, &scored(vec![0, 1], 9)));
    assert!(!Problem1Verifier.verify(&instance, &scored(vec![0, 1, 1], 20)));
    assert!(!Problem1Verifier.verify(&instance, &scored(vec![0, 1, 3], 20)));
    assert!(!Problem1Verifier.verify(&instance, &Solution::new(vec![])));
}

#[test]
fn limit_on_jobs() {
    assert_eq!(MAX_JOBS, 46340);
    // the largest number whose square times 2^33 stays below 2^64
    let fits = |n: u128| n * n * (1u128 << 33) < (1u128 << 64);
    assert!(fits(MAX_JOBS as u128) && !fits(MAX_JOBS as u128 + 1));
}

#[test]
fn bytes_are_decoded_as_utf8() {
    assert_eq!(decode(b"3\n3 0\n".to_vec()).unwrap(), "3\n3 0\n");
    assert_eq!(decode(vec![]).unwrap(), "");
    assert_eq!(decode(vec![0xc3, 0xa9]).unwrap(), "\u{e9}");
}

#[test]
fn bytes_that_are_not_utf8_are_refused() {
    for bytes in [vec![0xff], vec![b'a', 0xc3], vec![0xc3, 0x28], vec![0xed, 0xa0, 0x80]] {
        match decode(bytes.clone()) {
            Err(ReadFileError::ParseError(e)) => assert_eq!(e.into_bytes(), bytes),
            _ => panic!("decoded"),
        }
    }
}
