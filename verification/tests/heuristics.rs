use scheduling::problem_1::algo::bounds::BoundingStrategy;
use scheduling::problem_1::algo::heuristics::{
    acts_offer, acts_step, best_insertion, calculate_score, earliest_shortest, find_initial_solution,
    heuristic_acts, heuristic_insertion, ready_positions, settle, Insertion, NoJobs, Offer,
};
use scheduling::problem_1::models::{Instance, InstanceMetrics, Solution, Task};

fn table(rows: Vec<(u32, u32, Vec<u32>)>) -> Instance {
    let mut tasks: Vec<Task> = Vec::new();
    for (i, (p, r, s)) in rows.into_iter().enumerate() {
        tasks.push(Task { id: i as u32, ready_time: r, processing_time: p, switch_time: s });
    }
    Instance {
        n: tasks.len(),
        tasks,
        metrics: InstanceMetrics { n: 0, total_processing: 0, total_setup: 0 },
    }
}

fn three() -> Instance {
    table(vec![(3, 0, vec![0, 1, 2]), (2, 1, vec![1, 0, 1]), (4, 0, vec![2, 1, 0])])
}

fn five() -> Instance {
    table(vec![
        (4, 0, vec![0, 2, 7, 1, 3]),
        (3, 2, vec![5, 0, 1, 4, 2]),
        (6, 0, vec![2, 3, 0, 6, 1]),
        (2, 9, vec![1, 1, 4, 0, 5]),
        (5, 1, vec![3, 6, 2, 2, 0]),
    ])
}

fn first(_: &Vec<(u32, u32)>) -> usize {
    0
}

#[test]
fn best_insertion_of_three_jobs() {
    let instance = three();
    let mut solution = Solution::new(vec![9, 9]);
    heuristic_insertion(&instance, &mut solution);
    assert_eq!(solution.tasks, vec![0, 1, 2]);
    assert_eq!(solution.get_score(), 0);
}

#[test]
fn best_insertion_of_five_jobs() {
    let instance = five();
    let mut solution = Solution::new(vec![]);
    heuristic_insertion(&instance, &mut solution);
    assert_eq!(solution.tasks, vec![0, 1, 2, 4, 3]);
}

#[test]
fn best_insertion_of_no_jobs_is_empty() {
    let instance = table(vec![]);
    let mut solution = Solution::new(vec![1, 2, 3]);
    heuristic_insertion(&instance, &mut solution);
    assert_eq!(solution.tasks, Vec::<usize>::new());
}

#[test]
fn cheapest_insertion_is_found_and_the_first_wins_a_tie() {
    let instance = three();
    // into [0]: job 1 before 0 costs 3 + 7, behind 0 costs 3 + 6;
    //           job 2 before 0 costs 4 + 9, behind 0 costs 3 + 9
    let best = best_insertion(&instance.tasks, &vec![0], &vec![1, 2]);
    assert_eq!(best, Insertion { cost: 9, task_index: 0, position: 1 });
    // two jobs that are alike: the first job and the first position win
    let twins = table(vec![(1, 0, vec![0, 0, 0]), (2, 0, vec![0, 0, 0]), (2, 0, vec![0, 0, 0])]);
    let best = best_insertion(&twins.tasks, &vec![0], &vec![1, 2]);
    assert_eq!(best, Insertion { cost: 4, task_index: 0, position: 1 });
}

#[test]
fn priority_rule_with_the_first_ready_job() {
    let instance = five();
    let mut solution = Solution::new(vec![]);
    heuristic_acts(&instance, &mut solution, first);
    assert_eq!(solution.tasks, vec![0, 1, 2, 3, 4]);
}

#[test]
fn priority_rule_with_the_last_ready_job() {
    let instance = five();
    let mut solution = Solution::new(vec![]);
    heuristic_acts(&instance, &mut solution, |c: &Vec<(u32, u32)>| c.len() - 1);
    assert_eq!(solution.tasks, vec![2, 4, 3, 1, 0]);
}

#[test]
fn priority_rule_is_offered_processing_time_and_setup() {
    let instance = five();
    let mut solution = Solution::new(vec![]);
    let seen = std::cell::RefCell::new(Vec::new());
    heuristic_acts(&instance, &mut solution, |c: &Vec<(u32, u32)>| {
        seen.borrow_mut().push(c.clone());
        c.len() - 1
    });
    assert_eq!(
        seen.into_inner(),
        vec![
            vec![(4, 0), (6, 0)],
            vec![(4, 2), (3, 3), (5, 1)],
            vec![(4, 3), (3, 6), (2, 2)],
            vec![(4, 1), (3, 1)],
        ]
    );
}

#[test]
fn priority_rule_counts_a_wild_index_as_zero() {
    let instance = five();
    let mut solution = Solution::new(vec![]);
    heuristic_acts(&instance, &mut solution, |_: &Vec<(u32, u32)>| 99);
    assert_eq!(solution.tasks, vec![0, 1, 2, 3, 4]);
}

#[test]
fn priority_rule_waits_for_the_job_that_is_ready_first() {
    // nothing is ready at time zero; jobs 1 and 2 are ready at 3, job 2 is shorter
    let instance = table(vec![
        (1, 5, vec![0, 0, 0]),
        (4, 3, vec![0, 0, 0]),
        (2, 3, vec![0, 0, 0]),
    ]);
    let mut solution = Solution::new(vec![]);
    heuristic_acts(&instance, &mut solution, first);
    // job 2 runs from 3 to 5; then jobs 0 and 1 are both ready and the first is picked
    assert_eq!(solution.tasks, vec![2, 0, 1]);
}

#[test]
fn equally_early_and_short_jobs_go_by_id() {
    let instance = table(vec![
        (2, 4, vec![0, 0, 0]),
        (2, 4, vec![0, 0, 0]),
        (9, 4, vec![0, 0, 0]),
    ]);
    assert_eq!(earliest_shortest(&instance.tasks, &vec![0, 1, 2]), 0);
    assert_eq!(earliest_shortest(&instance.tasks, &vec![1, 2]), 0);
    assert_eq!(earliest_shortest(&instance.tasks, &vec![2]), 0);
    let other = table(vec![
        (2, 6, vec![0, 0, 0]),
        (5, 4, vec![0, 0, 0]),
        (3, 4, vec![0, 0, 0]),
    ]);
    assert_eq!(earliest_shortest(&other.tasks, &vec![0, 1, 2]), 2);
}

#[test]
fn ready_jobs_are_listed_by_position() {
    let instance = five();
    assert_eq!(ready_positions(&instance.tasks, &vec![0, 1, 2, 3, 4], 0), vec![0, 2]);
    assert_eq!(ready_positions(&instance.tasks, &vec![0, 1, 2, 3, 4], 1), vec![0, 2, 4]);
    assert_eq!(ready_positions(&instance.tasks, &vec![1, 3, 4], 8), vec![0, 2]);
    assert_eq!(ready_positions(&instance.tasks, &vec![1, 3, 4], 9), vec![0, 1, 2]);
    assert_eq!(ready_positions(&instance.tasks, &vec![3], 8), Vec::<usize>::new());
}

#[test]
fn first_solution_is_scored() {
    let instance = five();
    let mut solution = Solution::new(vec![]);
    let built = find_initial_solution(&instance, &mut solution, &BoundingStrategy::ATCS, first);
    assert_eq!(built, Ok(()));
    assert_eq!(solution.tasks, vec![0, 1, 2, 4, 3]);
    assert_eq!(solution.get_score(), 77);
    assert_eq!(solution.get_duration(), 26);
}

#[test]
fn first_solution_follows_the_strategy() {
    let instance = five();
    let mut by_rule = Solution::new(vec![]);
    let built = find_initial_solution(&instance, &mut by_rule, &BoundingStrategy::INSERT, first);
    assert_eq!(built, Ok(()));
    assert_eq!(by_rule.tasks, vec![0, 1, 2, 3, 4]);
    assert_eq!(by_rule.get_score(), 87);
    assert_eq!(by_rule.get_duration(), 34);
    let mut hybrid = Solution::new(vec![]);
    let built = find_initial_solution(&instance, &mut hybrid, &BoundingStrategy::HYBRID, first);
    assert_eq!(built, Ok(()));
    assert_eq!(hybrid.tasks, vec![0, 1, 2, 4, 3]);
}

#[test]
fn no_jobs_no_first_solution() {
    let instance = table(vec![]);
    for strategy in [BoundingStrategy::ATCS, BoundingStrategy::INSERT, BoundingStrategy::HYBRID] {
        let mut solution = Solution::new(vec![4]);
        solution.set_score(3);
        let built = find_initial_solution(&instance, &mut solution, &strategy, first);
        assert_eq!(built, Err(NoJobs));
        assert_eq!(solution.get_score(), 3);
        assert_eq!(solution.tasks, Vec::<usize>::new());
    }
}

#[test]
fn first_solution_of_one_job() {
    let instance = table(vec![(5, 7, vec![0])]);
    for strategy in [BoundingStrategy::ATCS, BoundingStrategy::INSERT] {
        let mut solution = Solution::new(vec![]);
        assert_eq!(find_initial_solution(&instance, &mut solution, &strategy, first), Ok(()));
        assert_eq!(solution.tasks, vec![0]);
        assert_eq!(solution.get_score(), 12);
        assert_eq!(solution.get_duration(), 12);
    }
}

#[test]
fn first_solution_costs_what_it_says() {
    let instance = five();
    let mut solution = Solution::new(vec![]);
    find_initial_solution(&instance, &mut solution, &BoundingStrategy::INSERT, |c: &Vec<(u32, u32)>| {
        c.len() / 2
    })
    .unwrap();
    let (cost, makespan) = calculate_score(&instance.tasks, &solution.tasks);
    assert_eq!(solution.get_score(), cost);
    assert_eq!(solution.get_duration(), makespan);
    let mut sorted = solution.tasks.clone();
    sorted.sort();
    assert_eq!(sorted, vec![0, 1, 2, 3, 4]);
}

#[test]
fn offer_lists_the_ready_jobs_with_what_they_would_pay() {
    let instance = five();
    match acts_offer(&instance.tasks, &vec![0, 1, 3, 4], Some(2), 6) {
        Offer::Choice { ready, candidates } => {
            assert_eq!(ready, vec![0, 1, 3]);
            assert_eq!(candidates, vec![(4, 2), (3, 3), (5, 1)]);
        }
        Offer::Forced { .. } => panic!("nothing offered"),
    }
    match acts_offer(&instance.tasks, &vec![0, 1, 2, 3, 4], None, 1) {
        Offer::Choice { ready, candidates } => {
            assert_eq!(ready, vec![0, 2, 4]);
            assert_eq!(candidates, vec![(4, 0), (6, 0), (5, 0)]);
        }
        Offer::Forced { .. } => panic!("nothing offered"),
    }
}

#[test]
fn offer_forces_the_only_ready_job() {
    let instance = five();
    assert!(matches!(
        acts_offer(&instance.tasks, &vec![1, 3, 4], Some(0), 1),
        Offer::Forced { at: 2 }
    ));
    assert!(matches!(acts_offer(&instance.tasks, &vec![3], Some(0), 100), Offer::Forced { at: 0 }));
}

#[test]
fn offer_forces_the_first_to_wake_when_none_is_ready() {
    let instance = five();
    // ready times 2, 9, 1
    assert!(matches!(
        acts_offer(&instance.tasks, &vec![1, 3, 4], None, 0),
        Offer::Forced { at: 2 }
    ));
    assert!(matches!(acts_offer(&instance.tasks, &vec![1, 3], Some(4), 1), Offer::Forced { at: 0 }));
    assert!(matches!(acts_offer(&instance.tasks, &vec![3], Some(4), 8), Offer::Forced { at: 0 }));
}

#[test]
fn answer_selects_a_ready_job() {
    let ready = vec![4, 7, 9];
    assert_eq!(settle(&ready, 0), 4);
    assert_eq!(settle(&ready, 1), 7);
    assert_eq!(settle(&ready, 2), 9);
    assert_eq!(settle(&ready, 3), 4);
    assert_eq!(settle(&ready, usize::MAX), 4);
}

fn rule_index(candidates: &Vec<(u32, u32)>) -> usize {
    // without setups the index is one over the processing time
    let mut best = 0;
    for (i, c) in candidates.iter().enumerate() {
        if c.0 < candidates[best].0 {
            best = i;
        }
    }
    best
}

#[test]
fn priority_rule_places_what_the_choice_selects() {
    // no job is ready at 0; the clock jumps to 3 and job 2 wins on the shorter time;
    // at 5 jobs 0 and 1 are ready and the shorter job 0 is chosen
    let instance = table(vec![
        (1, 5, vec![0, 0, 0]),
        (4, 3, vec![0, 0, 0]),
        (2, 3, vec![0, 0, 0]),
    ]);
    let mut solution = Solution::new(vec![]);
    heuristic_acts(&instance, &mut solution, rule_index);
    assert_eq!(solution.tasks, vec![2, 0, 1]);
    assert_eq!(calculate_score(&instance.tasks, &solution.tasks).0, 21);
    let mut other = Solution::new(vec![]);
    heuristic_acts(&instance, &mut other, |c: &Vec<(u32, u32)>| c.len() - 1);
    assert_eq!(other.tasks, vec![2, 1, 0]);
}

#[test]
fn step_places_the_job_that_the_answer_selects() {
    let instance = five();
    for (picked, job, clock) in [(0usize, 0usize, 12u64), (1, 1, 12), (2, 4, 12), (3, 0, 12), (9, 0, 12)] {
        let mut seq = vec![2];
        let mut left = vec![0, 1, 3, 4];
        let mut now = 6;
        let mut last = Some(2);
        let offer = acts_offer(&instance.tasks, &left, last, now);
        acts_step(&instance.tasks, &mut seq, &mut left, &mut now, &mut last, &offer, picked);
        assert_eq!(seq, vec![2, job]);
        assert_eq!(last, Some(job));
        assert!(!left.contains(&job));
        assert_eq!(left.len(), 3);
        assert_eq!(now, clock);
    }
}

#[test]
fn step_waits_for_a_forced_job() {
    let instance = five();
    let mut seq = vec![0];
    let mut left = vec![3];
    let mut now = 4;
    let mut last = Some(0);
    let offer = acts_offer(&instance.tasks, &left, last, now);
    acts_step(&instance.tasks, &mut seq, &mut left, &mut now, &mut last, &offer, 5);
    assert_eq!(seq, vec![0, 3]);
    assert_eq!(left, Vec::<usize>::new());
    // ready at 9, setup 1, processing time 2
    assert_eq!(now, 12);
}
