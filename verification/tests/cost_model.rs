use scheduling::problem_1::algo::heuristics::calculate_score;
use scheduling::problem_1::models::Task;
use scheduling::problem_1::verify;

fn three_jobs() -> Vec<Task> {
    vec![
        Task { id: 0, ready_time: 0, processing_time: 3, switch_time: vec![0, 1, 2] },
        Task { id: 1, ready_time: 1, processing_time: 2, switch_time: vec![1, 0, 1] },
        Task { id: 2, ready_time: 0, processing_time: 4, switch_time: vec![2, 1, 0] },
    ]
}

#[test]
fn three_jobs_in_id_order_cost_twenty() {
    let tasks = three_jobs();
    let (cost, makespan) = calculate_score(&tasks, &vec![0, 1, 2]);
    assert_eq!(cost, 20);
    assert_eq!(makespan, 11);
}

#[test]
fn three_jobs_prefixes_complete_at_three_six_eleven() {
    let tasks = three_jobs();
    assert_eq!(calculate_score(&tasks, &vec![0]), (3, 3));
    assert_eq!(calculate_score(&tasks, &vec![0, 1]), (9, 6));
    assert_eq!(calculate_score(&tasks, &vec![0, 1, 2]), (20, 11));
}

#[test]
fn every_order_of_three_jobs_has_its_cost() {
    let tasks = three_jobs();
    assert_eq!(calculate_score(&tasks, &vec![0, 2, 1]), (24, 12));
    assert_eq!(calculate_score(&tasks, &vec![1, 0, 2]), (23, 13));
    assert_eq!(calculate_score(&tasks, &vec![1, 2, 0]), (24, 13));
    assert_eq!(calculate_score(&tasks, &vec![2, 0, 1]), (25, 12));
    assert_eq!(calculate_score(&tasks, &vec![2, 1, 0]), (22, 11));
}

#[test]
fn empty_order_costs_nothing() {
    let tasks = three_jobs();
    assert_eq!(calculate_score(&tasks, &vec![]), (0, 0));
}

#[test]
fn single_job_costs_ready_plus_processing() {
    let tasks = vec![Task { id: 0, ready_time: 7, processing_time: 5, switch_time: vec![0] }];
    assert_eq!(calculate_score(&tasks, &vec![0]), (12, 12));
}

#[test]
fn job_waits_for_its_ready_time() {
    let tasks = vec![
        Task { id: 0, ready_time: 0, processing_time: 1, switch_time: vec![0, 2] },
        Task { id: 1, ready_time: 10, processing_time: 1, switch_time: vec![2, 0] },
    ];
    // job 1 could start at 3 but is ready only at 10
    assert_eq!(calculate_score(&tasks, &vec![0, 1]), (12, 11));
    // job 0 follows at 11 + 2
    assert_eq!(calculate_score(&tasks, &vec![1, 0]), (25, 14));
}

#[test]
fn repeated_job_pays_no_setup_to_itself() {
    let tasks = three_jobs();
    assert_eq!(calculate_score(&tasks, &vec![0, 0]), (9, 6));
}

#[test]
fn largest_values_do_not_overflow() {
    let big = u32::MAX;
    let tasks = vec![
        Task { id: 0, ready_time: big, processing_time: big, switch_time: vec![0, big] },
        Task { id: 1, ready_time: big, processing_time: big, switch_time: vec![big, 0] },
    ];
    let b = big as u64;
    assert_eq!(calculate_score(&tasks, &vec![0, 1]), (2 * b + 4 * b, (4 * b) as u128));
}

#[test]
fn verify_score_is_the_cost() {
    let tasks = three_jobs();
    assert_eq!(verify::calculate_score(&tasks, &vec![0, 1, 2]), 20);
    assert_eq!(verify::calculate_score(&tasks, &vec![2, 1, 0]), 22);
    assert_eq!(verify::calculate_score(&tasks, &vec![]), 0);
}
