use scheduling::problem_1::algo::heuristics::{best_insertion, calculate_score};
use scheduling::problem_1::grasp::{
    generate_initial_input, grasp_insert, rcl_size, ALPHA_DEN, ALPHA_NUM,
};
use scheduling::problem_1::models::Task;

fn five() -> Vec<Task> {
    let rows = vec![
        (4, 0, vec![0, 2, 7, 1, 3]),
        (3, 2, vec![5, 0, 1, 4, 2]),
        (6, 0, vec![2, 3, 0, 6, 1]),
        (2, 9, vec![1, 1, 4, 0, 5]),
        (5, 1, vec![3, 6, 2, 2, 0]),
    ];
    let mut tasks = Vec::new();
    for (i, (p, r, s)) in rows.into_iter().enumerate() {
        tasks.push(Task { id: i as u32, ready_time: r, processing_time: p, switch_time: s });
    }
    tasks
}

/// Every insertion with its cost, ranked; equal costs keep the order of
/// jobs and positions.
fn ranked(tasks: &Vec<Task>, seq: &Vec<usize>, left: &Vec<usize>) -> Vec<(u64, usize, usize)> {
    let mut all = Vec::new();
    for (ti, job) in left.iter().enumerate() {
        for pos in 0..=seq.len() {
            let mut tried = seq.clone();
            tried.insert(pos, *job);
            all.push((calculate_score(tasks, &tried).0, ti, pos));
        }
    }
    all.sort_by_key(|c| c.0);
    all
}

#[test]
fn restricted_list_is_a_tenth_but_never_empty() {
    assert_eq!((ALPHA_NUM, ALPHA_DEN), (1, 10));
    assert_eq!(rcl_size(1, 1, 10), 1);
    assert_eq!(rcl_size(9, 1, 10), 1);
    assert_eq!(rcl_size(10, 1, 10), 1);
    assert_eq!(rcl_size(19, 1, 10), 1);
    assert_eq!(rcl_size(20, 1, 10), 2);
    assert_eq!(rcl_size(95, 1, 10), 9);
    assert_eq!(rcl_size(100, 1, 10), 10);
}

#[test]
fn restricted_list_for_other_shares() {
    assert_eq!(rcl_size(7, 1, 1), 7);
    assert_eq!(rcl_size(7, 1, 2), 3);
    assert_eq!(rcl_size(7, 2, 3), 4);
    assert_eq!(rcl_size(1, 1, 1000), 1);
    assert_eq!(rcl_size(268451840, 4294967295, 4294967295), 268451840);
}

#[test]
fn step_with_rank_zero_is_the_best_insertion() {
    let tasks = five();
    let mut seq = vec![2, 0];
    let mut left = vec![1, 3, 4];
    let best = best_insertion(&tasks, &seq, &left);
    grasp_insert(&tasks, &mut seq, &mut left, 0);
    assert_eq!(calculate_score(&tasks, &seq).0, best.cost);
    assert_eq!(seq.len(), 3);
    assert_eq!(left.len(), 2);
}

#[test]
fn step_takes_the_candidate_at_its_rank() {
    let tasks = five();
    let seq0 = vec![2, 0];
    let left0 = vec![1, 3, 4];
    let order = ranked(&tasks, &seq0, &left0);
    assert_eq!(order.len(), 9);
    for (rank, (cost, ti, pos)) in order.iter().enumerate() {
        let mut seq = seq0.clone();
        let mut left = left0.clone();
        grasp_insert(&tasks, &mut seq, &mut left, rank);
        let mut expect_seq = seq0.clone();
        expect_seq.insert(*pos, left0[*ti]);
        let mut expect_left = left0.clone();
        expect_left.remove(*ti);
        assert_eq!(seq, expect_seq);
        assert_eq!(left, expect_left);
        assert_eq!(calculate_score(&tasks, &seq).0, *cost);
    }
}

#[test]
fn step_into_an_empty_order() {
    let tasks = five();
    let mut seq = vec![];
    let mut left = vec![0, 1, 2, 3, 4];
    // alone, the jobs cost 4, 5, 6, 11, 6
    grasp_insert(&tasks, &mut seq, &mut left, 0);
    assert_eq!(seq, vec![0]);
    assert_eq!(left, vec![1, 2, 3, 4]);
    let mut seq = vec![];
    let mut left = vec![0, 1, 2, 3, 4];
    // of the two jobs that cost 6 alone, job 2 comes first
    grasp_insert(&tasks, &mut seq, &mut left, 2);
    assert_eq!(seq, vec![2]);
    let mut seq = vec![];
    let mut left = vec![0, 1, 2, 3, 4];
    grasp_insert(&tasks, &mut seq, &mut left, 3);
    assert_eq!(seq, vec![4]);
    let mut seq = vec![];
    let mut left = vec![0, 1, 2, 3, 4];
    grasp_insert(&tasks, &mut seq, &mut left, 4);
    assert_eq!(seq, vec![3]);
}

#[test]
fn construction_places_every_job_once() {
    let tasks = five();
    for _ in 0..20 {
        let schedule = generate_initial_input(&tasks);
        let mut sorted = schedule.task_ids.clone();
        sorted.sort();
        assert_eq!(sorted, vec![0, 1, 2, 3, 4]);
        assert_eq!(schedule.score, calculate_score(&tasks, &schedule.task_ids).0);
        assert_eq!(schedule.score_partials[4], schedule.score);
    }
}

#[test]
fn construction_with_a_list_of_one_is_greedy() {
    // with at most five jobs there are never twenty candidates
    let tasks = five();
    let mut seq = vec![];
    let mut left = vec![0, 1, 2, 3, 4];
    while !left.is_empty() {
        grasp_insert(&tasks, &mut seq, &mut left, 0);
    }
    let schedule = generate_initial_input(&tasks);
    assert_eq!(schedule.task_ids, seq);
}

#[test]
fn construction_of_nothing_is_empty() {
    let tasks: Vec<Task> = vec![];
    let schedule = generate_initial_input(&tasks);
    assert_eq!(schedule.task_ids, Vec::<usize>::new());
    assert_eq!(schedule.score, 0);
}
