use scheduling::problem_1::algo::bnb::Node;
use scheduling::problem_1::algo::bounds::{
    calculate_lb, lb_assignment_problem, lb_srpt_relaxation, pick_strategy, BoundingStrategy,
};
use scheduling::problem_1::models::{Instance, InstanceMetrics, Task};

fn instance_of(rows: Vec<(u32, u32, Vec<u32>)>) -> Instance {
    let tasks: Vec<Task> = rows
        .into_iter()
        .enumerate()
        .map(|(i, (p, r, s))| Task {
            id: i as u32,
            ready_time: r,
            processing_time: p,
            switch_time: s,
        })
        .collect();
    Instance {
        n: tasks.len(),
        tasks,
        metrics: InstanceMetrics { n: 0, total_processing: 0, total_setup: 0 },
    }
}

fn three() -> Instance {
    instance_of(vec![(3, 0, vec![0, 1, 2]), (2, 1, vec![1, 0, 1]), (4, 0, vec![2, 1, 0])])
}

fn four() -> Instance {
    instance_of(vec![
        (5, 0, vec![0, 3, 1, 2]),
        (2, 0, vec![4, 0, 2, 6]),
        (7, 0, vec![1, 5, 0, 3]),
        (1, 0, vec![2, 2, 9, 0]),
    ])
}

fn node_after(instance: &Instance, placed: &[usize]) -> Node {
    let mut node = Node::root(&instance.tasks);
    for job in placed {
        let pos = node.remaining_jobs.iter().position(|j| j == job).unwrap();
        node = node.child(&instance.tasks, pos);
    }
    node
}

#[test]
fn root_has_every_job_left() {
    let instance = three();
    let root = Node::root(&instance.tasks);
    assert_eq!(root.partial_sequence, Vec::<usize>::new());
    assert_eq!(root.remaining_jobs, vec![0, 1, 2]);
    assert_eq!(root.current_time, 0);
    assert_eq!(root.current_cost, 0);
    assert_eq!(root.last_job_idx, None);
}

#[test]
fn child_places_one_job() {
    let instance = three();
    let node = Node::root(&instance.tasks).child(&instance.tasks, 1);
    assert_eq!(node.partial_sequence, vec![1]);
    assert_eq!(node.remaining_jobs, vec![0, 2]);
    assert_eq!(node.current_time, 3);
    assert_eq!(node.current_cost, 3);
    assert_eq!(node.last_job_idx, Some(1));
    let next = node.child(&instance.tasks, 0);
    assert_eq!(next.partial_sequence, vec![1, 0]);
    assert_eq!(next.remaining_jobs, vec![2]);
    assert_eq!(next.current_time, 7);
    assert_eq!(next.current_cost, 10);
    assert_eq!(next.last_job_idx, Some(0));
}

#[test]
fn setup_blind_bound_of_three_jobs() {
    let instance = three();
    let expect = [(vec![0], 17), (vec![1], 19), (vec![2], 19), (vec![0, 1], 19), (vec![1, 0], 21)];
    for (placed, bound) in expect {
        let node = node_after(&instance, &placed);
        assert_eq!(calculate_lb(&node, &instance, &BoundingStrategy::ATCS), bound);
    }
    let root = Node::root(&instance.tasks);
    assert_eq!(calculate_lb(&root, &instance, &BoundingStrategy::ATCS), 19);
}

#[test]
fn setup_aware_bound_of_three_jobs() {
    let instance = three();
    let expect = [(vec![0], 20), (vec![1], 22), (vec![2], 22), (vec![0, 1], 20), (vec![1, 0], 23)];
    for (placed, bound) in expect {
        let node = node_after(&instance, &placed);
        assert_eq!(calculate_lb(&node, &instance, &BoundingStrategy::INSERT), bound);
    }
    let root = Node::root(&instance.tasks);
    assert_eq!(calculate_lb(&root, &instance, &BoundingStrategy::INSERT), 22);
}

#[test]
fn bounds_of_four_jobs() {
    let instance = four();
    let expect = [
        (vec![0], 34, 45),
        (vec![3], 27, 36),
        (vec![3, 1], 33, 36),
        (vec![1, 3, 0], 50, 51),
    ];
    for (placed, blind, aware) in expect {
        let node = node_after(&instance, &placed);
        assert_eq!(calculate_lb(&node, &instance, &BoundingStrategy::ATCS), blind);
        assert_eq!(calculate_lb(&node, &instance, &BoundingStrategy::INSERT), aware);
        assert_eq!(calculate_lb(&node, &instance, &BoundingStrategy::HYBRID), aware.max(blind));
    }
}

#[test]
fn remaining_estimates_without_the_cost_paid() {
    let instance = four();
    let node = node_after(&instance, &[3, 1]);
    // paid so far: 1 + 5
    assert_eq!(node.current_cost, 6);
    assert_eq!(lb_srpt_relaxation(&node, &instance), 33 - 6);
    assert_eq!(lb_assignment_problem(&node, &instance), 36 - 6);
}

#[test]
fn bound_of_a_leaf_is_its_cost() {
    let instance = three();
    let leaf = node_after(&instance, &[0, 1, 2]);
    for strategy in [BoundingStrategy::ATCS, BoundingStrategy::INSERT, BoundingStrategy::HYBRID] {
        assert_eq!(calculate_lb(&leaf, &instance, &strategy), 20);
    }
    assert_eq!(lb_srpt_relaxation(&leaf, &instance), 0);
    assert_eq!(lb_assignment_problem(&leaf, &instance), 0);
}

#[test]
fn hybrid_bound_is_the_larger_one() {
    let instance = four();
    for placed in [vec![], vec![0], vec![1], vec![2], vec![3], vec![2, 0], vec![3, 1, 2]] {
        let node = node_after(&instance, &placed);
        let blind = calculate_lb(&node, &instance, &BoundingStrategy::ATCS);
        let aware = calculate_lb(&node, &instance, &BoundingStrategy::INSERT);
        let hybrid = calculate_lb(&node, &instance, &BoundingStrategy::HYBRID);
        assert_eq!(hybrid, blind.max(aware));
    }
}

#[test]
fn setup_blind_bound_can_exceed_the_optimum_when_a_job_is_not_released() {
    // after job 2, the shortest job first means waiting for job 0
    let instance = instance_of(vec![
        (1, 100, vec![0, 0, 0]),
        (2, 0, vec![0, 0, 0]),
        (1, 0, vec![0, 0, 0]),
    ]);
    let node = node_after(&instance, &[2]);
    // real best from here: job 1 then job 0: 1 + 3 + 101
    assert_eq!(calculate_lb(&node, &instance, &BoundingStrategy::ATCS), 1 + 101 + 103);
}

#[test]
fn strategy_follows_the_severity_ratio() {
    // average setup 1, average processing 4: ratio 0.25
    let light = InstanceMetrics { n: 3, total_processing: 12, total_setup: 6 };
    assert_eq!(pick_strategy(&light), BoundingStrategy::ATCS);
    // average setup 2, average processing 4: ratio 0.5 exactly
    let even = InstanceMetrics { n: 3, total_processing: 12, total_setup: 12 };
    assert_eq!(pick_strategy(&even), BoundingStrategy::INSERT);
    // just below one half
    let below = InstanceMetrics { n: 3, total_processing: 12, total_setup: 11 };
    assert_eq!(pick_strategy(&below), BoundingStrategy::ATCS);
    let heavy = InstanceMetrics { n: 3, total_processing: 12, total_setup: 60 };
    assert_eq!(pick_strategy(&heavy), BoundingStrategy::INSERT);
}

#[test]
fn one_job_or_none_has_no_light_setups() {
    let single = InstanceMetrics { n: 1, total_processing: 5, total_setup: 0 };
    assert_eq!(pick_strategy(&single), BoundingStrategy::INSERT);
    let none = InstanceMetrics { n: 0, total_processing: 0, total_setup: 0 };
    assert_eq!(pick_strategy(&none), BoundingStrategy::INSERT);
}
