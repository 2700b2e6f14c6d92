use path_planning::planner::AbstractRRT;
use path_planning::planner::Node;
use path_planning::planner::RRT;

#[test]
fn test_init() {
    // Coordinates are integers in ten-thousandths of a unit.
    let start: Vec<i64> = vec![1000, 1000];
    let goal: Vec<i64> = vec![9000, 9000];
    let low: Vec<i64> = vec![0, 0];
    let high: Vec<i64> = vec![10_000, 10_000];
    let is_approved = |_position: Vec<i64>| true;
    let goal_sample_rate = 200;
    let step_size = 2000;
    let max_iter = 100;
    let rrt = RRT::new(
        start.clone(),
        goal.clone(),
        low.clone(),
        high.clone(),
        is_approved,
        goal_sample_rate,
        step_size,
        max_iter,
        1,
    )
    .unwrap();

    assert_eq!(rrt.start, start);
    assert_eq!(rrt.goal, goal);
    assert_eq!(rrt.low, low);
    assert_eq!(rrt.high, high);
}

fn create_example_2d_rrt() -> RRT<impl Fn(Vec<i64>) -> bool> {
    let start: Vec<i64> = vec![1000, 1000];
    let goal: Vec<i64> = vec![9000, 9000];
    let low: Vec<i64> = vec![0, 0];
    let high: Vec<i64> = vec![10_000, 10_000];
    let is_approved = |_position: Vec<i64>| true;
    let goal_sample_rate = 200;
    let step_size = 2000;
    let max_iter = 100;

    RRT::new(start, goal, low, high, is_approved, goal_sample_rate, step_size, max_iter, 1)
        .unwrap()
}

#[test]
fn test_sample() {
    let mut rrt = create_example_2d_rrt();

    for _ in 0..100 {
        let node = rrt.sample();
        for i in 0..2 {
            assert!(rrt.low[i] <= node.position[i] && node.position[i] <= rrt.high[i]);
        }
    }
}

#[test]
fn test_get_nearest_node_index() {
    let rrt = create_example_2d_rrt();

    let node = Node::new(vec![2000, 2000]);
    let nearest_node_index = rrt.get_nearest_node_index(&node);
    assert_eq!(nearest_node_index, 0);
}

#[test]
fn test_get_extended_node() {
    let rrt = create_example_2d_rrt();

    let new_node = Node::new(vec![20_000, 20_000]);
    let nearest_node_index = rrt.get_nearest_node_index(&new_node);
    let nearest_node = &rrt.get_nodes()[nearest_node_index];

    let extended_node = rrt.get_extended_node(nearest_node, &new_node);
    let d = nearest_node.calc_distance(&extended_node);
    // The steered point lies one step away, up to integer rounding.
    assert!(d <= rrt.step_size && rrt.step_size - d <= 5);
}

#[test]
fn rrt_test_plan() {
    let low: Vec<i64> = vec![0, 0];
    let high: Vec<i64> = vec![50_000, 30_000];
    let start: Vec<i64> = vec![1000, 1000];
    let goal: Vec<i64> = vec![48_000, 25_000];
    let is_approved = |_position: Vec<i64>| true;
    let goal_sample_rate = 200;
    let step_size = 2000;
    let max_iter = 2000;

    let mut rrt = RRT::new(
        start.clone(),
        goal.clone(),
        low,
        high,
        is_approved,
        goal_sample_rate,
        step_size,
        max_iter,
        7,
    )
    .unwrap();
    let path = rrt.plan();

    assert!(path.len() > 0);
    assert_eq!(path[0], start);
    assert_eq!(path[path.len() - 1], goal);
}

#[test]
fn test_plan_with_logging() {
    let mut rrt = create_example_2d_rrt();
    rrt.enable_logging();
    let path = rrt.plan();
    // In an empty environment with this seed a path is found, and
    // every accepted iteration left a snapshot.
    assert!(path.len() > 0);
    assert!(rrt.log.len() > 0);
    let last = &rrt.log[rrt.log.len() - 1];
    assert_eq!(last.len(), rrt.get_nodes().len());
}
