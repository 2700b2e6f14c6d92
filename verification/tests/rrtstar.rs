use path_planning::planner::AbstractRRT;
use path_planning::planner::Node;
use path_planning::planner::RRTStar;

#[test]
fn rrtstar_test_plan() {
    let low: Vec<i64> = vec![0, 0];
    let high: Vec<i64> = vec![50_000, 30_000];
    let start: Vec<i64> = vec![1000, 1000];
    let goal: Vec<i64> = vec![48_000, 25_000];
    let is_approved = |_position: Vec<i64>| true;
    let goal_sample_rate = 200;
    let step_size = 2000;
    let max_iter = 2000;

    let mut rrt = RRTStar::new(
        start.clone(),
        goal.clone(),
        low,
        high,
        is_approved,
        goal_sample_rate,
        step_size,
        max_iter,
        7,
    )
    .unwrap();
    let path = rrt.plan();

    assert!(path.len() > 0);
    assert_eq!(path[0], start);
    assert_eq!(path[path.len() - 1], goal);
}

#[test]
fn test_add_node_cost() {
    let mut planner = RRTStar::new(
        vec![0, 0],
        vec![9000, 9000],
        vec![-10_000, -10_000],
        vec![10_000, 10_000],
        |_p: Vec<i64>| true,
        0,
        1000,
        10,
        1,
    )
    .unwrap();
    // A 3-4-5 edge gives the child an exact accumulated cost.
    let idx = planner.add_node(Node::new(vec![3000, 4000]), 0);
    let nodes = planner.get_nodes();
    assert_eq!(nodes[idx].cost, 5000);
    assert_eq!(nodes[idx].parent, Some(0));
    assert!(nodes[0].children.contains(&idx));
}

#[test]
fn test_min_cost_parent() {
    let mut planner = RRTStar::new(
        vec![0, 0],
        vec![9000, 9000],
        vec![-10_000, -10_000],
        vec![10_000, 10_000],
        |_p: Vec<i64>| true,
        0,
        1000,
        10,
        1,
    )
    .unwrap();
    // Node 1 sits one step from the root; reaching (800, 0) through
    // it costs 1000 + 600, while the root offers 800 directly.
    let n1 = planner.add_node(Node::new(vec![800, 600]), 0);
    assert_eq!(planner.get_nodes()[n1].cost, 1000);
    let best = planner.get_parent_node_index_minimize_cost(&Node::new(vec![800, 0]));
    assert_eq!(best, 0);
}

#[test]
fn test_rewire_near_nodes() {
    let mut planner = RRTStar::new(
        vec![0, 0],
        vec![9000, 9000],
        vec![-10_000, -10_000],
        vec![10_000, 10_000],
        |_p: Vec<i64>| true,
        0,
        1000,
        10,
        1,
    )
    .unwrap();
    // Build a detour: root -> n1 -> n2, with n2's subtree holding n3.
    let n1 = planner.add_node(Node::new(vec![800, 600]), 0);
    let n2 = planner.add_node(Node::new(vec![800, 0]), n1);
    let n3 = planner.add_node(Node::new(vec![800, -600]), n2);
    assert_eq!(planner.get_nodes()[n2].cost, 1600);
    assert_eq!(planner.get_nodes()[n3].cost, 2200);
    // The root is within one step of n2 and offers a cheaper
    // connection; rewiring n2 lowers it and its whole subtree.
    let near = planner.get_near_node_indices(&Node::new(vec![800, 0]));
    assert!(near.contains(&0) && near.contains(&n2));
    planner.rewire_near_nodes(vec![n2], 0);
    let nodes = planner.get_nodes();
    assert_eq!(nodes[n2].parent, Some(0));
    assert_eq!(nodes[n2].cost, 800);
    // n3 keeps its parent but inherits the improvement.
    assert_eq!(nodes[n3].parent, Some(n2));
    assert_eq!(nodes[n3].cost, 1400);
    assert_eq!(nodes[n1].cost, 1000);
    assert!(nodes[0].children.contains(&n2));
    assert!(!nodes[n1].children.contains(&n2));
}

#[test]
fn test_extract_path_without_goal() {
    let planner = RRTStar::new(
        vec![0, 0],
        vec![9000, 9000],
        vec![-10_000, -10_000],
        vec![10_000, 10_000],
        |_p: Vec<i64>| true,
        0,
        1000,
        10,
        1,
    )
    .unwrap();
    // With no goal connection the walk starts at the root itself.
    let path = planner.extract_path();
    assert_eq!(path, vec![vec![0, 0]]);
}
