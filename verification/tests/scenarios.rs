use path_planning::planner::AbstractRRT;
use path_planning::planner::InformedRRTStar;
use path_planning::planner::Node;
use path_planning::planner::RRT;
use path_planning::planner::RRTStar;
use path_planning::env::Obstacle;

fn path_cost(path: &Vec<Vec<i64>>) -> i64 {
    let mut cost: i64 = 0;
    for k in 0..path.len() - 1 {
        let a = Node::new(path[k].clone());
        let b = Node::new(path[k + 1].clone());
        cost += a.calc_distance(&b);
    }
    cost
}

// An empty environment with start (0, 0) and goal (10, 0) in
// thousandths of a unit, one-unit steps.
fn straight_line_basic(seed: u64) -> RRT<impl Fn(Vec<i64>) -> bool> {
    RRT::new(
        vec![0, 0],
        vec![10_000, 0],
        vec![-2000, -6000],
        vec![12_000, 6000],
        |_p: Vec<i64>| true,
        200,
        1000,
        5000,
        seed,
    )
    .unwrap()
}

#[test]
fn test_straight_line_basic_planner() {
    let mut rrt = straight_line_basic(11);
    let path = rrt.plan();
    assert!(path.len() > 0);
    assert_eq!(path[0], vec![0, 0]);
    assert_eq!(path[path.len() - 1], vec![10_000, 0]);
    for k in 0..path.len() - 1 {
        let a = Node::new(path[k].clone());
        let b = Node::new(path[k + 1].clone());
        assert!(a.calc_distance(&b) <= 1000);
    }
}

#[test]
fn test_straight_line_optimizing_planner_converges() {
    let mut rrt = RRTStar::new(
        vec![0, 0],
        vec![10_000, 0],
        vec![-2000, -6000],
        vec![12_000, 6000],
        |_p: Vec<i64>| true,
        200,
        1000,
        5000,
        11,
    )
    .unwrap();
    let path = rrt.plan();
    assert!(path.len() > 0);
    let cost = path_cost(&path);
    // The straight-line distance is 10000; after rewiring the path
    // cost lies within a small tolerance of it (integer distances
    // round down, so it can fall slightly short).
    assert!(cost <= 11_000, "cost {} too far from straight line", cost);
    assert!(cost >= 9_900, "cost {} below straight line", cost);
}

#[test]
fn test_zero_iterations_returns_empty_path() {
    let mut basic = RRT::new(
        vec![0, 0],
        vec![10_000, 0],
        vec![-2000, -6000],
        vec![12_000, 6000],
        |_p: Vec<i64>| true,
        200,
        1000,
        0,
        1,
    )
    .unwrap();
    assert_eq!(basic.plan().len(), 0);

    let mut star = RRTStar::new(
        vec![0, 0],
        vec![10_000, 0],
        vec![-2000, -6000],
        vec![12_000, 6000],
        |_p: Vec<i64>| true,
        200,
        1000,
        0,
        1,
    )
    .unwrap();
    assert_eq!(star.plan().len(), 0);

    let mut informed = InformedRRTStar::new(
        vec![0, 0],
        vec![10_000, 0],
        vec![-2000, -6000],
        vec![12_000, 6000],
        |_p: Vec<i64>| true,
        200,
        1000,
        0,
        1,
    )
    .unwrap();
    assert_eq!(informed.plan().len(), 0);
}

#[test]
fn test_rect_obstacle_blocks_direct_line() {
    // A box centered at (5, 0) with half-extent (1, 1) blocks the
    // straight line from (0, 0) to (10, 0).
    let obstacle = Obstacle::RectObstacle { center: vec![5000, 0], size: vec![2000, 2000] };
    let mut rrt = RRTStar::new(
        vec![0, 0],
        vec![10_000, 0],
        vec![-2000, -6000],
        vec![12_000, 6000],
        move |p: Vec<i64>| !obstacle.is_inside(&p),
        200,
        1000,
        5000,
        13,
    )
    .unwrap();
    let path = rrt.plan();
    assert!(path.len() > 0);
    for waypoint in &path {
        let in_box = 4000 <= waypoint[0] && waypoint[0] <= 6000 && -1000 <= waypoint[1]
            && waypoint[1] <= 1000;
        assert!(!in_box, "waypoint {:?} crosses the obstacle", waypoint);
    }
}

#[test]
fn test_informed_planner_finds_path() {
    let mut informed = InformedRRTStar::new(
        vec![0, 0],
        vec![10_000, 0],
        vec![-2000, -6000],
        vec![12_000, 6000],
        |_p: Vec<i64>| true,
        200,
        1000,
        3000,
        17,
    )
    .unwrap();
    let path = informed.plan();
    assert!(path.len() > 0);
    assert_eq!(path[0], vec![0, 0]);
    assert_eq!(path[path.len() - 1], vec![10_000, 0]);
    let cost = path_cost(&path);
    assert!(cost <= 11_500, "cost {} too far from straight line", cost);
}

#[test]
fn test_informed_samples_stay_in_ellipsoid() {
    let mut informed = InformedRRTStar::new(
        vec![0, 0],
        vec![10_000, 0],
        vec![-2000, -6000],
        vec![12_000, 6000],
        |_p: Vec<i64>| true,
        200,
        1000,
        2000,
        19,
    )
    .unwrap();
    let path = informed.plan();
    assert!(path.len() > 0);
    let goal_index = informed.get_goal_node_index();
    assert!(goal_index != 0);
    let cost_max = informed.get_nodes()[goal_index].cost;
    let start = Node::new(vec![0, 0]);
    let goal = Node::new(vec![10_000, 0]);
    let mut drawn = 0;
    for _ in 0..100 {
        if let Some(x) = informed.sample_from_informed_elipse() {
            let node = Node::new(x);
            let focal = node.calc_distance(&start) + node.calc_distance(&goal);
            assert!(focal <= cost_max, "sample outside the ellipsoid: {} > {}", focal, cost_max);
            drawn += 1;
        }
    }
    // The ellipsoid is far from degenerate here, so draws succeed.
    assert!(drawn > 0);
}

#[test]
fn test_informed_center_and_sentinel() {
    let informed = InformedRRTStar::new(
        vec![1000, -3000],
        vec![2000, 2000],
        vec![-10_000, -10_000],
        vec![10_000, 10_000],
        |_p: Vec<i64>| true,
        0,
        1000,
        10,
        1,
    )
    .unwrap();
    // The ellipsoid center is the start-goal midpoint, rounded
    // toward zero per axis.
    assert_eq!(informed.center, vec![1500, -500]);
    // No goal connection yet: the best-cost bound is the sentinel.
    assert_eq!(informed.cost_max, i64::MAX);
    // isqrt(1000^2 + 5000^2) = 5099.
    assert_eq!(informed.cost_min, 5099);
}

#[test]
fn test_deterministic_given_seed() {
    let mut a = straight_line_basic(23);
    let mut b = straight_line_basic(23);
    let path_a = a.plan();
    let path_b = b.plan();
    assert_eq!(path_a, path_b);
    assert_eq!(a.get_nodes().len(), b.get_nodes().len());
    for (na, nb) in a.get_nodes().iter().zip(b.get_nodes().iter()) {
        assert_eq!(na.position, nb.position);
        assert_eq!(na.parent, nb.parent);
        assert_eq!(na.cost, nb.cost);
    }

    let mut c = straight_line_basic(29);
    let path_c = c.plan();
    // A different seed explores differently (with overwhelming
    // likelihood, and deterministically for this fixed seed pair).
    assert!(path_a != path_c || a.get_nodes().len() != c.get_nodes().len());
}
