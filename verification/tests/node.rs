use path_planning::planner::Node;

#[test]
fn test_node() {
    // Coordinates are integers in thousandths of a unit.
    let position: Vec<i64> = vec![1000, 2000];
    let node = Node::new(position.clone());
    assert_eq!(node.position[0], position[0]);
    assert_eq!(node.position[1], position[1]);

    let node1 = Node::new(vec![0, 0]);
    let node2 = Node::new(vec![1000, 1000]);
    // isqrt(2) scaled by 1000: 1414.
    assert_eq!(node1.calc_distance(&node2), 1414);
    assert_eq!(node2.calc_distance(&node1), 1414);

    assert_eq!(node1.calc_difference(&node2), vec![1000, 1000]);
    assert_eq!(node2.calc_difference(&node1), vec![-1000, -1000]);
}

#[test]
fn test_node_distance_exact() {
    // A 3-4-5 triangle scaled by 1000 has an exact distance.
    let a = Node::new(vec![0, 0]);
    let b = Node::new(vec![3000, 4000]);
    assert_eq!(a.calc_distance(&b), 5000);
    assert_eq!(a.calc_sq_distance(&b), 25_000_000);
    // Distance is zero exactly on equal points.
    let c = Node::new(vec![3000, 4000]);
    assert_eq!(b.calc_distance(&c), 0);
    assert!(a.calc_distance(&b) > 0);
}
