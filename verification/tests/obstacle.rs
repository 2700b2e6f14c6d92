use path_planning as pp;
use pp::env::Obstacle;

#[test]
fn test_rect_obstacle() {
    let center: Vec<i64> = vec![0, 0];
    let size: Vec<i64> = vec![2000, 2000];
    let rect_obstacle = pp::env::RectObstacle { center, size };

    let position: Vec<i64> = vec![500, 500];
    assert!(rect_obstacle.is_inside(&position));

    let position: Vec<i64> = vec![2100, 2100];
    assert!(!rect_obstacle.is_inside(&position));
}

#[test]
fn test_circle_obstacle() {
    let center: Vec<i64> = vec![0, 0];
    let radius = 2000;
    let circle_obstacle = pp::env::CircleObstacle { center, radius };

    let position: Vec<i64> = vec![1200, 1200];
    assert!(circle_obstacle.is_inside(&position));

    let position: Vec<i64> = vec![1800, 1800];
    assert!(!circle_obstacle.is_inside(&position));
}

#[test]
fn test_obstacle_boundaries() {
    // The boundary belongs to the obstacle for both shapes.
    let rect = pp::env::RectObstacle { center: vec![5000, 0], size: vec![2000, 2000] };
    assert!(rect.is_inside(&vec![4000, 1000]));
    assert!(rect.is_inside(&vec![6000, -1000]));
    assert!(!rect.is_inside(&vec![3999, 0]));
    assert!(!rect.is_inside(&vec![5000, 1001]));

    let circle = pp::env::CircleObstacle { center: vec![0, 0], radius: 1000 };
    assert!(circle.is_inside(&vec![1000, 0]));
    assert!(!circle.is_inside(&vec![1001, 0]));
}

#[test]
fn test_example_env() {
    let env = pp::env::create_example_2d_env();
    assert_eq!(env.low, vec![0, 0]);
    assert_eq!(env.high, vec![50_000, 30_000]);
    assert_eq!(env.obstacles.len(), 9);
    // The center of the first ball obstacle is inside it.
    assert!(env.is_inside_obstacle(&vec![7000, 12_000]));
    // The lower-left corner is free.
    assert!(!env.is_inside_obstacle(&vec![0, 0]));
}
