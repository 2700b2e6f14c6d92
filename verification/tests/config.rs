use path_planning::planner::ConfigError;
use path_planning::planner::RRT;

fn build(
    start: Vec<i64>,
    goal: Vec<i64>,
    low: Vec<i64>,
    high: Vec<i64>,
    rate: u32,
    step: i64,
) -> Result<RRT<impl Fn(Vec<i64>) -> bool>, ConfigError> {
    RRT::new(start, goal, low, high, |_p: Vec<i64>| true, rate, step, 10, 1)
}

#[test]
fn test_dimension_mismatch_is_rejected() {
    let r = build(vec![0, 0], vec![1000, 1000, 0], vec![0, 0], vec![2000, 2000], 200, 100);
    assert_eq!(r.err().unwrap(), ConfigError::DimensionMismatch);
    let r = build(vec![], vec![], vec![], vec![], 200, 100);
    assert_eq!(r.err().unwrap(), ConfigError::DimensionMismatch);
}

#[test]
fn test_out_of_range_coordinate_is_rejected() {
    let r = build(vec![2_000_000, 0], vec![1000, 1000], vec![0, 0], vec![2000, 2000], 200, 100);
    assert_eq!(r.err().unwrap(), ConfigError::CoordinateOutOfRange);
}

#[test]
fn test_degenerate_bounds_are_rejected() {
    let r = build(vec![0, 0], vec![1000, 1000], vec![0, 0], vec![2000, 0], 200, 100);
    assert_eq!(r.err().unwrap(), ConfigError::BoundsInvalid);
}

#[test]
fn test_nonpositive_step_size_is_rejected() {
    let r = build(vec![0, 0], vec![1000, 1000], vec![0, 0], vec![2000, 2000], 200, 0);
    assert_eq!(r.err().unwrap(), ConfigError::StepSizeNotPositive);
    let r = build(vec![0, 0], vec![1000, 1000], vec![0, 0], vec![2000, 2000], 200, -5);
    assert_eq!(r.err().unwrap(), ConfigError::StepSizeNotPositive);
}

#[test]
fn test_goal_rate_above_scale_is_rejected() {
    let r = build(vec![0, 0], vec![1000, 1000], vec![0, 0], vec![2000, 2000], 1001, 100);
    assert_eq!(r.err().unwrap(), ConfigError::GoalRateOutOfRange);
}

#[test]
fn test_valid_parameters_are_accepted() {
    let r = build(vec![0, 0], vec![1000, 1000], vec![0, 0], vec![2000, 2000], 1000, 1);
    assert!(r.is_ok());
}
