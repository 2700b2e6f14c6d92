use vstd::prelude::*;

use crate::geom::{in_limits, COORD_LIMIT, MAX_DIM};

verus! {

/// Why a planner could not be constructed.
#[derive(Clone, Copy, Debug, PartialEq, Eq, Structural)]
pub enum ConfigError {
    /// The start, goal and bound vectors do not share one dimension
    /// between 1 and `MAX_DIM`.
    DimensionMismatch,
    /// A coordinate of start, goal or the bounds lies outside
    /// `[-COORD_LIMIT, COORD_LIMIT]`.
    CoordinateOutOfRange,
    /// Some axis has `low >= high`.
    BoundsInvalid,
    /// The step size is not positive.
    StepSizeNotPositive,
    /// The goal sample rate exceeds `RATE_SCALE`.
    GoalRateOutOfRange,
}

/// Scale of the goal-bias probability: a rate of `RATE_SCALE` means
/// that every sample is the goal itself.
pub const RATE_SCALE: u32 = 1000;

/// The four parameter vectors share one dimension between 1 and
/// `MAX_DIM`.
pub open spec fn dims_ok(start: Seq<i64>, goal: Seq<i64>, low: Seq<i64>, high: Seq<i64>) -> bool {
    &&& 1 <= start.len() <= MAX_DIM
    &&& goal.len() == start.len()
    &&& low.len() == start.len()
    &&& high.len() == start.len()
}

/// All four parameter vectors stay in coordinate range.
pub open spec fn coords_ok(start: Seq<i64>, goal: Seq<i64>, low: Seq<i64>, high: Seq<i64>) -> bool {
    &&& in_limits(start)
    &&& in_limits(goal)
    &&& in_limits(low)
    &&& in_limits(high)
}

/// Every axis of the sampling box is non-degenerate.
pub open spec fn bounds_ok(low: Seq<i64>, high: Seq<i64>) -> bool {
    forall|k: int| 0 <= k < low.len() ==> #[trigger] low[k] < high[k]
}

/// The error, if any, that construction with these parameters must
/// report; checks run in a fixed order, so each input maps to one
/// error.
pub open spec fn config_error_of(
    start: Seq<i64>,
    goal: Seq<i64>,
    low: Seq<i64>,
    high: Seq<i64>,
    goal_sample_rate: u32,
    step_size: i64,
) -> Option<ConfigError> {
    if !dims_ok(start, goal, low, high) {
        Some(ConfigError::DimensionMismatch)
    } else if !coords_ok(start, goal, low, high) {
        Some(ConfigError::CoordinateOutOfRange)
    } else if !bounds_ok(low, high) {
        Some(ConfigError::BoundsInvalid)
    } else if step_size <= 0 {
        Some(ConfigError::StepSizeNotPositive)
    } else if goal_sample_rate > RATE_SCALE {
        Some(ConfigError::GoalRateOutOfRange)
    } else {
        None
    }
}

/// Whether a coordinate vector stays in range, as an executable
/// check.
fn coords_in_range(v: &Vec<i64>) -> (r: bool)
    ensures
        r == in_limits(v@),
{
    let n = v.len();
    let mut k: usize = 0;
    while k < n
        invariant
            0 <= k <= n,
            n == v@.len(),
            forall|j: int| 0 <= j < k ==> -COORD_LIMIT <= #[trigger] v@[j] <= COORD_LIMIT,
        decreases n - k,
    {
        if v[k] < -COORD_LIMIT || v[k] > COORD_LIMIT {
            return false;
        }
        k = k + 1;
    }
    true
}

/// Validates a planner's construction parameters, reporting the
/// first violated constraint in a fixed order.
pub fn validate_config(
    start: &Vec<i64>,
    goal: &Vec<i64>,
    low: &Vec<i64>,
    high: &Vec<i64>,
    goal_sample_rate: u32,
    step_size: i64,
) -> (r: Option<ConfigError>)
    ensures
        r == config_error_of(start@, goal@, low@, high@, goal_sample_rate, step_size),
{
    let dim = start.len();
    if !(1 <= dim && dim <= MAX_DIM && goal.len() == dim && low.len() == dim && high.len()
        == dim) {
        return Some(ConfigError::DimensionMismatch);
    }
    if !(coords_in_range(start) && coords_in_range(goal) && coords_in_range(low)
        && coords_in_range(high)) {
        return Some(ConfigError::CoordinateOutOfRange);
    }
    let mut k: usize = 0;
    while k < dim
        invariant
            0 <= k <= dim,
            dim == low@.len() == high@.len(),
            dims_ok(start@, goal@, low@, high@),
            coords_ok(start@, goal@, low@, high@),
            forall|j: int| 0 <= j < k ==> #[trigger] low@[j] < high@[j],
        decreases dim - k,
    {
        if low[k] >= high[k] {
            return Some(ConfigError::BoundsInvalid);
        }
        k = k + 1;
    }
    if step_size <= 0 {
        return Some(ConfigError::StepSizeNotPositive);
    }
    if goal_sample_rate > RATE_SCALE {
        return Some(ConfigError::GoalRateOutOfRange);
    }
    None
}

} // verus!
