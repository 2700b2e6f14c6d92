use vstd::prelude::*;

use crate::geom::{in_limits, sq_dist, MAX_DIM};

verus! {

/// A tagged obstacle shape: an axis-aligned box given by its center
/// and per-axis full extents, or a ball given by its center and
/// radius.
#[derive(Clone)]
pub enum Obstacle {
    RectObstacle { center: Vec<i64>, size: Vec<i64> },
    CircleObstacle { center: Vec<i64>, radius: i64 },
}

/// Each doubled per-axis offset of `p` from `center` stays within
/// the box extents.
pub open spec fn rect_contains(center: Seq<i64>, size: Seq<i64>, p: Seq<i64>) -> bool {
    forall|k: int|
        0 <= k < center.len() ==> -size[k] <= 2 * (p[k] - #[trigger] center[k]) && 2 * (p[k]
            - center[k]) <= size[k]
}

impl Obstacle {
    /// The dimension of the space the obstacle lives in.
    pub open spec fn dim(&self) -> int {
        match self {
            Obstacle::RectObstacle { center, .. } => center@.len() as int,
            Obstacle::CircleObstacle { center, .. } => center@.len() as int,
        }
    }

    /// Well-formedness: in-range center coordinates, matching
    /// extents, and non-negative, bounded sizes.
    pub open spec fn wf(&self) -> bool {
        match self {
            Obstacle::RectObstacle { center, size } => {
                &&& 1 <= center@.len() <= MAX_DIM
                &&& size@.len() == center@.len()
                &&& in_limits(center@)
                &&& forall|k: int| 0 <= k < size@.len() ==> 0 <= #[trigger] size@[k] <= 4_000_000
            },
            Obstacle::CircleObstacle { center, radius } => {
                &&& 1 <= center@.len() <= MAX_DIM
                &&& in_limits(center@)
                &&& 0 <= *radius <= 2_000_000
            },
        }
    }

    /// Whether `p` lies inside the obstacle, boundary included: for
    /// a box, each doubled offset from the center stays within the
    /// extent; for a ball, the squared distance to the center stays
    /// within the squared radius.
    pub open spec fn contains(&self, p: Seq<i64>) -> bool {
        match self {
            Obstacle::RectObstacle { center, size } => rect_contains(center@, size@, p),
            Obstacle::CircleObstacle { center, radius } => sq_dist(center@, p) <= (*radius)
                * (*radius),
        }
    }

    /// Whether `position` lies inside the obstacle, boundary
    /// included.
    pub fn is_inside(&self, position: &Vec<i64>) -> (r: bool)
        requires
            self.wf(),
            position@.len() == self.dim(),
            in_limits(position@),
        ensures
            r == self.contains(position@),
    {
        match self {
            Obstacle::RectObstacle { center, size } => {
                let n = center.len();
                let mut k: usize = 0;
                assert(self.contains(position@) == rect_contains(center@, size@, position@));
                while k < n
                    invariant
                        self.contains(position@) == rect_contains(center@, size@, position@),
                        0 <= k <= n,
                        n == center@.len() == size@.len() == position@.len(),
                        in_limits(center@),
                        in_limits(position@),
                        forall|j: int| 0 <= j < n ==> 0 <= #[trigger] size@[j] <= 4_000_000,
                        forall|j: int|
                            0 <= j < k ==> -size@[j] <= 2 * (position@[j]
                                - #[trigger] center@[j]) && 2 * (position@[j] - center@[j])
                                <= size@[j],
                    decreases n - k,
                {
                    let t: i64 = 2 * (position[k] - center[k]);
                    if t < -size[k] || size[k] < t {
                        proof {
                            if rect_contains(center@, size@, position@) {
                                assert(-size@[k as int] <= 2 * (position@[k as int]
                                    - #[trigger] center@[k as int]) && 2 * (position@[k as int]
                                    - center@[k as int]) <= size@[k as int]);
                            }
                        }
                        return false;
                    }
                    k = k + 1;
                }
                assert(rect_contains(center@, size@, position@));
                true
            },
            Obstacle::CircleObstacle { center, radius } => {
                let s = crate::geom::sq_dist_points(center, position);
                let rad: i64 = *radius;
                assert(rad * rad <= 4_000_000_000_000) by (nonlinear_arith)
                    requires
                        0 <= rad <= 2_000_000,
                ;
                assert(rad * rad >= 0) by (nonlinear_arith);
                s <= rad * rad
            },
        }
    }
}

} // verus!
